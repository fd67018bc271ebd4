//! The six-direction graph of the drawn edges: every drawn edge opens its
//! direction at both of its ends.
use vstd::prelude::*;

use crate::bits::{
    count_bits, has_bit, lemma_clear_bit, lemma_count_change, lemma_high_bits_clear, lemma_set_bit,
    lemma_zero_iff_no_bits, popcount,
};
use crate::cells::{cell_map_contents, map_get, map_insert, map_keys, map_new, CellKey, CellMap};
use crate::geom::{
    edge_at, lemma_canon_self, lemma_canonical_edge_identity, lemma_edge_at_inverse, lemma_key_eq,
    lemma_norm_bounds, lemma_step_back, lemma_step_norm, Coord, Direction, EdgePos, HexEdge,
};
use crate::puzzle::{Board, MAX_RADIUS};

verus! {

/// A cell close enough to the origin that it can touch a drawn edge.
pub open spec fn near(c: Coord) -> bool {
    c.norm() <= MAX_RADIUS + 1
}

/// Mask of a cell in a map of masks, zero when absent.
pub open spec fn mask_of(g: Map<CellKey, u8>, c: Coord) -> u8 {
    if g.contains_key(c.key()) {
        g[c.key()]
    } else {
        0
    }
}

/// Direction `d` is open at `c` in a six-direction graph.
pub open spec fn open_at(g: Map<CellKey, u8>, c: Coord, d: Direction) -> bool {
    has_bit(mask_of(g, c), d.index() as u8)
}

/// Keys of a six-direction graph are near cells with nonzero six-bit masks.
pub open spec fn graph_keys_ok(g: Map<CellKey, u8>) -> bool {
    forall|k: CellKey| #[trigger]
        g.contains_key(k) ==> 0 < g[k] < 64 && near(Coord::from_key(k))
}

/// `g` is the six-direction graph of the board's drawn edges.
pub open spec fn graph_of(board: &Board, g: Map<CellKey, u8>) -> bool {
    &&& graph_keys_ok(g)
    &&& forall|c: Coord, d: Direction| c.inner() ==> #[trigger] open_at(g, c, d) == board.link(c, d)
}

/// A near cell is well inside the coordinate limit.
pub(crate) proof fn lemma_near_inner(c: Coord)
    requires
        near(c),
    ensures
        c.inner(),
{
    lemma_norm_bounds(c, MAX_RADIUS + 1);
}

/// Opens direction `d` at `c`.
pub(crate) fn set_open(g: &mut CellMap, c: Coord, d: Direction)
    requires
        graph_keys_ok(cell_map_contents(*old(g))),
        near(c),
    ensures
        graph_keys_ok(cell_map_contents(*final(g))),
        forall|c2: Coord, d2: Direction| #[trigger]
            open_at(cell_map_contents(*final(g)), c2, d2) == (open_at(cell_map_contents(*old(g)), c2, d2) || (c2
                == c && d2 == d)),
{
    let key = (c.x, c.y);
    let prev = match map_get(g, key) {
        Some(m) => m,
        None => 0,
    };
    let k = d.to_u8();
    let next = prev | (1u8 << k);
    proof {
        assert(prev < 64);
        assert(prev < 64 && k < 6 ==> (prev | (1u8 << k)) < 64 && (prev | (1u8 << k)) != 0) by (bit_vector);
        assert forall|c2: Coord, d2: Direction| #[trigger]
            open_at(cell_map_contents(*g).insert(key, next), c2, d2) == (open_at(cell_map_contents(*g), c2, d2) || (c2
                == c && d2 == d)) by {
            lemma_key_eq(c2, c);
            if c2 == c {
                lemma_set_bit(prev, k, d2.index() as u8);
            }
        }
        lemma_key_eq(c, c);
    }
    map_insert(g, key, next);
}

/// Records the edge in the graph, from both of its ends, when it is drawn.
pub(crate) fn add_edge(g: &mut CellMap, board: &Board, e: EdgePos)
    requires
        board.wf(),
        graph_keys_ok(cell_map_contents(*old(g))),
        e.coord.norm() <= MAX_RADIUS,
    ensures
        graph_keys_ok(cell_map_contents(*final(g))),
        forall|c: Coord, d: Direction|
            c.inner() ==> #[trigger] open_at(cell_map_contents(*final(g)), c, d) == (open_at(
                cell_map_contents(*old(g)),
                c,
                d,
            ) || (board.drawn(e) && edge_at(c, d) == e)),
{
    proof {
        lemma_norm_bounds(e.coord, MAX_RADIUS as int);
        lemma_zero_iff_no_bits(0);
    }
    if board.get_path(e) == Some(true) {
        let d = e.edge.to_hex2d();
        let n = e.coord.neighbor(d);
        proof {
            lemma_step_norm(e.coord, d);
        }
        let back = d.rotate(crate::geom::Angle::Back);
        set_open(g, e.coord, d);
        set_open(g, n, back);
        proof {
            assert forall|c: Coord, d2: Direction| c.inner() implies #[trigger] open_at(
                cell_map_contents(*g),
                c,
                d2,
            ) == (open_at(cell_map_contents(*old(g)), c, d2) || (board.drawn(e) && edge_at(c, d2) == e)) by {
                lemma_canonical_edge_identity(e.coord, d);
                assert(edge_at(e.coord, d) == e);
                if edge_at(c, d2) == e {
                    lemma_edge_at_inverse(c, d2, e.coord, d);
                }
            }
        }
    } else {
        proof {
            assert(!board.drawn(e));
        }
    }
}

/// The six-direction graph of the drawn edges: each drawn edge opens its
/// direction at both of its ends.
pub(crate) fn make_graph(board: &Board) -> (r: CellMap)
    requires
        board.wf(),
    ensures
        graph_of(board, cell_map_contents(r)),
{
    let keys = map_keys(&board.paths);
    let mut g = map_new();
    let mut i: usize = 0;
    proof {
        lemma_zero_iff_no_bits(0);
        assert(keys@.subrange(0, 0) =~= Seq::<CellKey>::empty());
    }
    while i < keys.len()
        invariant
            board.wf(),
            keys@.to_set() == board@.dom(),
            i <= keys.len(),
            graph_keys_ok(cell_map_contents(g)),
            forall|c: Coord, d: Direction|
                c.inner() ==> #[trigger] open_at(cell_map_contents(g), c, d) == (board.link(c, d)
                    && keys@.subrange(0, i as int).contains(edge_at(c, d).coord.key())),
        decreases keys.len() - i,
    {
        let c = Coord::new(keys[i].0, keys[i].1);
        proof {
            assert(keys@.to_set().contains(keys@[i as int]));
            assert(board@.contains_key(c.key()));
        }
        let ghost g0 = cell_map_contents(g);
        add_edge(&mut g, board, EdgePos::new(c, HexEdge::XY));
        add_edge(&mut g, board, EdgePos::new(c, HexEdge::ZY));
        add_edge(&mut g, board, EdgePos::new(c, HexEdge::ZX));
        proof {
            assert forall|c2: Coord, d: Direction| c2.inner() implies #[trigger] open_at(
                cell_map_contents(g),
                c2,
                d,
            ) == (board.link(c2, d) && keys@.subrange(0, i + 1).contains(edge_at(c2, d).coord.key())) by {
                let e = edge_at(c2, d);
                let s0 = keys@.subrange(0, i as int);
                let s1 = keys@.subrange(0, i + 1);
                assert(s1 == s0.push(keys@[i as int]));
                if s0.contains(e.coord.key()) {
                    let j = choose|j: int| 0 <= j < s0.len() && s0[j] == e.coord.key();
                    assert(s1[j] == e.coord.key());
                }
                if s1.contains(e.coord.key()) && !s0.contains(e.coord.key()) {
                    let j = choose|j: int| 0 <= j < s1.len() && s1[j] == e.coord.key();
                    if j < s0.len() {
                        assert(s0[j] == e.coord.key());
                    }
                    lemma_key_eq(e.coord, c);
                    assert(e == EdgePos { coord: c, edge: HexEdge::XY } || e == EdgePos { coord: c, edge: HexEdge::ZY } || e
                        == EdgePos { coord: c, edge: HexEdge::ZX });
                }
                if e.coord.key() == c.key() {
                    assert(s1[i as int] == e.coord.key());
                    lemma_key_eq(e.coord, c);
                }
            }
        }
        i = i + 1;
    }
    proof {
        assert(keys@.subrange(0, keys.len() as int) == keys@);
        assert forall|c: Coord, d: Direction| c.inner() implies #[trigger] open_at(cell_map_contents(g), c, d)
            == board.link(c, d) by {
            let e = edge_at(c, d);
            if board.link(c, d) {
                lemma_zero_iff_no_bits(0);
                assert(board@.contains_key(e.coord.key()));
                assert(keys@.to_set().contains(e.coord.key()));
            }
        }
    }
    g
}

/// The edge is still open in the graph, at its base cell in its own direction.
pub open spec fn remaining(g: Map<CellKey, u8>, e: EdgePos) -> bool {
    open_at(g, e.coord, e.edge.dir())
}

/// Every open direction is open from the other end too.
#[verifier::opaque]
pub open spec fn graph_sym(g: Map<CellKey, u8>) -> bool {
    forall|c: Coord, d: Direction|
        c.inner() ==> #[trigger] open_at(g, c, d) == open_at(g, c.step(d), d.opposite())
}

/// Keys are near cells with six-bit masks.
pub open spec fn graph_bounded(g: Map<CellKey, u8>) -> bool {
    forall|k: CellKey| #[trigger] g.contains_key(k) ==> g[k] < 64 && near(Coord::from_key(k))
}

/// Sum of the open directions over the cells of `ks`.
pub open spec fn deg_sum(g: Map<CellKey, u8>, ks: Seq<CellKey>) -> nat
    decreases ks.len(),
{
    if ks.len() == 0 {
        0
    } else {
        deg_sum(g, ks.drop_last()) + popcount(mask_of(g, Coord::from_key(ks.last())))
    }
}

/// Replacing one key's mask changes the sum by the change of its count.
pub(crate) proof fn lemma_deg_sum_update(g: Map<CellKey, u8>, ks: Seq<CellKey>, k: CellKey, v: u8)
    requires
        ks.no_duplicates(),
        ks.contains(k),
        g.contains_key(k),
    ensures
        deg_sum(g.insert(k, v), ks) + popcount(g[k]) == deg_sum(g, ks) + popcount(v),
    decreases ks.len(),
{
    let g2 = g.insert(k, v);
    let init = ks.drop_last();
    let c = Coord::from_key(ks.last());
    lemma_key_eq(c, Coord::from_key(k));
    assert(Coord::from_key(k).key() == k);
    if ks.last() == k {
        assert(!init.contains(k)) by {
            if init.contains(k) {
                let i = choose|i: int| 0 <= i < init.len() && init[i] == k;
                assert(ks[i] == ks[ks.len() - 1]);
            }
        }
        lemma_deg_sum_frame(g, init, k, v);
    } else {
        assert(init.contains(k)) by {
            let i = choose|i: int| 0 <= i < ks.len() && ks[i] == k;
            assert(init[i] == k);
        }
        assert(init.no_duplicates());
        lemma_deg_sum_update(g, init, k, v);
        assert(mask_of(g2, c) == mask_of(g, c));
    }
}

/// A key outside the sequence does not affect its sum.
pub(crate) proof fn lemma_deg_sum_frame(g: Map<CellKey, u8>, ks: Seq<CellKey>, k: CellKey, v: u8)
    requires
        !ks.contains(k),
    ensures
        deg_sum(g.insert(k, v), ks) == deg_sum(g, ks),
    decreases ks.len(),
{
    if ks.len() > 0 {
        let init = ks.drop_last();
        assert(!init.contains(k)) by {
            if init.contains(k) {
                let i = choose|i: int| 0 <= i < init.len() && init[i] == k;
                assert(ks[i] == k);
            }
        }
        lemma_deg_sum_frame(g, init, k, v);
        let c = Coord::from_key(ks.last());
        assert(c.key() == ks.last());
        assert(ks.last() != k);
    }
}

/// Closes direction `d` at `c`, which is open there.
pub(crate) fn close_dir(g: &mut CellMap, c: Coord, d: Direction, Ghost(ks): Ghost<Seq<CellKey>>)
    requires
        graph_bounded(cell_map_contents(*old(g))),
        open_at(cell_map_contents(*old(g)), c, d),
        cell_map_contents(*old(g)).dom() == ks.to_set(),
        ks.no_duplicates(),
    ensures
        graph_bounded(cell_map_contents(*final(g))),
        cell_map_contents(*final(g)).dom() == cell_map_contents(*old(g)).dom(),
        forall|c2: Coord, d2: Direction| #[trigger]
            open_at(cell_map_contents(*final(g)), c2, d2) == (open_at(cell_map_contents(*old(g)), c2, d2) && !(c2
                == c && d2 == d)),
        forall|c2: Coord| c2 != c ==> #[trigger] mask_of(cell_map_contents(*final(g)), c2) == mask_of(
            cell_map_contents(*old(g)),
            c2,
        ),
        popcount(mask_of(cell_map_contents(*final(g)), c)) + 1 == popcount(
            mask_of(cell_map_contents(*old(g)), c),
        ),
        deg_sum(cell_map_contents(*final(g)), ks) + 1 == deg_sum(cell_map_contents(*old(g)), ks),
{
    let ghost g0 = cell_map_contents(*g);
    let key = (c.x, c.y);
    proof {
        lemma_zero_iff_no_bits(0);
        lemma_key_eq(c, c);
    }
    let prev = match map_get(g, key) {
        Some(m) => m,
        None => 0,
    };
    let k = d.to_u8();
    let next = prev & !(1u8 << k);
    proof {
        assert(prev < 64 ==> (prev & !(1u8 << k)) < 64) by (bit_vector);
        assert forall|c2: Coord, d2: Direction| #[trigger]
            open_at(g0.insert(key, next), c2, d2) == (open_at(g0, c2, d2) && !(c2 == c && d2 == d)) by {
            lemma_key_eq(c2, c);
            if c2 == c {
                lemma_clear_bit(prev, k, d2.index() as u8);
            }
        }
        assert forall|c2: Coord| c2 != c implies #[trigger] mask_of(g0.insert(key, next), c2) == mask_of(g0, c2) by {
            lemma_key_eq(c2, c);
        }
        assert forall|j: u8| j < 8 && j != k implies has_bit(prev, j) == has_bit(next, j) by {
            lemma_clear_bit(prev, k, j);
        }
        lemma_clear_bit(prev, k, k);
        lemma_count_change(prev, next, k, 8);
        assert(ks.to_set().contains(key));
        lemma_deg_sum_update(g0, ks, key, next);
        assert(g0.insert(key, next).dom() =~= g0.dom());
    }
    map_insert(g, key, next);
}

/// In the board's own graph a cell's open directions are its drawn edges.
pub(crate) proof fn lemma_popcount_degree(board: &Board, g: Map<CellKey, u8>, c: Coord)
    requires
        graph_of(board, g),
        c.inner(),
    ensures
        popcount(mask_of(g, c)) == board.degree(c),
{
    let m = mask_of(g, c);
    assert(m < 64);
    lemma_count_degree(board, g, c, 6);
    lemma_high_bits_clear(m, 6, 6);
    lemma_high_bits_clear(m, 6, 7);
    assert(count_bits(m, 7) == count_bits(m, 6));
}

/// Counting the lowest `n` bits counts the first `n` directions' drawn edges.
pub(crate) proof fn lemma_count_degree(board: &Board, g: Map<CellKey, u8>, c: Coord, n: nat)
    requires
        graph_of(board, g),
        c.inner(),
        n <= 6,
    ensures
        count_bits(mask_of(g, c), n) == board.degree_upto(c, n),
    decreases n,
{
    if n > 0 {
        lemma_count_degree(board, g, c, (n - 1) as nat);
        let d = Direction::from_index((n - 1) as nat);
        assert(d.index() == n - 1);
        assert(open_at(g, c, d) == board.link(c, d));
    }
}

/// The cells of `ks` whose mask has an odd number of bits.
pub(crate) fn collect_odd(g: &CellMap, ks: &Vec<CellKey>) -> (r: Vec<Coord>)
    requires
        cell_map_contents(*g).dom() == ks@.to_set(),
        ks@.no_duplicates(),
    ensures
        r@.no_duplicates(),
        forall|c: Coord| #[trigger]
            r@.contains(c) == (cell_map_contents(*g).contains_key(c.key()) && popcount(
                cell_map_contents(*g)[c.key()],
            ) % 2 == 1),
{
    let mut out: Vec<Coord> = Vec::new();
    let mut i: usize = 0;
    while i < ks.len()
        invariant
            cell_map_contents(*g).dom() == ks@.to_set(),
            ks@.no_duplicates(),
            i <= ks.len(),
            out@.no_duplicates(),
            forall|c: Coord| #[trigger]
                out@.contains(c) == (ks@.subrange(0, i as int).contains(c.key()) && popcount(
                    cell_map_contents(*g)[c.key()],
                ) % 2 == 1),
        decreases ks.len() - i,
    {
        let k = ks[i];
        let c = Coord::new(k.0, k.1);
        proof {
            assert(ks@.to_set().contains(k));
        }
        let m = match map_get(g, k) {
            Some(v) => v,
            None => 0,
        };
        let ghost before = out@;
        if crate::puzzle::mask_count(m) % 2 == 1 {
            proof {
                assert(!out@.contains(c)) by {
                    if out@.contains(c) {
                        let j = choose|j: int| 0 <= j < i && ks@.subrange(0, i as int)[j] == c.key();
                        assert(ks@[j] == ks@[i as int]);
                    }
                }
            }
            out.push(c);
        }
        proof {
            assert forall|c2: Coord| #[trigger]
                out@.contains(c2) == (ks@.subrange(0, i + 1).contains(c2.key()) && popcount(
                    cell_map_contents(*g)[c2.key()],
                ) % 2 == 1) by {
                let s0 = ks@.subrange(0, i as int);
                let s1 = ks@.subrange(0, i + 1);
                assert(s1 == s0.push(k));
                lemma_key_eq(c2, c);
                if s0.contains(c2.key()) {
                    let j = choose|j: int| 0 <= j < s0.len() && s0[j] == c2.key();
                    assert(s1[j] == c2.key());
                }
                if s1.contains(c2.key()) && c2 != c {
                    let j = choose|j: int| 0 <= j < s1.len() && s1[j] == c2.key();
                    assert(j < s0.len());
                    assert(s0[j] == c2.key());
                }
                if c2 == c {
                    assert(s1[i as int] == k);
                }
                assert(m == cell_map_contents(*g)[k]);
                if out@.len() > before.len() {
                    assert(out@ == before.push(c));
                    if out@.contains(c2) && !before.contains(c2) {
                        let j = choose|j: int| 0 <= j < out@.len() && out@[j] == c2;
                        assert(j == before.len());
                    }
                    if c2 == c {
                        assert(out@[before.len() as int] == c);
                    }
                    if before.contains(c2) {
                        let j = choose|j: int| 0 <= j < before.len() && before[j] == c2;
                        assert(out@[j] == c2);
                    }
                } else {
                    assert(out@ == before);
                }
            }
        }
        i = i + 1;
    }
    proof {
        assert(ks@.subrange(0, ks.len() as int) == ks@);
        assert forall|c: Coord| #[trigger] out@.contains(c) implies cell_map_contents(*g).contains_key(c.key()) by {
            assert(ks@.contains(c.key()));
            assert(ks@.to_set().contains(c.key()));
        }
        assert forall|c: Coord| cell_map_contents(*g).contains_key(c.key()) implies #[trigger] ks@.contains(c.key()) by {
            assert(ks@.to_set().contains(c.key()));
        }
    }
    out
}

/// Open directions are drawn edges.
pub open spec fn graph_within(board: &Board, g: Map<CellKey, u8>) -> bool {
    forall|c: Coord, d: Direction| c.inner() && #[trigger] open_at(g, c, d) ==> board.link(c, d)
}

/// A drawn edge's base cell is a board cell, within `MAX_RADIUS`.
pub(crate) proof fn lemma_drawn_inner(board: &Board, e: EdgePos)
    requires
        board.wf(),
        board.drawn(e),
    ensures
        e.coord.inner(),
        e.coord.norm() <= MAX_RADIUS,
{
    lemma_zero_iff_no_bits(0);
    assert(board@.contains_key(e.coord.key()));
    lemma_key_eq(e.coord, e.coord);
    lemma_norm_bounds(e.coord, MAX_RADIUS as int);
}

/// The board's own graph is symmetric, bounded, within the drawn edges, and
/// has consumed nothing.
pub(crate) proof fn lemma_graph_of_props(board: &Board, g: Map<CellKey, u8>)
    requires
        board.wf(),
        graph_of(board, g),
    ensures
        graph_sym(g),
        graph_bounded(g),
        graph_within(board, g),
        forall|e: EdgePos| #[trigger] board.drawn(e) ==> remaining(g, e),
{
    reveal(graph_sym);
    lemma_zero_iff_no_bits(0);
    assert forall|c: Coord, d: Direction| c.inner() implies #[trigger] open_at(g, c, d) == open_at(
        g,
        c.step(d),
        d.opposite(),
    ) by {
        let n = c.step(d);
        lemma_step_norm(c, d);
        lemma_canonical_edge_identity(c, d);
        if board.link(c, d) {
            lemma_drawn_inner(board, edge_at(c, d));
            lemma_near_inner(n);
        } else if n.inner() {
        } else {
            if g.contains_key(n.key()) {
                lemma_key_eq(n, n);
                lemma_near_inner(n);
            }
        }
    }
    assert forall|e: EdgePos| #[trigger] board.drawn(e) implies remaining(g, e) by {
        lemma_drawn_inner(board, e);
        lemma_canon_self(e);
    }
}

/// The two directions closed by crossing an edge are its two ends.
pub open spec fn closed_pair(
    g: Map<CellKey, u8>,
    g2: Map<CellKey, u8>,
    cur: Coord,
    d: Direction,
) -> bool {
    forall|c2: Coord, d2: Direction| #[trigger]
        open_at(g2, c2, d2) == (open_at(g, c2, d2) && !(c2 == cur && d2 == d) && !(c2 == cur.step(d) && d2
            == d.opposite()))
}

/// Closing both ends of an edge keeps the graph symmetric.
pub(crate) proof fn lemma_close_pair_sym(g: Map<CellKey, u8>, g2: Map<CellKey, u8>, cur: Coord, d: Direction)
    requires
        graph_sym(g),
        closed_pair(g, g2, cur, d),
        cur.inner(),
        cur.step(d).inner(),
    ensures
        graph_sym(g2),
{
    reveal(graph_sym);
    lemma_step_back(cur, d);
    assert forall|c: Coord, d2: Direction| c.inner() implies #[trigger] open_at(g2, c, d2) == open_at(
        g2,
        c.step(d2),
        d2.opposite(),
    ) by {
        assert(open_at(g, c, d2) == open_at(g, c.step(d2), d2.opposite()));
        lemma_step_norm(c, d2);
        if c.step(d2) == cur && d2.opposite() == d {
            lemma_step_back(c, d2);
        } else if c.step(d2) == cur.step(d) && d2.opposite() == d.opposite() {
            assert(d2 == d);
        }
    }
}

/// An edge is still open exactly when its direction is open at either end.
pub(crate) proof fn lemma_remaining_at(g: Map<CellKey, u8>, c: Coord, d: Direction)
    requires
        graph_sym(g),
        c.inner(),
        c.step(d).inner(),
    ensures
        remaining(g, edge_at(c, d)) == open_at(g, c, d),
        open_at(g, c.step(d), d.opposite()) == open_at(g, c, d),
        edge_at(c, d).coord == c || edge_at(c, d).coord == c.step(d),
{
    reveal(graph_sym);
    lemma_step_back(c, d);
    assert(open_at(g, c, d) == open_at(g, c.step(d), d.opposite()));
}

/// A nonzero six-bit mask has an open direction.
pub(crate) proof fn lemma_some_open(g: Map<CellKey, u8>, c: Coord)
    requires
        mask_of(g, c) != 0,
        mask_of(g, c) < 64,
    ensures
        exists|d: Direction| #[trigger] open_at(g, c, d),
{
    let m = mask_of(g, c);
    lemma_zero_iff_no_bits(m);
    lemma_high_bits_clear(m, 6, 6);
    lemma_high_bits_clear(m, 6, 7);
    let b = choose|b: u8| b < 8 && #[trigger] has_bit(m, b);
    assert(open_at(g, c, Direction::from_index(b as nat)));
}

} // verus!
