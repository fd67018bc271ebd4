//! Hierholzer's walk over the six-direction graph, and what it proves about
//! the drawn edges when it ends.
use vstd::prelude::*;

use crate::bits::{
    has_bit, lemma_count_bound, lemma_high_bits_clear, lemma_zero_iff_no_bits, popcount,
};
use crate::cells::{cell_map_contents, map_get, CellKey, CellMap};
use crate::geom::{
    edge_at, lemma_canon_self, lemma_canonical_edge_identity, lemma_edge_at_inverse, lemma_key_eq,
    lemma_norm_bounds, lemma_step_back, lemma_step_norm, Coord, Direction, EdgePos,
};
use crate::puzzle::{Board, MAX_RADIUS};
use crate::puzzle::graph::{
    close_dir, closed_pair, deg_sum, graph_bounded, graph_of, graph_sym, graph_within,
    lemma_close_pair_sym, lemma_drawn_inner, lemma_graph_of_props, lemma_near_inner,
    lemma_remaining_at, mask_of, near, open_at, remaining,
};

verus! {

/// The edges of the steps of a walk.
pub open spec fn step_edges(t: Seq<Coord>, ds: Seq<Direction>) -> Seq<EdgePos> {
    Seq::new(ds.len(), |i: int| edge_at(t[i], ds[i]))
}

/// Parity of the open directions at each cell: odd exactly at one of two cells
/// when they differ, nowhere when they coincide.
pub open spec fn parity_ok(g: Map<CellKey, u8>, a: Coord, b: Coord) -> bool {
    forall|c: Coord| c.inner() ==> (#[trigger] popcount(mask_of(g, c)) % 2 == 1) == ((c == a) != (c == b))
}

/// Consecutive cells of `t` are joined by the drawn edges in `ds`.
pub open spec fn is_walk(board: &Board, t: Seq<Coord>, ds: Seq<Direction>) -> bool {
    &&& t.len() == ds.len() + 1
    &&& forall|i: int| 0 <= i < ds.len() ==> #[trigger] t[i + 1] == t[i].step(ds[i])
    &&& forall|i: int| 0 <= i < ds.len() ==> board.link(t[i], #[trigger] ds[i])
}

/// The edges consumed so far are exactly those of the stack's walk, the output's
/// walk and, while the output is nonempty, the edge joining the two.
#[verifier::opaque]
pub open spec fn consumed_ok(
    board: &Board,
    g: Map<CellKey, u8>,
    we: Seq<EdgePos>,
    oe: Seq<EdgePos>,
    joined: bool,
    je: EdgePos,
) -> bool {
    &&& we.no_duplicates()
    &&& oe.no_duplicates()
    &&& forall|e: EdgePos| !(#[trigger] we.contains(e) && oe.contains(e))
    &&& joined ==> !we.contains(je) && !oe.contains(je)
    &&& forall|e: EdgePos|
        (#[trigger] board.drawn(e) && !remaining(g, e)) == (we.contains(e) || oe.contains(e) || (joined && e == je))
}

/// The state of the walk: `w` is the stack with the current cell on top, `out`
/// the finished cells; `w[j]` is where the output's last cell was left from.
#[verifier::opaque]
pub open spec fn walk_inv(
    board: &Board,
    g: Map<CellKey, u8>,
    ks: Seq<CellKey>,
    w: Seq<Coord>,
    wd: Seq<Direction>,
    out: Seq<Coord>,
    od: Seq<Direction>,
    j: int,
    jd: Direction,
    start: Coord,
    end: Coord,
) -> bool {
    &&& board.wf()
    &&& g.dom() == ks.to_set()
    &&& ks.no_duplicates()
    &&& graph_bounded(g)
    &&& graph_sym(g)
    &&& graph_within(board, g)
    &&& w.len() >= 1
    &&& forall|i: int| 0 <= i < w.len() ==> near(#[trigger] w[i])
    &&& is_walk(board, w, wd)
    &&& w[0] == start
    &&& out.len() == 0 ==> od.len() == 0
    &&& out.len() > 0 ==> is_walk(board, out, od)
    &&& out.len() > 0 ==> out[0] == end
    &&& forall|i: int| 0 <= i < out.len() ==> near(#[trigger] out[i]) && mask_of(g, out[i]) == 0
    &&& out.len() > 0 ==> 0 <= j < w.len() && w[j] == out.last().step(jd) && board.link(out.last(), jd)
    &&& consumed_ok(board, g, step_edges(w, wd), step_edges(out, od), out.len() > 0, edge_at(out.last(), jd))
    &&& parity_ok(
        g,
        w.last(),
        if out.len() > 0 {
            w[j]
        } else {
            end
        },
    )
}

/// The walk has ended: `out` crosses exactly the consumed edges, once each,
/// and every cell on it has no open direction left.
pub open spec fn walk_done(
    board: &Board,
    g: Map<CellKey, u8>,
    ks: Seq<CellKey>,
    out: Seq<Coord>,
    od: Seq<Direction>,
    start: Coord,
    end: Coord,
) -> bool {
    &&& g.dom() == ks.to_set()
    &&& graph_bounded(g)
    &&& graph_sym(g)
    &&& graph_within(board, g)
    &&& is_walk(board, out, od)
    &&& out.last() == start
    &&& out[0] == end
    &&& forall|i: int| 0 <= i < out.len() ==> near(#[trigger] out[i]) && mask_of(g, out[i]) == 0
    &&& step_edges(out, od).no_duplicates()
    &&& forall|e: EdgePos| (#[trigger] board.drawn(e) && !remaining(g, e)) == step_edges(out, od).contains(e)
}

/// The board's own graph, with only the start cell on the stack, meets the walk's invariant.
pub(crate) proof fn lemma_walk_start(board: &Board, g: Map<CellKey, u8>, ks: Seq<CellKey>, start: Coord, end: Coord)
    requires
        board.wf(),
        graph_of(board, g),
        g.dom() == ks.to_set(),
        ks.no_duplicates(),
        near(start),
        parity_ok(g, start, end),
    ensures
        walk_inv(board, g, ks, seq![start], Seq::empty(), Seq::empty(), Seq::empty(), 0, Direction::XY, start, end),
{
    reveal(consumed_ok);
    reveal(walk_inv);
    lemma_graph_of_props(board, g);
    let w = seq![start];
    assert(step_edges(w, Seq::empty()) =~= Seq::<EdgePos>::empty());
    assert(step_edges(Seq::empty(), Seq::empty()) =~= Seq::<EdgePos>::empty());
}

/// Crossing an open edge adds exactly that edge to the consumed ones, at the end of the stack's walk.
pub(crate) proof fn lemma_close_pair_consumed(
    board: &Board,
    g: Map<CellKey, u8>,
    g2: Map<CellKey, u8>,
    cur: Coord,
    d: Direction,
    we: Seq<EdgePos>,
    oe: Seq<EdgePos>,
    joined: bool,
    je: EdgePos,
)
    requires
        board.wf(),
        consumed_ok(board, g, we, oe, joined, je),
        closed_pair(g, g2, cur, d),
        open_at(g, cur, d),
        graph_within(board, g),
        graph_sym(g),
        cur.inner(),
        cur.step(d).inner(),
    ensures
        consumed_ok(board, g2, we.push(edge_at(cur, d)), oe, joined, je),
{
    reveal(consumed_ok);
    reveal(graph_sym);
    let e0 = edge_at(cur, d);
    let n = cur.step(d);
    let we2 = we.push(e0);
    lemma_canonical_edge_identity(cur, d);
    assert(board.link(cur, d));
    lemma_drawn_inner(board, e0);
    lemma_canon_self(e0);
    assert(open_at(g, n, d.opposite()));
    lemma_step_back(cur, d);
    assert(remaining(g, e0)) by {
        if e0.coord == cur {
            assert(e0.edge.dir() == d);
        } else {
            assert(e0.coord == n && e0.edge.dir() == d.opposite());
        }
    }
    assert(!we.contains(e0) && !oe.contains(e0) && !(joined && e0 == je));
    assert forall|e: EdgePos|
        (#[trigger] board.drawn(e) && !remaining(g2, e)) == (we2.contains(e) || oe.contains(e) || (joined && e
            == je)) by {
        if board.drawn(e) {
            lemma_drawn_inner(board, e);
            lemma_canon_self(e);
            if e.coord == cur && e.edge.dir() == d {
                assert(e == e0);
            }
            if e.coord == n && e.edge.dir() == d.opposite() {
                assert(e == edge_at(n, d.opposite()));
                assert(e == e0);
            }
        }
        if e == e0 {
            assert(we2[we.len() as int] == e0);
            if e0.coord != cur {
                lemma_edge_at_inverse(e0.coord, e0.edge.dir(), cur, d);
            }
        }
        if we2.contains(e) && !we.contains(e) {
            let i = choose|i: int| 0 <= i < we2.len() && we2[i] == e;
            assert(i == we.len());
        }
        if we.contains(e) {
            let i = choose|i: int| 0 <= i < we.len() && we[i] == e;
            assert(we2[i] == e);
        }
    }
    assert(we2.no_duplicates()) by {
        assert forall|a: int, b: int| 0 <= a < b < we2.len() implies we2[a] != we2[b] by {
            if b == we.len() {
                assert(we.contains(we[a]));
            }
        }
    }
    assert forall|e: EdgePos| !(#[trigger] we2.contains(e) && oe.contains(e)) by {
        if we2.contains(e) && !we.contains(e) {
            let i = choose|i: int| 0 <= i < we2.len() && we2[i] == e;
            assert(i == we.len());
        }
    }
    if joined {
        assert(!we2.contains(je)) by {
            if we2.contains(je) {
                let i = choose|i: int| 0 <= i < we2.len() && we2[i] == je;
                if i < we.len() {
                    assert(we.contains(je));
                }
            }
        }
    }
    assert(we2.no_duplicates());
    assert(oe.no_duplicates());
    assert(forall|e: EdgePos| !(#[trigger] we2.contains(e) && oe.contains(e)));
    assert(joined ==> !we2.contains(je) && !oe.contains(je));
    assert(forall|e: EdgePos| #[trigger] board.drawn(e) && !remaining(g2, e) ==> (we2.contains(e) || oe.contains(e) || (joined && e == je)));
    assert(forall|e: EdgePos| #[trigger] we2.contains(e) ==> board.drawn(e) && !remaining(g2, e));
    assert(forall|e: EdgePos| #[trigger] oe.contains(e) ==> board.drawn(e) && !remaining(g2, e));
    assert(joined ==> board.drawn(je) && !remaining(g2, je));
}

/// A walk extended by one drawn step is a walk.
pub(crate) proof fn lemma_walk_push(board: &Board, w: Seq<Coord>, wd: Seq<Direction>, d: Direction)
    requires
        is_walk(board, w, wd),
        board.link(w.last(), d),
    ensures
        is_walk(board, w.push(w.last().step(d)), wd.push(d)),
        step_edges(w.push(w.last().step(d)), wd.push(d)) == step_edges(w, wd).push(edge_at(w.last(), d)),
{
    let w2 = w.push(w.last().step(d));
    let wd2 = wd.push(d);
    assert forall|i: int| 0 <= i < wd2.len() implies #[trigger] w2[i + 1] == w2[i].step(wd2[i]) by {
        if i < wd.len() {
            assert(w2[i + 1] == w[i + 1]);
        }
    }
    assert forall|i: int| 0 <= i < wd2.len() implies board.link(w2[i], #[trigger] wd2[i]) by {
        if i < wd.len() {
            assert(board.link(w[i], wd[i]));
        }
    }
    assert(step_edges(w2, wd2) =~= step_edges(w, wd).push(edge_at(w.last(), d))) by {
        assert forall|i: int| 0 <= i < wd2.len() implies step_edges(w2, wd2)[i] == step_edges(w, wd).push(
            edge_at(w.last(), d),
        )[i] by {
            if i < wd.len() {
                assert(w2[i] == w[i]);
            }
        }
    }
}

/// Crossing the open edge from the current cell towards `d` keeps the walk's invariant.
#[verifier::spinoff_prover]
#[verifier::rlimit(100)]
pub(crate) proof fn lemma_walk_forward(
    board: &Board,
    g: Map<CellKey, u8>,
    g2: Map<CellKey, u8>,
    ks: Seq<CellKey>,
    w: Seq<Coord>,
    wd: Seq<Direction>,
    out: Seq<Coord>,
    od: Seq<Direction>,
    j: int,
    jd: Direction,
    start: Coord,
    end: Coord,
    d: Direction,
)
    requires
        walk_inv(board, g, ks, w, wd, out, od, j, jd, start, end),
        open_at(g, w.last(), d),
        g2.dom() == g.dom(),
        graph_bounded(g2),
        closed_pair(g, g2, w.last(), d),
        forall|c2: Coord|
            c2 != w.last() && c2 != w.last().step(d) ==> #[trigger] mask_of(g2, c2) == mask_of(g, c2),
        popcount(mask_of(g2, w.last())) + 1 == popcount(mask_of(g, w.last())),
        popcount(mask_of(g2, w.last().step(d))) + 1 == popcount(mask_of(g, w.last().step(d))),
    ensures
        walk_inv(board, g2, ks, w.push(w.last().step(d)), wd.push(d), out, od, j, jd, start, end),
{
    reveal(walk_inv);
    reveal(graph_sym);
    let cur = w.last();
    let n = cur.step(d);
    let anchor = if out.len() > 0 { w[j] } else { end };
    let w2 = w.push(n);
    lemma_zero_iff_no_bits(0);
    assert(near(w[w.len() - 1]));
    lemma_near_inner(cur);
    assert(open_at(g, n, d.opposite()));
    lemma_key_eq(n, n);
    assert(g.contains_key(n.key()));
    lemma_near_inner(n);
    lemma_step_back(cur, d);
    assert(board.link(cur, d));
    lemma_walk_push(board, w, wd, d);
    lemma_close_pair_sym(g, g2, cur, d);
    lemma_close_pair_consumed(
        board,
        g,
        g2,
        cur,
        d,
        step_edges(w, wd),
        step_edges(out, od),
        out.len() > 0,
        edge_at(out.last(), jd),
    );
    if out.len() > 0 {
        assert(w2[j] == w[j]);
    }
    assert forall|c: Coord| c.inner() implies (#[trigger] popcount(mask_of(g2, c)) % 2 == 1) == ((c == n) != (c
        == anchor)) by {
        assert((popcount(mask_of(g, c)) % 2 == 1) == ((c == cur) != (c == anchor)));
    }
    assert forall|i: int| 0 <= i < out.len() implies near(#[trigger] out[i]) && mask_of(g2, out[i]) == 0 by {
        assert(mask_of(g, out[i]) == 0);
        if out[i] == cur {
            assert(open_at(g, cur, d));
        } else if out[i] == n {
            assert(open_at(g, n, d.opposite()));
        }
    }
    assert forall|c: Coord, d2: Direction| c.inner() && #[trigger] open_at(g2, c, d2) implies board.link(c, d2) by {
        assert(open_at(g, c, d2));
    }
    assert forall|i: int| 0 <= i < w2.len() implies near(#[trigger] w2[i]) by {
        if i < w.len() {
            assert(w2[i] == w[i]);
        }
    }
    assert(w2[0] == start);
    assert(w2.last() == n);
}

/// Directions of the output after its last cell is joined to the next one.
pub open spec fn next_od(out: Seq<Coord>, od: Seq<Direction>, jd: Direction) -> Seq<Direction> {
    if out.len() > 0 {
        od.push(jd)
    } else {
        od
    }
}

/// Appending the cell that the joining edge leads to extends the output's walk.
pub(crate) proof fn lemma_out_push(board: &Board, out: Seq<Coord>, od: Seq<Direction>, jd: Direction, c: Coord)
    requires
        out.len() == 0 ==> od.len() == 0,
        out.len() > 0 ==> is_walk(board, out, od),
        out.len() > 0 ==> c == out.last().step(jd) && board.link(out.last(), jd),
    ensures
        is_walk(board, out.push(c), next_od(out, od, jd)),
        out.len() > 0 ==> step_edges(out.push(c), next_od(out, od, jd)) == step_edges(out, od).push(
            edge_at(out.last(), jd),
        ),
        out.len() == 0 ==> step_edges(out.push(c), next_od(out, od, jd)) == Seq::<EdgePos>::empty(),
{
    let o2 = out.push(c);
    let od2 = next_od(out, od, jd);
    if out.len() > 0 {
        assert forall|i: int| 0 <= i < od2.len() implies #[trigger] o2[i + 1] == o2[i].step(od2[i]) by {
            if i < od.len() {
                assert(o2[i + 1] == out[i + 1]);
            }
        }
        assert forall|i: int| 0 <= i < od2.len() implies board.link(o2[i], #[trigger] od2[i]) by {
            if i < od.len() {
                assert(board.link(out[i], od[i]));
            }
        }
        assert(step_edges(o2, od2) =~= step_edges(out, od).push(edge_at(out.last(), jd))) by {
            assert forall|i: int| 0 <= i < od2.len() implies step_edges(o2, od2)[i] == step_edges(out, od).push(
                edge_at(out.last(), jd),
            )[i] by {
                if i < od.len() {
                    assert(o2[i] == out[i]);
                }
            }
        }
    } else {
        assert(step_edges(o2, od2) =~= Seq::<EdgePos>::empty());
    }
}

/// Appending a new element keeps a sequence free of duplicates.
pub(crate) proof fn lemma_push_nodup(s: Seq<EdgePos>, e: EdgePos)
    requires
        s.no_duplicates(),
        !s.contains(e),
    ensures
        s.push(e).no_duplicates(),
        forall|x: EdgePos| #[trigger] s.push(e).contains(x) == (s.contains(x) || x == e),
{
    let s2 = s.push(e);
    assert forall|a: int, b: int| 0 <= a < b < s2.len() implies s2[a] != s2[b] by {
        if b == s.len() {
            assert(s.contains(s[a]));
        }
    }
    assert forall|x: EdgePos| #[trigger] s2.contains(x) == (s.contains(x) || x == e) by {
        if s2.contains(x) {
            let i = choose|i: int| 0 <= i < s2.len() && s2[i] == x;
            if i < s.len() {
                assert(s[i] == x);
            }
        }
        if s.contains(x) {
            let i = choose|i: int| 0 <= i < s.len() && s[i] == x;
            assert(s2[i] == x);
        }
        if x == e {
            assert(s2[s.len() as int] == e);
        }
    }
}

/// What finishing the current cell does to the output.
pub(crate) proof fn lemma_finish_out(
    board: &Board,
    g: Map<CellKey, u8>,
    ks: Seq<CellKey>,
    w: Seq<Coord>,
    wd: Seq<Direction>,
    out: Seq<Coord>,
    od: Seq<Direction>,
    j: int,
    jd: Direction,
    start: Coord,
    end: Coord,
)
    requires
        walk_inv(board, g, ks, w, wd, out, od, j, jd, start, end),
        mask_of(g, w.last()) == 0,
    ensures
        w.last() == (if out.len() > 0 { w[j] } else { end }),
        out.push(w.last())[0] == end,
        is_walk(board, out.push(w.last()), next_od(out, od, jd)),
        step_edges(out.push(w.last()), next_od(out, od, jd)).no_duplicates(),
        forall|e: EdgePos| #[trigger]
            step_edges(out.push(w.last()), next_od(out, od, jd)).contains(e) == (step_edges(out, od).contains(e) || (
            out.len() > 0 && e == edge_at(out.last(), jd))),
        forall|i: int|
            0 <= i < out.push(w.last()).len() ==> near(#[trigger] out.push(w.last())[i]) && mask_of(
                g,
                out.push(w.last())[i],
            ) == 0,
{
    reveal(consumed_ok);
    reveal(walk_inv);
    let cur = w.last();
    let anchor = if out.len() > 0 { w[j] } else { end };
    let oe = step_edges(out, od);
    let je = edge_at(out.last(), jd);
    let out2 = out.push(cur);
    let od2 = next_od(out, od, jd);
    assert(near(w[w.len() - 1]));
    lemma_near_inner(cur);
    lemma_count_bound(0, 8);
    assert(popcount(mask_of(g, cur)) == 0);
    assert(cur == anchor);
    lemma_out_push(board, out, od, jd, cur);
    let oe2 = step_edges(out2, od2);
    if out.len() > 0 {
        lemma_push_nodup(oe, je);
        assert(oe2 == oe.push(je));
    } else {
        assert(oe2 =~= Seq::<EdgePos>::empty());
    }
    assert forall|i: int| 0 <= i < out2.len() implies near(#[trigger] out2[i]) && mask_of(g, out2[i]) == 0 by {
        if i < out.len() {
            assert(out2[i] == out[i]);
        }
    }
}

/// Finishing the last cell on the stack ends the walk.
#[verifier::spinoff_prover]
#[verifier::rlimit(100)]
pub(crate) proof fn lemma_walk_end(
    board: &Board,
    g: Map<CellKey, u8>,
    ks: Seq<CellKey>,
    w: Seq<Coord>,
    wd: Seq<Direction>,
    out: Seq<Coord>,
    od: Seq<Direction>,
    j: int,
    jd: Direction,
    start: Coord,
    end: Coord,
)
    requires
        walk_inv(board, g, ks, w, wd, out, od, j, jd, start, end),
        mask_of(g, w.last()) == 0,
        w.len() == 1,
    ensures
        walk_done(board, g, ks, out.push(w.last()), next_od(out, od, jd), start, end),
{
    reveal(consumed_ok);
    reveal(walk_inv);
    lemma_finish_out(board, g, ks, w, wd, out, od, j, jd, start, end);
    assert(step_edges(w, wd) =~= Seq::<EdgePos>::empty());
    let oe2 = step_edges(out.push(w.last()), next_od(out, od, jd));
    assert forall|e: EdgePos| (#[trigger] board.drawn(e) && !remaining(g, e)) == oe2.contains(e) by {
        assert(oe2.contains(e) == (step_edges(out, od).contains(e) || (out.len() > 0 && e == edge_at(out.last(), jd))));
    }
}

/// Finishing a cell with more below it on the stack backs the walk up one cell.
#[verifier::spinoff_prover]
#[verifier::rlimit(100)]
pub(crate) proof fn lemma_walk_back(
    board: &Board,
    g: Map<CellKey, u8>,
    ks: Seq<CellKey>,
    w: Seq<Coord>,
    wd: Seq<Direction>,
    out: Seq<Coord>,
    od: Seq<Direction>,
    j: int,
    jd: Direction,
    start: Coord,
    end: Coord,
)
    requires
        walk_inv(board, g, ks, w, wd, out, od, j, jd, start, end),
        mask_of(g, w.last()) == 0,
        w.len() > 1,
    ensures
        walk_inv(
            board,
            g,
            ks,
            w.drop_last(),
            wd.drop_last(),
            out.push(w.last()),
            next_od(out, od, jd),
            w.len() - 2,
            wd.last().opposite(),
            start,
            end,
        ),
{
    reveal(consumed_ok);
    reveal(walk_inv);
    lemma_finish_out(board, g, ks, w, wd, out, od, j, jd, start, end);
    let cur = w.last();
    let anchor = if out.len() > 0 { w[j] } else { end };
    let we = step_edges(w, wd);
    let oe = step_edges(out, od);
    let je = edge_at(out.last(), jd);
    let out2 = out.push(cur);
    let od2 = next_od(out, od, jd);
    let oe2 = step_edges(out2, od2);
    let w2 = w.drop_last();
    let wd2 = wd.drop_last();
    let cur2 = w2.last();
    let d = wd.last();
    let jd2 = d.opposite();
    assert(w[w.len() - 2] == cur2);
    let li = w.len() - 2;
    assert(w[li + 1] == w[li].step(wd[li]));
    assert(cur == cur2.step(d));
    assert(near(w[w.len() - 2]));
    assert(near(w[w.len() - 1]));
    lemma_near_inner(cur2);
    lemma_near_inner(cur);
    lemma_step_back(cur2, d);
    lemma_canonical_edge_identity(cur2, d);
    assert(board.link(cur2, d));
    let je2 = edge_at(cur, jd2);
    assert(je2 == we.last());
    assert(is_walk(board, w2, wd2)) by {
        assert forall|i: int| 0 <= i < wd2.len() implies #[trigger] w2[i + 1] == w2[i].step(wd2[i]) by {
            assert(w2[i + 1] == w[i + 1]);
        }
        assert forall|i: int| 0 <= i < wd2.len() implies board.link(w2[i], #[trigger] wd2[i]) by {
            assert(board.link(w[i], wd[i]));
        }
    }
    let we2 = step_edges(w2, wd2);
    assert(we2 =~= we.drop_last());
    assert(we =~= we2.push(je2));
    assert(!we2.contains(je2)) by {
        if we2.contains(je2) {
            let i = choose|i: int| 0 <= i < we2.len() && we2[i] == je2;
            assert(we[i] == we[we.len() - 1]);
        }
    }
    lemma_push_nodup(we2, je2);
    assert(we2.no_duplicates()) by {
        assert forall|a: int, b: int| 0 <= a < b < we2.len() implies we2[a] != we2[b] by {
            assert(we[a] != we[b]);
        }
    }
    assert forall|e: EdgePos| !(#[trigger] we2.contains(e) && oe2.contains(e)) by {
        assert(oe2.contains(e) == (oe.contains(e) || (out.len() > 0 && e == je)));
        assert(we.contains(e) == (we2.contains(e) || e == je2));
    }
    assert(!oe2.contains(je2)) by {
        assert(oe2.contains(je2) == (oe.contains(je2) || (out.len() > 0 && je2 == je)));
        assert(we.contains(je2));
    }
    assert forall|e: EdgePos|
        (#[trigger] board.drawn(e) && !remaining(g, e)) == (we2.contains(e) || oe2.contains(e) || (true && e == je2)) by {
        assert(oe2.contains(e) == (oe.contains(e) || (out.len() > 0 && e == je)));
        assert(we.contains(e) == (we2.contains(e) || e == je2));
    }
    assert forall|c: Coord| c.inner() implies (#[trigger] popcount(mask_of(g, c)) % 2 == 1) == ((c == cur2) != (c
        == cur2)) by {
        assert((popcount(mask_of(g, c)) % 2 == 1) == ((c == cur) != (c == anchor)));
    }
    assert forall|i: int| 0 <= i < w2.len() implies near(#[trigger] w2[i]) by {
        assert(w2[i] == w[i]);
    }
    assert(w2[w.len() - 2] == cur2);
    assert(out2.last() == cur);
}

/// The parts of the walk's invariant that the loop body itself needs.
pub(crate) proof fn lemma_walk_inv_facts(
    board: &Board,
    g: Map<CellKey, u8>,
    ks: Seq<CellKey>,
    w: Seq<Coord>,
    wd: Seq<Direction>,
    out: Seq<Coord>,
    od: Seq<Direction>,
    j: int,
    jd: Direction,
    start: Coord,
    end: Coord,
)
    requires
        walk_inv(board, g, ks, w, wd, out, od, j, jd, start, end),
    ensures
        board.wf(),
        g.dom() == ks.to_set(),
        ks.no_duplicates(),
        graph_bounded(g),
        graph_sym(g),
        w.len() >= 1,
        near(w.last()),
{
    reveal(walk_inv);
    assert(near(w[w.len() - 1]));
}

/// Walks the graph from `start`, consuming each edge it crosses and backing up
/// when stuck (Hierholzer's method); returns the cells in the order they were
/// finished, with the directions between consecutive ones.
#[verifier::spinoff_prover]
#[verifier::rlimit(100)]
pub(crate) fn walk(board: &Board, graph: &mut CellMap, ks: &Vec<CellKey>, start: Coord, Ghost(end): Ghost<Coord>) -> (r: (
    Vec<Coord>,
    Ghost<Seq<Direction>>,
))
    requires
        board.wf(),
        graph_of(board, cell_map_contents(*old(graph))),
        cell_map_contents(*old(graph)).dom() == ks@.to_set(),
        ks@.no_duplicates(),
        near(start),
        parity_ok(cell_map_contents(*old(graph)), start, end),
    ensures
        walk_done(board, cell_map_contents(*final(graph)), ks@, r.0@, r.1@, start, end),
{
    let mut current = start;
    let mut stack: Vec<Coord> = Vec::new();
    let mut out: Vec<Coord> = Vec::new();
    let ghost mut wd: Seq<Direction> = Seq::empty();
    let ghost mut od: Seq<Direction> = Seq::empty();
    let ghost mut j: int = 0;
    let ghost mut jd: Direction = Direction::XY;
    proof {
        lemma_walk_start(board, cell_map_contents(*graph), ks@, start, end);
        assert(stack@.push(current) =~= seq![start]);
        assert(out@ =~= Seq::<Coord>::empty());
    }
    loop
        invariant_except_break
            walk_inv(board, cell_map_contents(*graph), ks@, stack@.push(current), wd, out@, od, j, jd, start, end),
        ensures
            walk_done(board, cell_map_contents(*graph), ks@, out@, od, start, end),
        decreases deg_sum(cell_map_contents(*graph), ks@) + stack.len(),
    {
        let ghost g = cell_map_contents(*graph);
        let ghost w = stack@.push(current);
        proof {
            lemma_walk_inv_facts(board, g, ks@, w, wd, out@, od, j, jd, start, end);
            lemma_near_inner(current);
            lemma_key_eq(current, current);
        }
        let m = match map_get(graph, (current.x, current.y)) {
            Some(v) => v,
            None => 0,
        };
        assert(m == mask_of(g, current));
        if m == 0 {
            proof {
                if stack.len() == 0 {
                    lemma_walk_end(board, g, ks@, w, wd, out@, od, j, jd, start, end);
                } else {
                    lemma_walk_back(board, g, ks@, w, wd, out@, od, j, jd, start, end);
                }
            }
            let ghost out0 = out@;
            out.push(current);
            proof {
                od = next_od(out0, od, jd);
            }
            if stack.len() == 0 {
                break;
            }
            let prev = match stack.pop() {
                Some(c) => c,
                None => current,
            };
            proof {
                assert(stack@.push(prev) == w.drop_last());
                jd = wd.last().opposite();
                wd = wd.drop_last();
                j = w.len() - 2;
            }
            current = prev;
        } else {
            proof {
                assert(g.contains_key(current.key()));
                lemma_zero_iff_no_bits(m);
                lemma_high_bits_clear(m, 6, 6);
                lemma_high_bits_clear(m, 6, 7);
            }
            let mut k: u8 = 0;
            while k < 6 && m & (1u8 << k) == 0
                invariant
                    k <= 6,
                    m != 0,
                    forall|b: u8| b < 8 && #[trigger] has_bit(m, b) ==> k <= b,
                    exists|b: u8| b < 6 && #[trigger] has_bit(m, b),
                decreases 6 - k,
            {
                k = k + 1;
            }
            let d = Direction::from_u8(k);
            assert(open_at(g, current, d));
            let n = current.neighbor(d);
            proof {
                reveal(graph_sym);
                assert(open_at(g, n, d.opposite()));
                lemma_zero_iff_no_bits(0);
                assert(g.contains_key(n.key()));
                lemma_key_eq(n, n);
                lemma_near_inner(n);
                lemma_step_back(current, d);
            }
            let back = d.rotate(crate::geom::Angle::Back);
            close_dir(graph, current, d, Ghost(ks@));
            let ghost g1 = cell_map_contents(*graph);
            close_dir(graph, n, back, Ghost(ks@));
            proof {
                let g2 = cell_map_contents(*graph);
                assert(closed_pair(g, g2, current, d));
                lemma_walk_forward(board, g, g2, ks@, w, wd, out@, od, j, jd, start, end, d);
                wd = wd.push(d);
            }
            stack.push(current);
            proof {
                assert(stack@.push(n) == w.push(n));
            }
            current = n;
        }
    }
    (out, Ghost(od))
}

/// A set closed under drawn edges that holds one cell of a walk holds all of them.
pub(crate) proof fn lemma_walk_all_in(board: &Board, v: Set<Coord>, t: Seq<Coord>, ds: Seq<Direction>, i0: int)
    requires
        board.closed_under_links(v),
        is_walk(board, t, ds),
        forall|i: int| 0 <= i < t.len() ==> near(#[trigger] t[i]),
        0 <= i0 < t.len(),
        v.contains(t[i0]),
    ensures
        forall|i: int| 0 <= i < t.len() ==> v.contains(#[trigger] t[i]),
{
    assert forall|i: int| 0 <= i < t.len() implies v.contains(#[trigger] t[i]) by {
        if i >= i0 {
            lemma_walk_in_fwd(board, v, t, ds, i0, i);
        } else {
            lemma_walk_in_back(board, v, t, ds, i0, i);
        }
    }
}

/// Closure carries membership forward along a walk.
pub(crate) proof fn lemma_walk_in_fwd(board: &Board, v: Set<Coord>, t: Seq<Coord>, ds: Seq<Direction>, i0: int, i: int)
    requires
        board.closed_under_links(v),
        is_walk(board, t, ds),
        forall|k: int| 0 <= k < t.len() ==> near(#[trigger] t[k]),
        0 <= i0 <= i < t.len(),
        v.contains(t[i0]),
    ensures
        v.contains(t[i]),
    decreases i - i0,
{
    if i > i0 {
        lemma_walk_in_fwd(board, v, t, ds, i0, i - 1);
        let k = i - 1;
        assert(t[k + 1] == t[k].step(ds[k]));
        assert(board.link(t[k], ds[k]));
        assert(near(t[k]));
        lemma_near_inner(t[k]);
    }
}

/// Closure carries membership backward along a walk.
pub(crate) proof fn lemma_walk_in_back(board: &Board, v: Set<Coord>, t: Seq<Coord>, ds: Seq<Direction>, i0: int, i: int)
    requires
        board.closed_under_links(v),
        is_walk(board, t, ds),
        forall|k: int| 0 <= k < t.len() ==> near(#[trigger] t[k]),
        0 <= i <= i0 < t.len(),
        v.contains(t[i0]),
    ensures
        v.contains(t[i]),
    decreases i0 - i,
{
    if i < i0 {
        lemma_walk_in_back(board, v, t, ds, i0, i + 1);
        assert(t[i + 1] == t[i].step(ds[i]));
        assert(board.link(t[i], ds[i]));
        assert(near(t[i]));
        assert(near(t[i + 1]));
        lemma_near_inner(t[i]);
        lemma_near_inner(t[i + 1]);
        lemma_step_back(t[i], ds[i]);
        lemma_canonical_edge_identity(t[i], ds[i]);
        assert(board.link(t[i + 1], ds[i].opposite()));
    }
}

/// The ends of a walk's step edge are cells of the walk.
pub(crate) proof fn lemma_step_edge_ends(board: &Board, t: Seq<Coord>, ds: Seq<Direction>, i: int)
    requires
        is_walk(board, t, ds),
        forall|k: int| 0 <= k < t.len() ==> near(#[trigger] t[k]),
        0 <= i < ds.len(),
    ensures
        edge_at(t[i], ds[i]).coord == t[i] || edge_at(t[i], ds[i]).coord == t[i + 1],
{
    assert(near(t[i]));
    lemma_near_inner(t[i]);
    assert(t[i + 1] == t[i].step(ds[i]));
}

/// With nothing left open, the finished walk is an Euler trail and the drawn
/// edges hang together.
pub(crate) proof fn lemma_done_complete(
    board: &Board,
    g: Map<CellKey, u8>,
    ks: Seq<CellKey>,
    out: Seq<Coord>,
    od: Seq<Direction>,
    start: Coord,
    end: Coord,
)
    requires
        board.wf(),
        walk_done(board, g, ks, out, od, start, end),
        forall|c: Coord, d: Direction| c.inner() ==> !#[trigger] open_at(g, c, d),
    ensures
        board.is_trail(out, od),
        !board.disconnected(),
{
    let se = step_edges(out, od);
    assert forall|e: EdgePos| #[trigger] board.drawn(e) implies exists|i: int|
        0 <= i < od.len() && edge_at(out[i], od[i]) == e by {
        lemma_drawn_inner(board, e);
        assert(!remaining(g, e));
        assert(se.contains(e));
        let i = choose|i: int| 0 <= i < se.len() && se[i] == e;
        assert(edge_at(out[i], od[i]) == e);
    }
    assert forall|i: int, j: int| 0 <= i < j < od.len() implies #[trigger] edge_at(out[i], od[i]) != #[trigger] edge_at(
        out[j],
        od[j],
    ) by {
        assert(se[i] != se[j]);
    }
    if board.disconnected() {
        let v = choose|v: Set<Coord>|
            #![trigger board.closed_under_links(v)]
            board.closed_under_links(v) && (exists|e: EdgePos| #[trigger] board.drawn(e) && v.contains(e.coord))
                && (exists|e: EdgePos| #[trigger] board.drawn(e) && !v.contains(e.coord));
        let e1 = choose|e: EdgePos| #[trigger] board.drawn(e) && v.contains(e.coord);
        let e2 = choose|e: EdgePos| #[trigger] board.drawn(e) && !v.contains(e.coord);
        let a = choose|i: int| 0 <= i < od.len() && edge_at(out[i], od[i]) == e1;
        let b = choose|i: int| 0 <= i < od.len() && edge_at(out[i], od[i]) == e2;
        lemma_step_edge_ends(board, out, od, a);
        lemma_step_edge_ends(board, out, od, b);
        if e1.coord == out[a] {
            lemma_walk_all_in(board, v, out, od, a);
        } else {
            lemma_walk_all_in(board, v, out, od, a + 1);
        }
        assert(v.contains(out[b]));
        assert(v.contains(out[b + 1]));
    }
}

/// The cells of a finished walk are closed under drawn edges: each has
/// nothing left open, so its edges were all crossed by the walk.
#[verifier::spinoff_prover]
pub(crate) proof fn lemma_out_closed(
    board: &Board,
    g: Map<CellKey, u8>,
    ks: Seq<CellKey>,
    out: Seq<Coord>,
    od: Seq<Direction>,
    start: Coord,
    end: Coord,
)
    requires
        board.wf(),
        walk_done(board, g, ks, out, od, start, end),
    ensures
        board.closed_under_links(out.to_set()),
{
    lemma_zero_iff_no_bits(0);
    let v = out.to_set();
    let se = step_edges(out, od);
    assert forall|c: Coord, d: Direction|
        #![trigger v.contains(c), board.link(c, d)]
        c.inner() && v.contains(c) && board.link(c, d) implies v.contains(c.step(d)) by {
        let i = choose|i: int| 0 <= i < out.len() && out[i] == c;
        assert(near(out[i]) && mask_of(g, out[i]) == 0);
        let e = edge_at(c, d);
        lemma_drawn_inner(board, e);
        lemma_step_norm(c, d);
        lemma_canonical_edge_identity(c, d);
        assert(c.step(d).inner()) by {
            lemma_near_inner(c);
            lemma_norm_bounds(c, MAX_RADIUS + 1);
        }
        lemma_remaining_at(g, c, d);
        assert(se.contains(e));
        let m = choose|m: int| 0 <= m < se.len() && se[m] == e;
        assert(near(out[m]));
        lemma_near_inner(out[m]);
        lemma_edge_at_inverse(c, d, out[m], od[m]);
        assert(out[m + 1] == out[m].step(od[m]));
        assert(near(out[m + 1]));
        lemma_near_inner(out[m + 1]);
        if c == out[m] && d == od[m] {
            assert(v.contains(out[m + 1]));
        } else {
            lemma_step_back(out[m], od[m]);
            assert(v.contains(out[m]));
        }
    }
}

/// With something still open, the cells of the finished walk are closed under
/// drawn edges and hold an end of a drawn edge, while the open edge lies outside.
#[verifier::spinoff_prover]
pub(crate) proof fn lemma_done_split(
    board: &Board,
    g: Map<CellKey, u8>,
    ks: Seq<CellKey>,
    out: Seq<Coord>,
    od: Seq<Direction>,
    start: Coord,
    end: Coord,
    c0: Coord,
    d0: Direction,
    d1: Direction,
)
    requires
        board.wf(),
        walk_done(board, g, ks, out, od, start, end),
        c0.inner(),
        open_at(g, c0, d0),
        board.link(start, d1),
    ensures
        board.disconnected(),
{
    lemma_zero_iff_no_bits(0);
    let v = out.to_set();
    let se = step_edges(out, od);
    lemma_out_closed(board, g, ks, out, od, start, end);
    // an end of a consumed edge lies in the walk
    assert(out.last() == start);
    assert(out[out.len() - 1] == start);
    assert(near(start));
    lemma_near_inner(start);
    let e1 = edge_at(start, d1);
    lemma_drawn_inner(board, e1);
    lemma_step_norm(start, d1);
    assert(start.step(d1).inner()) by {
        lemma_norm_bounds(start, MAX_RADIUS + 1);
    }
    lemma_remaining_at(g, start, d1);
    assert(mask_of(g, out[out.len() - 1]) == 0);
    assert(!open_at(g, start, d1));
    assert(se.contains(e1));
    let a = choose|m: int| 0 <= m < se.len() && se[m] == e1;
    lemma_step_edge_ends(board, out, od, a);
    assert(v.contains(out[a]));
    assert(v.contains(out[a + 1]));
    assert(board.drawn(e1) && v.contains(e1.coord));
    // the open edge lies outside
    let e2 = edge_at(c0, d0);
    assert(board.link(c0, d0));
    lemma_drawn_inner(board, e2);
    assert(g.contains_key(c0.key()));
    lemma_key_eq(c0, c0);
    lemma_step_norm(c0, d0);
    assert(c0.step(d0).inner()) by {
        lemma_norm_bounds(c0, MAX_RADIUS + 1);
    }
    lemma_remaining_at(g, c0, d0);
    assert(open_at(g, c0.step(d0), d0.opposite()));
    assert(!v.contains(e2.coord)) by {
        if v.contains(e2.coord) {
            let i = choose|i: int| 0 <= i < out.len() && out[i] == e2.coord;
            assert(mask_of(g, out[i]) == 0);
        }
    }
    assert(board.closed_under_links(v));
}

} // verus!
