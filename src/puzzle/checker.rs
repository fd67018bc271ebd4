//! Checking a board against its puzzle: one continuous pass over every drawn
//! edge, then the junction patterns along the three flanks.
use vstd::prelude::*;

use crate::bits::{lemma_count_bound, lemma_zero_iff_no_bits, popcount};
use crate::cells::{cell_map_contents, map_get, map_keys, CellKey};
use crate::geom::{abs, edge_at, lemma_key_eq, Angle, Coord, Direction, EdgePos};
use crate::puzzle::{Board, MAX_RADIUS, Puzzle};
use crate::puzzle::graph::{
    collect_odd, graph_bounded, graph_of, lemma_drawn_inner, lemma_graph_of_props, lemma_near_inner,
    lemma_popcount_degree, lemma_some_open, make_graph, mask_of, near, open_at, remaining,
};
use crate::puzzle::walk::{lemma_done_complete, lemma_done_split, parity_ok, walk, walk_done};

verus! {

/// Why a board does not solve its puzzle.
#[derive(Debug, Clone, Copy, PartialEq, Eq, Hash, Structural)]
pub enum FailureReason {
    NotSinglePass,
    CountFailed,
}

impl Board {
    /// The drawn edge leaving `c` towards `d` exists.
    pub open spec fn link(&self, c: Coord, d: Direction) -> bool {
        self.drawn(edge_at(c, d))
    }

    /// Number of drawn edges that meet at `c`, from either side.
    pub open spec fn degree(&self, c: Coord) -> nat {
        self.degree_upto(c, 6)
    }

    pub open spec fn degree_upto(&self, c: Coord, n: nat) -> nat
        decreases n,
    {
        if n == 0 {
            0
        } else {
            self.degree_upto(c, (n - 1) as nat) + if self.link(c, Direction::from_index((n - 1) as nat)) {
                1nat
            } else {
                0nat
            }
        }
    }

    /// Some edge is drawn.
    pub open spec fn has_edges(&self) -> bool {
        exists|e: EdgePos| #[trigger] self.drawn(e)
    }

    /// The cells where an odd number of drawn edges meet.
    pub open spec fn odd_cells(&self) -> Set<Coord> {
        Set::new(|c: Coord| c.inner() && self.degree(c) % 2 == 1)
    }

    /// `v` is closed under drawn edges: a drawn edge never leaves it.
    pub open spec fn closed_under_links(&self, v: Set<Coord>) -> bool {
        forall|c: Coord, d: Direction|
            #![trigger v.contains(c), self.link(c, d)]
            c.inner() && v.contains(c) && self.link(c, d) ==> v.contains(c.step(d))
    }

    /// The drawn edges fall apart: a set of cells closed under drawn edges holds
    /// an end of one drawn edge and no end of another.
    pub open spec fn disconnected(&self) -> bool {
        exists|v: Set<Coord>|
            #![trigger self.closed_under_links(v)]
            self.closed_under_links(v) && (exists|e: EdgePos| #[trigger]
                self.drawn(e) && v.contains(e.coord)) && (exists|e: EdgePos| #[trigger]
                self.drawn(e) && !v.contains(e.coord))
    }

    /// `t` passes over every drawn edge exactly once, from cell to neighbouring cell.
    pub open spec fn is_trail(&self, t: Seq<Coord>, dirs: Seq<Direction>) -> bool {
        &&& t.len() == dirs.len() + 1
        &&& forall|i: int| 0 <= i < dirs.len() ==> #[trigger] t[i + 1] == t[i].step(dirs[i])
        &&& forall|i: int| 0 <= i < dirs.len() ==> self.link(t[i], #[trigger] dirs[i])
        &&& forall|i: int, j: int|
            0 <= i < j < dirs.len() ==> #[trigger] edge_at(t[i], dirs[i]) != #[trigger] edge_at(t[j], dirs[j])
        &&& forall|e: EdgePos|
            #[trigger] self.drawn(e) ==> exists|i: int| 0 <= i < dirs.len() && edge_at(t[i], dirs[i]) == e
    }

    /// `t` is an Euler trail of the drawn edges.
    pub open spec fn euler_trail(&self, t: Seq<Coord>) -> bool {
        exists|dirs: Seq<Direction>| self.is_trail(t, dirs)
    }
}

impl Board {
    /// Zero or two cells where an odd number of drawn edges meet.
    pub open spec fn odd_count_ok(&self) -> bool {
        self.odd_cells().finite() && (self.odd_cells().len() == 0 || self.odd_cells().len() == 2)
    }

    /// The drawn edges can be traced in one continuous pass: there is at least
    /// one, they hang together, and zero or two cells have odd degree.
    pub open spec fn single_pass(&self) -> bool {
        self.has_edges() && self.odd_count_ok() && !self.disconnected()
    }
}

/// What checking `board` against `puzzle` returns.
pub open spec fn verdict(board: &Board, puzzle: &Puzzle) -> Result<(), FailureReason> {
    if !board.single_pass() {
        Err(FailureReason::NotSinglePass)
    } else if !flanks_ok(board, puzzle) {
        Err(FailureReason::CountFailed)
    } else {
        Ok(())
    }
}

/// A board with no drawn edge is never solved: it fails as not one pass.
pub proof fn lemma_empty_board_fails(board: &Board, puzzle: &Puzzle)
    requires
        !board.has_edges(),
    ensures
        verdict(board, puzzle) == Err::<(), FailureReason>(FailureReason::NotSinglePass),
{
}

/// A board whose drawn edges fall apart fails as not one pass, whatever the flanks say.
pub proof fn lemma_disconnected_fails(board: &Board, puzzle: &Puzzle)
    requires
        board.disconnected(),
    ensures
        verdict(board, puzzle) == Err::<(), FailureReason>(FailureReason::NotSinglePass),
{
}

/// A board with exactly three cells of odd degree fails as not one pass.
pub proof fn lemma_three_odd_cells_fail(board: &Board, puzzle: &Puzzle)
    requires
        board.odd_cells().finite(),
        board.odd_cells().len() == 3,
    ensures
        verdict(board, puzzle) == Err::<(), FailureReason>(FailureReason::NotSinglePass),
{
}

/// An unconstrained slot is satisfied by any board.
pub proof fn lemma_empty_slot_ok(board: &Board, r: int, d: Direction, i: int)
    ensures
        slot_ok(board, r, d, i, Seq::<u8>::empty()),
{
}

/// Cells with no junction are skipped: putting zeros anywhere in a scan does
/// not change what it is matched against.
pub proof fn lemma_nonzero_skips_zero(s: Seq<nat>, t: Seq<nat>)
    ensures
        nonzero(s.push(0nat) + t) == nonzero(s + t),
    decreases t.len(),
{
    if t.len() == 0 {
        assert(s.push(0nat) + t == s.push(0nat));
        assert(s + t == s);
        assert(s.push(0nat).drop_last() == s);
    } else {
        lemma_nonzero_skips_zero(s, t.drop_last());
        assert((s.push(0nat) + t).drop_last() == s.push(0nat) + t.drop_last());
        assert((s + t).drop_last() == s + t.drop_last());
        assert((s.push(0nat) + t).last() == t.last());
        assert((s + t).last() == t.last());
    }
}

/// The cells collected as odd are exactly the board's odd cells.
proof fn lemma_odd_cells(board: &Board, g: Map<CellKey, u8>, odd: Seq<Coord>)
    requires
        board.wf(),
        graph_of(board, g),
        odd.no_duplicates(),
        forall|c: Coord| #[trigger] odd.contains(c) == (g.contains_key(c.key()) && popcount(g[c.key()]) % 2 == 1),
    ensures
        odd.to_set() == board.odd_cells(),
        board.odd_cells().finite(),
        board.odd_cells().len() == odd.len(),
        forall|c: Coord| c.inner() ==> (#[trigger] popcount(mask_of(g, c)) % 2 == 1) == odd.contains(c),
{
    lemma_count_bound(0, 8);
    assert forall|c: Coord| c.inner() implies (#[trigger] popcount(mask_of(g, c)) % 2 == 1) == odd.contains(c) by {}
    assert forall|c: Coord| #[trigger] odd.to_set().contains(c) == board.odd_cells().contains(c) by {
        if odd.contains(c) {
            lemma_key_eq(c, c);
            assert(near(Coord::from_key(c.key())));
            lemma_near_inner(c);
            lemma_popcount_degree(board, g, c);
        }
        if c.inner() {
            lemma_popcount_degree(board, g, c);
        }
    }
    assert(odd.to_set() =~= board.odd_cells());
    odd.unique_seq_to_set();
}

impl Board {
    /// A trail over every drawn edge exactly once, found by Hierholzer's method
    /// from an odd cell (or any cell when none is odd); `None` when the drawn
    /// edges cannot be traced in one pass.
    pub fn find_euler_path(&self) -> (r: Option<Vec<Coord>>)
        requires
            self.wf(),
        ensures
            r.is_none() == !self.single_pass(),
            r.is_some() ==> self.euler_trail(r.unwrap()@),
            r.is_some() && self.odd_cells().len() == 0 ==> r.unwrap()@[0] == r.unwrap()@.last(),
            r.is_some() && self.odd_cells().len() == 2 ==> self.odd_cells() == set![
                r.unwrap()@[0],
                r.unwrap()@.last(),
            ],
    {
        let mut graph = make_graph(self);
        let ghost g0 = cell_map_contents(graph);
        let ks = map_keys(&graph);
        proof {
            lemma_graph_of_props(self, g0);
            lemma_zero_iff_no_bits(0);
            assert(self.has_edges() ==> ks.len() > 0) by {
                if self.has_edges() {
                    let e = choose|e: EdgePos| #[trigger] self.drawn(e);
                    lemma_drawn_inner(self, e);
                    assert(remaining(g0, e));
                    assert(g0.contains_key(e.coord.key()));
                    assert(ks@.to_set().contains(e.coord.key()));
                }
            }
        }
        if ks.len() == 0 {
            return None;
        }
        let odd = collect_odd(&graph, &ks);
        proof {
            lemma_odd_cells(self, g0, odd@);
        }
        let first = Coord::new(ks[0].0, ks[0].1);
        let ghost end: Coord;
        let start = if odd.len() == 0 {
            proof {
                end = first;
            }
            first
        } else if odd.len() == 2 {
            proof {
                end = odd@[1];
            }
            odd[0]
        } else {
            return None;
        };
        proof {
            assert(ks@.to_set().contains(ks@[0]));
            lemma_key_eq(first, first);
            if odd.len() == 2 {
                assert(odd@.contains(odd@[0]));
                assert(odd@.contains(odd@[1]));
                assert(odd@[0] != odd@[1]);
                assert forall|c: Coord| odd@.contains(c) implies c == odd@[0] || c == odd@[1] by {
                    let i = choose|i: int| 0 <= i < odd@.len() && odd@[i] == c;
                }
                lemma_key_eq(start, start);
            }
            assert(g0.contains_key(start.key()));
            assert(near(start));
            lemma_near_inner(start);
            if odd.len() == 2 {
                assert(odd@.to_set() =~= set![end, start]) by {
                    assert(odd@.to_set().contains(odd@[0]));
                    assert(odd@.to_set().contains(odd@[1]));
                }
            }
            assert(mask_of(g0, start) != 0) by {
                if odd.len() == 2 {
                    assert(odd@.contains(start));
                    lemma_count_bound(0, 8);
                }
            }
            lemma_some_open(g0, start);
            assert(parity_ok(g0, start, end));
        }
        let ghost d1 = choose|d: Direction| #[trigger] open_at(g0, start, d);
        assert(self.link(start, d1));
        let (out, Ghost(od)) = walk(self, &mut graph, &ks, start, Ghost(end));
        let ghost g = cell_map_contents(graph);
        let mut i: usize = 0;
        while i < ks.len()
            invariant
                i <= ks.len(),
                cell_map_contents(graph) == g,
                g.dom() == ks@.to_set(),
                self.wf(),
                self.odd_count_ok(),
                self.odd_cells().len() == 0 ==> start == end,
                self.odd_cells().len() == 2 ==> self.odd_cells() == set![end, start],
                self.link(start, d1),
                walk_done(self, g, ks@, out@, od, start, end),
                forall|m: int| 0 <= m < i ==> #[trigger] g[ks@[m]] == 0,
            decreases ks.len() - i,
        {
            let v = match map_get(&graph, ks[i]) {
                Some(v) => v,
                None => 0,
            };
            if v != 0 {
                proof {
                    let c0 = Coord::from_key(ks@[i as int]);
                    assert(ks@.to_set().contains(ks@[i as int]));
                    assert(c0.key() == ks@[i as int]);
                    assert(graph_bounded(g));
                    assert(near(c0));
                    lemma_near_inner(c0);
                    lemma_some_open(g, c0);
                    let d0 = choose|d: Direction| #[trigger] open_at(g, c0, d);
                    lemma_done_split(self, g, ks@, out@, od, start, end, c0, d0, d1);
                }
                return None;
            }
            i = i + 1;
        }
        proof {
            assert forall|c: Coord, d: Direction| c.inner() implies !#[trigger] open_at(g, c, d) by {
                if g.contains_key(c.key()) {
                    let m = choose|m: int| 0 <= m < ks@.len() && ks@[m] == c.key();
                    assert(g[ks@[m]] == 0);
                }
            }
            lemma_done_complete(self, g, ks@, out@, od, start, end);
            assert(self.has_edges()) by {
                assert(self.drawn(edge_at(start, d1)));
            }
        }
        Some(out)
    }
}

/// The direction in which flank `f` is scanned.
pub open spec fn flank_dir(f: int) -> Direction {
    if f == 0 {
        Direction::XY
    } else if f == 1 {
        Direction::YZ
    } else {
        Direction::ZX
    }
}

/// The first cell scanned for slot `i` of the flank scanned towards `d`: from the
/// flank's centre, `|i - r|` steps turned towards the side of the offset.
pub open spec fn slot_anchor(r: int, d: Direction, i: int) -> Coord {
    let ci = i - r;
    let side = if ci > 0 {
        d.turn(Angle::Right)
    } else {
        d.turn(Angle::Left)
    };
    Coord { x: 0, y: 0 }.steps(d, -r).steps(side, abs(ci))
}

/// Junction counts of the cells scanned for slot `i`, from its anchor across the board.
pub open spec fn slot_counts(board: &Board, r: int, d: Direction, i: int) -> Seq<nat> {
    Seq::new(
        (2 * r - abs(i - r) + 1) as nat,
        |j: int| popcount(board.mask(slot_anchor(r, d, i).steps(d, j))),
    )
}

/// The nonzero entries, in order.
pub open spec fn nonzero(s: Seq<nat>) -> Seq<nat>
    decreases s.len(),
{
    if s.len() == 0 {
        s
    } else if s.last() != 0 {
        nonzero(s.drop_last()).push(s.last())
    } else {
        nonzero(s.drop_last())
    }
}

pub open spec fn widen(m: Seq<u8>) -> Seq<nat> {
    m.map_values(|v: u8| v as nat)
}

/// A slot is unconstrained, or the junctions met along its scan, zeros skipped,
/// are exactly the expected ones.
pub open spec fn slot_ok(board: &Board, r: int, d: Direction, i: int, m: Seq<u8>) -> bool {
    m.len() == 0 || nonzero(slot_counts(board, r, d, i)) == widen(m)
}

/// Every slot of every flank is satisfied.
pub open spec fn flanks_ok(board: &Board, puzzle: &Puzzle) -> bool {
    forall|f: int, i: int|
        0 <= f < 3 && 0 <= i < puzzle.spec_marks()[f].len() ==> #[trigger] slot_ok(
            board,
            puzzle.spec_radius() as int,
            flank_dir(f),
            i,
            puzzle.spec_marks()[f][i],
        )
}

/// The nonzero entries of a prefix begin the nonzero entries of the whole.
proof fn lemma_nonzero_prefix(s: Seq<nat>, k: int)
    requires
        0 <= k <= s.len(),
    ensures
        nonzero(s.take(k)).len() <= nonzero(s).len(),
        forall|x: int| 0 <= x < nonzero(s.take(k)).len() ==> #[trigger] nonzero(s.take(k))[x] == nonzero(s)[x],
    decreases s.len() - k,
{
    if k < s.len() {
        lemma_nonzero_prefix(s, k + 1);
        let t = s.take(k + 1);
        assert(t.drop_last() == s.take(k));
        assert(t.last() == s[k]);
        assert forall|x: int| 0 <= x < nonzero(s.take(k)).len() implies #[trigger] nonzero(s.take(k))[x] == nonzero(
            s,
        )[x] by {
            assert(nonzero(t)[x] == nonzero(s)[x]);
        }
    } else {
        assert(s.take(k) == s);
    }
}

impl Board {
    /// Scans one slot of a flank.
    fn check_slot(&self, radius: u32, dir: Direction, i: usize, markset: &Vec<u8>) -> (r: bool)
        requires
            radius <= MAX_RADIUS,
            i <= 2 * radius,
        ensures
            r == slot_ok(self, radius as int, dir, i as int, markset@),
    {
        if markset.len() == 0 {
            // nothing marked = anything goes
            return true;
        }
        let rad = radius as i32;
        let centered_idx: i32 = i as i32 - rad;
        let side_center = Coord::new(0, 0).offset(dir, -rad);
        let side = if centered_idx > 0 {
            dir.rotate(Angle::Right)
        } else {
            dir.rotate(Angle::Left)
        };
        let a: i32 = if centered_idx < 0 {
            -centered_idx
        } else {
            centered_idx
        };
        assert(abs(side_center.x as int) <= radius && abs(side_center.y as int) <= radius);
        let anchor = side_center.offset(side, a);
        let last: u32 = radius * 2 - a as u32;
        let ghost counts = slot_counts(self, radius as int, dir, i as int);
        let ghost want = widen(markset@);
        assert(anchor == slot_anchor(radius as int, dir, i as int));
        let mut scanner: usize = 0;
        let mut j: u32 = 0;
        proof {
            assert(counts.take(0) =~= Seq::<nat>::empty());
            assert(want.take(0) =~= Seq::<nat>::empty());
        }
        while j <= last
            invariant
                radius <= MAX_RADIUS,
                last == 2 * radius - abs(i - radius),
                0 <= a <= radius,
                anchor == slot_anchor(radius as int, dir, i as int),
                counts == slot_counts(self, radius as int, dir, i as int),
                want == widen(markset@),
                -2 * radius <= anchor.x <= 2 * radius,
                -2 * radius <= anchor.y <= 2 * radius,
                j <= last + 1,
                markset.len() > 0,
                scanner <= markset.len(),
                nonzero(counts.take(j as int)) == want.take(scanner as int),
            decreases last + 1 - j,
        {
            // Scan across ...
            let coord = anchor.offset(dir, j as i32);
            let junction_count = self.get_junction_count(coord);
            proof {
                assert(counts[j as int] == junction_count);
                assert(counts.take(j + 1).drop_last() == counts.take(j as int));
                assert(counts.take(j + 1).last() == junction_count);
                if junction_count != 0 {
                    assert(nonzero(counts.take(j + 1)) == nonzero(counts.take(j as int)).push(junction_count as nat));
                } else {
                    assert(nonzero(counts.take(j + 1)) == nonzero(counts.take(j as int)));
                }
            }
            if junction_count != 0 {
                if scanner >= markset.len() {
                    // there's more junctions here than the plan called for
                    proof {
                        lemma_nonzero_prefix(counts, j + 1);
                        assert(nonzero(counts.take(j + 1)).len() == scanner + 1);
                        assert(want.len() == markset.len());
                        assert(nonzero(counts).len() != want.len());
                    }
                    return false;
                }
                if markset[scanner] != junction_count {
                    // this junction doesn't match
                    proof {
                        lemma_nonzero_prefix(counts, j + 1);
                        assert(nonzero(counts.take(j + 1))[scanner as int] == junction_count);
                        assert(want[scanner as int] == markset@[scanner as int]);
                    }
                    return false;
                }
                // then we've found the next step in the plan
                proof {
                    assert(want.take(scanner + 1) =~= want.take(scanner as int).push(want[scanner as int]));
                }
                scanner = scanner + 1;
            }
            j = j + 1;
        }
        proof {
            assert(counts.take(j as int) =~= counts);
            if scanner < markset.len() {
                assert(want.take(scanner as int).len() != want.len());
            } else {
                assert(want.take(scanner as int) =~= want);
            }
        }
        // then we're missing a junction if fewer were found
        scanner == markset.len()
    }

    /// Scans every slot of one flank.
    fn check_flank(&self, radius: u32, dir: Direction, slots: &Vec<Vec<u8>>) -> (r: bool)
        requires
            radius <= MAX_RADIUS,
            slots.len() == 2 * radius + 1,
        ensures
            r == forall|i: int| 0 <= i < slots.len() ==> #[trigger] slot_ok(self, radius as int, dir, i, slots@[i]@),
    {
        let mut i: usize = 0;
        while i < slots.len()
            invariant
                radius <= MAX_RADIUS,
                slots.len() == 2 * radius + 1,
                i <= slots.len(),
                forall|k: int| 0 <= k < i ==> #[trigger] slot_ok(self, radius as int, dir, k, slots@[k]@),
            decreases slots.len() - i,
        {
            if !self.check_slot(radius, dir, i, &slots[i]) {
                return false;
            }
            i = i + 1;
        }
        true
    }

    /// `Ok` when the drawn edges form one continuous pass and every flank's
    /// junction pattern matches.
    pub fn is_solved(&self, puzzle: &Puzzle) -> (r: Result<(), FailureReason>)
        requires
            self.wf(),
            puzzle.wf(),
        ensures
            r == verdict(self, puzzle),
    {
        if self.find_euler_path().is_none() {
            return Err(FailureReason::NotSinglePass);
        }
        let radius = puzzle.radius();
        let marks = puzzle.marks();
        let ghost mv = puzzle.spec_marks();
        proof {
            assert(mv[0] == crate::puzzle::vecs_view(marks[0]@));
            assert(mv[1] == crate::puzzle::vecs_view(marks[1]@));
            assert(mv[2] == crate::puzzle::vecs_view(marks[2]@));
            assert(mv[0].len() == 2 * radius + 1);
            assert(mv[1].len() == 2 * radius + 1);
            assert(mv[2].len() == 2 * radius + 1);
        }
        // for each flank of the level
        let ok0 = self.check_flank(radius, Direction::XY, &marks[0]);
        let ok1 = self.check_flank(radius, Direction::YZ, &marks[1]);
        let ok2 = self.check_flank(radius, Direction::ZX, &marks[2]);
        proof {
            assert(ok0 && ok1 && ok2 <==> flanks_ok(self, puzzle)) by {
                if ok0 && ok1 && ok2 {
                    assert forall|f: int, i: int| 0 <= f < 3 && 0 <= i < mv[f].len() implies #[trigger] slot_ok(
                        self,
                        radius as int,
                        flank_dir(f),
                        i,
                        mv[f][i],
                    ) by {
                        if f == 0 {
                            assert(mv[0][i] == marks[0]@[i]@);
                        } else if f == 1 {
                            assert(mv[1][i] == marks[1]@[i]@);
                        } else {
                            assert(mv[2][i] == marks[2]@[i]@);
                        }
                    }
                }
                if flanks_ok(self, puzzle) {
                    assert forall|i: int| 0 <= i < marks[0].len() implies #[trigger] slot_ok(self, radius as int, Direction::XY, i, marks[0]@[i]@) by {
                        assert(mv[0][i] == marks[0]@[i]@);
                        assert(slot_ok(self, radius as int, flank_dir(0), i, mv[0][i]));
                    }
                    assert forall|i: int| 0 <= i < marks[1].len() implies #[trigger] slot_ok(self, radius as int, Direction::YZ, i, marks[1]@[i]@) by {
                        assert(mv[1][i] == marks[1]@[i]@);
                        assert(slot_ok(self, radius as int, flank_dir(1), i, mv[1][i]));
                    }
                    assert forall|i: int| 0 <= i < marks[2].len() implies #[trigger] slot_ok(self, radius as int, Direction::ZX, i, marks[2]@[i]@) by {
                        assert(mv[2][i] == marks[2]@[i]@);
                        assert(slot_ok(self, radius as int, flank_dir(2), i, mv[2][i]));
                    }
                }
            }
        }
        if !(ok0 && ok1 && ok2) {
            return Err(FailureReason::CountFailed);
        }
        // made it through it all!
        Ok(())
    }
}

} // verus!
