//! A level's fixed definition and the board of edges drawn on it.
use vstd::prelude::*;

use crate::bits::{
    has_bit, lemma_clear_bit, lemma_count_bound, lemma_set_bit, lemma_zero_iff_no_bits, popcount,
};
use crate::cells::{
    cell_map_contents, cell_set_contents, map_get, map_insert, map_new, map_remove, set_contains,
    set_insert, set_new, CellKey, CellMap, CellSet,
};
use crate::geom::{lemma_norm_bounds, Coord, EdgePos, HexEdge, COORD_LIMIT};

pub mod checker;
mod graph;
mod walk;



verus! {

/// Largest radius a puzzle may have; every cell within it, and every neighbour
/// of such a cell, is far inside `COORD_LIMIT`.
pub const MAX_RADIUS: u32 = 0x10_0000;

/// One level's definition: its radius, the junction patterns along three flanks,
/// and the cells covered by water.
pub struct Puzzle {
    radius: u32,
    marks: [Vec<Vec<u8>>; 3],
    water: CellSet,
}

/// A puzzle with its title.
pub struct Level {
    pub puzzle: Puzzle,
    pub title: String,
}

/// The drawn edges of one cell: bit 0 for `XY`, 1 for `ZY`, 2 for `ZX`.
#[derive(Debug, Clone, Copy, PartialEq, Eq, Hash, Structural)]
pub struct EdgeSet {
    bits: u8,
}

/// The edges drawn so far; a cell is a key only while it has a drawn edge.
pub struct Board {
    paths: CellMap,
}

/// The expected junction counts are nonzero and each flank has one slot per
/// position across the board.
pub open spec fn marks_wf(radius: u32, marks: Seq<Seq<Seq<u8>>>) -> bool {
    &&& marks.len() == 3
    &&& forall|f: int| 0 <= f < 3 ==> #[trigger] marks[f].len() == 2 * radius + 1
    &&& forall|f: int, i: int, j: int|
        0 <= f < 3 && 0 <= i < marks[f].len() && 0 <= j < marks[f][i].len() ==> #[trigger] marks[f][i][j]
            > 0
}

/// The keys of the cells in a sequence.
pub open spec fn keys_of(cells: Seq<Coord>) -> Set<CellKey> {
    Set::new(|k: CellKey| exists|j: int| 0 <= j < cells.len() && cells[j].key() == k)
}

pub open spec fn vecs_view(v: Seq<Vec<u8>>) -> Seq<Seq<u8>> {
    v.map_values(|s: Vec<u8>| s@)
}

pub open spec fn marks_view(m: [Vec<Vec<u8>>; 3]) -> Seq<Seq<Seq<u8>>> {
    seq![vecs_view(m[0]@), vecs_view(m[1]@), vecs_view(m[2]@)]
}

impl Puzzle {
    pub closed spec fn spec_radius(&self) -> u32 {
        self.radius
    }

    /// The three flanks' slots, each slot a sequence of expected junction counts.
    pub closed spec fn spec_marks(&self) -> Seq<Seq<Seq<u8>>> {
        marks_view(self.marks)
    }

    /// The keys of the cells under water.
    pub closed spec fn spec_water(&self) -> Set<CellKey> {
        cell_set_contents(self.water)
    }

    pub open spec fn wf(&self) -> bool {
        self.spec_radius() <= MAX_RADIUS && marks_wf(self.spec_radius(), self.spec_marks())
    }

    /// Within the radius and not under water.
    pub open spec fn valid(&self, c: Coord) -> bool {
        c.norm() <= self.spec_radius() && !self.spec_water().contains(c.key())
    }

    /// Builds a puzzle; `None` when the radius exceeds `MAX_RADIUS`, a flank does
    /// not have `2 * radius + 1` slots, or an expected junction count is zero.
    pub fn new(radius: u32, marks: [Vec<Vec<u8>>; 3], water: Vec<Coord>) -> (r: Option<Puzzle>)
        ensures
            r.is_some() <==> radius <= MAX_RADIUS && marks_wf(radius, marks_view(marks)),
            r.is_some() ==> ({
                let p = r.unwrap();
                &&& p.wf()
                &&& p.spec_radius() == radius
                &&& p.spec_marks() == marks_view(marks)
                &&& p.spec_water() == keys_of(water@)
            }),
    {
        if radius > MAX_RADIUS {
            return None;
        }
        let ok = flank_ok(radius, &marks[0]) && flank_ok(radius, &marks[1]) && flank_ok(
            radius,
            &marks[2],
        );
        proof {
            let mv = marks_view(marks);
            assert(mv[0] == vecs_view(marks[0]@));
            assert(mv[1] == vecs_view(marks[1]@));
            assert(mv[2] == vecs_view(marks[2]@));
            if ok {
                assert(mv[0].len() == 2 * radius + 1 && mv[1].len() == 2 * radius + 1 && mv[2].len() == 2 * radius
                    + 1);
                assert forall|f: int, i: int, j: int|
                    0 <= f < 3 && 0 <= i < mv[f].len() && 0 <= j < mv[f][i].len() implies #[trigger] mv[f][i][j]
                        > 0 by {
                    if f == 0 {
                        assert(flank_wf(radius, vecs_view(marks[0]@)));
                    } else if f == 1 {
                        assert(flank_wf(radius, vecs_view(marks[1]@)));
                    } else {
                        assert(flank_wf(radius, vecs_view(marks[2]@)));
                    }
                }
            } else {
                assert(!flank_wf(radius, mv[0]) || !flank_wf(radius, mv[1]) || !flank_wf(radius, mv[2]));
            }
        }
        if !ok {
            return None;
        }
        let mut set = set_new();
        assert(keys_of(water@.subrange(0, 0)) =~= Set::empty());
        let mut i: usize = 0;
        while i < water.len()
            invariant
                i <= water.len(),
                cell_set_contents(set) == keys_of(water@.subrange(0, i as int)),
            decreases water.len() - i,
        {
            let c = water[i];
            set_insert(&mut set, (c.x, c.y));
            proof {
                let s0 = water@.subrange(0, i as int);
                let s1 = water@.subrange(0, i + 1);
                assert forall|k: CellKey| #[trigger] keys_of(s1).contains(k) == keys_of(s0).insert(c.key()).contains(k) by {
                    if keys_of(s1).contains(k) {
                        let j = choose|j: int| 0 <= j < s1.len() && s1[j].key() == k;
                        if j < s0.len() {
                            assert(s0[j] == s1[j]);
                        }
                    }
                    if keys_of(s0).contains(k) {
                        let j = choose|j: int| 0 <= j < s0.len() && s0[j].key() == k;
                        assert(s0[j] == s1[j]);
                    }
                    if k == c.key() {
                        assert(s1[i as int] == c);
                    }
                }
                assert(keys_of(s1) =~= keys_of(s0).insert(c.key()));
            }
            i = i + 1;
        }
        assert(water@.subrange(0, water.len() as int) == water@);
        Some(Puzzle { radius, marks, water: set })
    }

    pub fn radius(&self) -> (r: u32)
        ensures
            r == self.spec_radius(),
    {
        self.radius
    }

    pub fn marks(&self) -> (r: &[Vec<Vec<u8>>; 3])
        ensures
            marks_view(*r) == self.spec_marks(),
    {
        &self.marks
    }

    pub fn has_water(&self, coord: Coord) -> (r: bool)
        ensures
            r == self.spec_water().contains(coord.key()),
    {
        set_contains(&self.water, (coord.x, coord.y))
    }

    /// can the alien go over there
    pub fn is_valid(&self, coord: Coord) -> (r: bool)
        requires
            self.wf(),
        ensures
            r == self.valid(coord),
    {
        if coord.x < -COORD_LIMIT || coord.x > COORD_LIMIT || coord.y < -COORD_LIMIT || coord.y > COORD_LIMIT {
            // far outside any puzzle's radius
            proof {
                if coord.norm() <= MAX_RADIUS {
                    lemma_norm_bounds(coord, MAX_RADIUS as int);
                }
            }
            return false;
        }
        (coord.distance_from_origin() as u32) <= self.radius && !set_contains(
            &self.water,
            (coord.x, coord.y),
        )
    }
}

/// One flank's slots: `2 * radius + 1` of them, with nonzero expectations.
pub open spec fn flank_wf(radius: u32, slots: Seq<Seq<u8>>) -> bool {
    &&& slots.len() == 2 * radius + 1
    &&& forall|i: int, j: int|
        0 <= i < slots.len() && 0 <= j < slots[i].len() ==> #[trigger] slots[i][j] > 0
}

fn flank_ok(radius: u32, slots: &Vec<Vec<u8>>) -> (r: bool)
    requires
        radius <= MAX_RADIUS,
    ensures
        r == flank_wf(radius, vecs_view(slots@)),
{
    if slots.len() != 2 * (radius as usize) + 1 {
        return false;
    }
    let mut i: usize = 0;
    while i < slots.len()
        invariant
            i <= slots.len(),
            slots.len() == 2 * radius + 1,
            forall|a: int, b: int|
                0 <= a < i && 0 <= b < slots@[a]@.len() ==> #[trigger] slots@[a]@[b] > 0,
        decreases slots.len() - i,
    {
        let slot = &slots[i];
        let mut j: usize = 0;
        while j < slot.len()
            invariant
                i < slots.len(),
                slot == slots@[i as int],
                j <= slot.len(),
                forall|b: int| 0 <= b < j ==> #[trigger] slot@[b] > 0,
            decreases slot.len() - j,
        {
            if slot[j] == 0 {
                assert(vecs_view(slots@)[i as int][j as int] == 0);
                return false;
            }
            j = j + 1;
        }
        i = i + 1;
    }
    true
}

impl EdgeSet {
    pub closed spec fn spec_bits(self) -> u8 {
        self.bits
    }

    pub open spec fn wf(self) -> bool {
        self.spec_bits() < 8
    }

    /// The edge is in the set.
    pub open spec fn has(self, e: HexEdge) -> bool {
        has_bit(self.spec_bits(), e.bit() as u8)
    }

    /// The set with no edges.
    pub fn empty() -> (r: EdgeSet)
        ensures
            r.wf(),
            forall|e: HexEdge| !#[trigger] r.has(e),
            r.spec_bits() == 0,
    {
        proof {
            lemma_zero_iff_no_bits(0);
        }
        EdgeSet { bits: 0 }
    }

    pub fn contains(&self, e: HexEdge) -> (r: bool)
        ensures
            r == self.has(e),
    {
        self.bits & edge_mask(e) != 0
    }

    pub fn is_empty(&self) -> (r: bool)
        ensures
            r == forall|e: HexEdge| !#[trigger] self.has(e),
            self.wf() ==> (r == (self.spec_bits() == 0)),
    {
        proof {
            lemma_zero_iff_no_bits(self.bits);
            assert(self.has(HexEdge::XY) == has_bit(self.bits, 0));
            assert(self.has(HexEdge::ZY) == has_bit(self.bits, 1));
            assert(self.has(HexEdge::ZX) == has_bit(self.bits, 2));
            if self.wf() {
                crate::bits::lemma_high_bits_clear(self.bits, 3, 3);
                crate::bits::lemma_high_bits_clear(self.bits, 3, 4);
                crate::bits::lemma_high_bits_clear(self.bits, 3, 5);
                crate::bits::lemma_high_bits_clear(self.bits, 3, 6);
                crate::bits::lemma_high_bits_clear(self.bits, 3, 7);
            }
        }
        !self.contains(HexEdge::XY) && !self.contains(HexEdge::ZY) && !self.contains(HexEdge::ZX)
    }

    /// Number of edges in the set.
    pub fn len(&self) -> (r: u8)
        ensures
            r == popcount(self.spec_bits()),
    {
        mask_count(self.bits)
    }
}

/// The mask of an edge's bit.
fn edge_mask(e: HexEdge) -> (r: u8)
    ensures
        r == 1u8 << (e.bit() as u8),
        r == 1 || r == 2 || r == 4,
{
    assert(1u8 << 0u8 == 1u8 && 1u8 << 1u8 == 2u8 && 1u8 << 2u8 == 4u8) by (bit_vector);
    match e {
        HexEdge::XY => 1,
        HexEdge::ZY => 2,
        HexEdge::ZX => 4,
    }
}

impl Board {
    /// Drawn-edge masks of the cells that have at least one drawn edge.
    pub closed spec fn view(&self) -> Map<CellKey, u8> {
        cell_map_contents(self.paths)
    }

    /// Every key holds a nonempty three-bit mask, and its cell lies within
    /// `MAX_RADIUS` of the origin.
    pub open spec fn wf(&self) -> bool {
        forall|k: CellKey| #[trigger]
            self@.contains_key(k) ==> 0 < self@[k] < 8 && Coord::from_key(k).norm() <= MAX_RADIUS
    }

    /// The mask of a cell: its drawn canonical edges, zero when it has none.
    pub open spec fn mask(&self, c: Coord) -> u8 {
        if self@.contains_key(c.key()) {
            self@[c.key()]
        } else {
            0
        }
    }

    /// The edge is drawn.
    pub open spec fn drawn(&self, e: EdgePos) -> bool {
        has_bit(self.mask(e.coord), e.edge.bit() as u8)
    }

    /// Both ends of the edge are valid cells of the puzzle.
    pub open spec fn legal(puzzle: &Puzzle, e: EdgePos) -> bool {
        puzzle.valid(e.coord) && puzzle.valid(e.far())
    }

    /// `after` and `r` are what `set_path(puzzle, edge, newval)` makes of this
    /// board: when the edge is not legal, no change and `None`; otherwise the edge
    /// is drawn exactly when `newval`, every other edge keeps its state, and its
    /// previous state is returned. No other cell's entry changes either way.
    pub open spec fn toggled(
        &self,
        puzzle: &Puzzle,
        edge: EdgePos,
        newval: bool,
        after: Board,
        r: Option<bool>,
    ) -> bool {
        &&& !Board::legal(puzzle, edge) ==> r == None::<bool> && after@ == self@
        &&& Board::legal(puzzle, edge) ==> r == Some(self.drawn(edge))
        &&& Board::legal(puzzle, edge) ==> forall|e: EdgePos| #[trigger]
            after.drawn(e) == if e == edge {
                newval
            } else {
                self.drawn(e)
            }
        &&& after@.remove(edge.coord.key()) == self@.remove(edge.coord.key())
    }

    pub fn new() -> (r: Board)
        ensures
            r.wf(),
            r@ == Map::<CellKey, u8>::empty(),
    {
        Board { paths: map_new() }
    }

    pub fn can_twiddle_path(&self, puzzle: &Puzzle, edge: EdgePos) -> (r: bool)
        requires
            puzzle.wf(),
        ensures
            r == Board::legal(puzzle, edge),
    {
        let c = edge.coord;
        if c.x <= -COORD_LIMIT || c.x >= COORD_LIMIT || c.y <= -COORD_LIMIT || c.y >= COORD_LIMIT {
            // far outside any puzzle's radius
            proof {
                if c.norm() <= MAX_RADIUS {
                    lemma_norm_bounds(c, MAX_RADIUS as int);
                }
            }
            return false;
        }
        let sp = edge.spans();
        puzzle.is_valid(sp[0]) && puzzle.is_valid(sp[1])
    }

    /// Get whether the path is there, missing, or invalid
    pub fn get_path(&self, edge: EdgePos) -> (r: Option<bool>)
        ensures
            r == (if self@.contains_key(edge.coord.key()) {
                Some(self.drawn(edge))
            } else {
                None
            }),
    {
        match map_get(&self.paths, (edge.coord.x, edge.coord.y)) {
            Some(bits) => Some(bits & edge_mask(edge.edge) != 0),
            None => None,
        }
    }

    /// Return the old value of the path
    pub fn set_path(&mut self, puzzle: &Puzzle, edge: EdgePos, newval: bool) -> (r: Option<bool>)
        requires
            old(self).wf(),
            puzzle.wf(),
        ensures
            final(self).wf(),
            old(self).toggled(puzzle, edge, newval, *final(self), r),
    {
        if !self.can_twiddle_path(puzzle, edge) {
            return None;
        }
        let key = (edge.coord.x, edge.coord.y);
        let bit = edge_mask(edge.edge);
        let ghost k = edge.edge.bit() as u8;
        let ghost old_mask = old(self).mask(edge.coord);
        let prev = match map_get(&self.paths, key) {
            Some(bits) => bits,
            None => 0,
        };
        assert(prev == old_mask);
        let next = if newval {
            prev | bit
        } else {
            prev & !bit
        };
        proof {
            assert forall|j: u8| j < 8 implies #[trigger] has_bit(next, j) == if j == k {
                newval
            } else {
                has_bit(prev, j)
            } by {
                if newval {
                    lemma_set_bit(prev, k, j);
                } else {
                    lemma_clear_bit(prev, k, j);
                }
            }
            assert(next < 8) by {
                assert(prev < 8 ==> (prev | bit) < 8 && (prev & !bit) < 8) by (bit_vector)
                    requires
                        bit == 1u8 || bit == 2u8 || bit == 4u8,
                ;
            }
            lemma_zero_iff_no_bits(next);
            assert(Coord::from_key(key) == edge.coord);
        }
        assert(old(self)@.remove(key) =~= old(self)@.remove(key).remove(key));
        if next == 0 {
            map_remove(&mut self.paths, key);
        } else {
            map_insert(&mut self.paths, key, next);
        }
        proof {
            assert(self@.remove(key) =~= old(self)@.remove(key));
            assert forall|e: EdgePos| #[trigger]
                self.drawn(e) == if e == edge {
                    newval
                } else {
                    old(self).drawn(e)
                } by {
                if e.coord == edge.coord {
                    assert(self.mask(e.coord) == next);
                    assert(e.edge.bit() < 3);
                    if e.edge != edge.edge {
                        assert(e.edge.bit() != edge.edge.bit());
                    }
                } else {
                    assert(e.coord.key() != key);
                }
            }
        }
        Some(prev & bit != 0)
    }

    /// No cell is kept without a drawn edge: every key of a well-formed board,
    /// and so of every board that `new` and `set_path` produce, has one.
    pub proof fn lemma_keys_have_edges(&self, k: CellKey)
        requires
            self.wf(),
            self@.contains_key(k),
        ensures
            exists|e: HexEdge| #[trigger] self.drawn(EdgePos { coord: Coord::from_key(k), edge: e }),
    {
        let m = self@[k];
        let c = Coord::from_key(k);
        assert(c.key() == k);
        lemma_zero_iff_no_bits(m);
        crate::bits::lemma_high_bits_clear(m, 3, 3);
        crate::bits::lemma_high_bits_clear(m, 3, 4);
        crate::bits::lemma_high_bits_clear(m, 3, 5);
        crate::bits::lemma_high_bits_clear(m, 3, 6);
        crate::bits::lemma_high_bits_clear(m, 3, 7);
        assert(self.drawn(EdgePos { coord: c, edge: HexEdge::XY }) || self.drawn(EdgePos { coord: c, edge: HexEdge::ZY })
            || self.drawn(EdgePos { coord: c, edge: HexEdge::ZX }));
    }

    /// Setting an edge twice to the same value: the first call returns the old
    /// state, the second returns the value just set and changes no edge. An
    /// illegal edge is refused both times and the board stays as it was.
    pub proof fn lemma_set_twice(
        b0: Board,
        b1: Board,
        b2: Board,
        puzzle: &Puzzle,
        edge: EdgePos,
        v: bool,
        r1: Option<bool>,
        r2: Option<bool>,
    )
        requires
            b0.toggled(puzzle, edge, v, b1, r1),
            b1.toggled(puzzle, edge, v, b2, r2),
        ensures
            Board::legal(puzzle, edge) ==> r1 == Some(b0.drawn(edge)) && r2 == Some(v),
            Board::legal(puzzle, edge) ==> forall|e: EdgePos| #[trigger] b2.drawn(e) == b1.drawn(e),
            !Board::legal(puzzle, edge) ==> r1 == None::<bool> && r2 == None::<bool> && b2@ == b0@,
    {
        if Board::legal(puzzle, edge) {
            assert(b1.drawn(edge) == v);
            assert forall|e: EdgePos| #[trigger] b2.drawn(e) == b1.drawn(e) by {
                assert(b1.drawn(e) == if e == edge {
                    v
                } else {
                    b0.drawn(e)
                });
            }
        }
    }

    pub fn get_paths(&self, coord: Coord) -> (r: EdgeSet)
        ensures
            r.spec_bits() == self.mask(coord),
    {
        match map_get(&self.paths, (coord.x, coord.y)) {
            Some(bits) => EdgeSet { bits },
            None => EdgeSet { bits: 0 },
        }
    }

    /// How many drawn canonical edges leave the cell.
    pub fn get_junction_count(&self, coord: Coord) -> (r: u8)
        ensures
            r == popcount(self.mask(coord)),
    {
        self.get_paths(coord).len()
    }
}

/// Number of set bits of a mask.
pub fn mask_count(m: u8) -> (r: u8)
    ensures
        r == popcount(m),
{
    let mut n: u8 = 0;
    let mut k: u8 = 0;
    while k < 8
        invariant
            k <= 8,
            n == crate::bits::count_bits(m, k as nat),
            n <= k,
        decreases 8 - k,
    {
        proof {
            lemma_count_bound(m, k as nat);
        }
        if m & (1u8 << k) != 0 {
            n = n + 1;
        }
        k = k + 1;
    }
    n
}

} // verus!
