//! Hex-grid geometry: cells, directions, and the canonical naming of edges.
use vstd::prelude::*;

verus! {

/// Largest magnitude allowed for either axial component of a cell that the
/// library computes with; it keeps every sum, scaling and distance in `i32`.
pub const COORD_LIMIT: i32 = 0x1000_0000;

/// A hex cell in axial coordinates; the third cube coordinate is `-x - y`.
#[derive(Debug, Clone, Copy, PartialEq, Eq, Hash, Structural)]
pub struct Coord {
    pub x: i32,
    pub y: i32,
}

/// The six directions of the hex grid, in hex2d's order (index 0 to 5).
#[derive(Debug, Clone, Copy, PartialEq, Eq, Hash, Structural)]
pub enum Direction {
    YZ,
    XZ,
    XY,
    ZY,
    ZX,
    YX,
}

/// A turn relative to a direction, clockwise in steps of 60 degrees.
#[derive(Debug, Clone, Copy, PartialEq, Eq, Hash, Structural)]
pub enum Angle {
    Forward,
    Right,
    RightBack,
    Back,
    LeftBack,
    Left,
}

/// Hex direction but only for the 3 directions tracked on a cell.
#[derive(Debug, Clone, Copy, PartialEq, Eq, Hash, Structural)]
pub enum HexEdge {
    /// Right
    XY,
    /// Down-right
    ZY,
    /// Down-left
    ZX,
}

/// An undirected edge of the grid, named by a base cell and a canonical direction.
#[derive(Debug, Clone, Copy, PartialEq, Eq, Hash, Structural)]
pub struct EdgePos {
    pub coord: Coord,
    pub edge: HexEdge,
}

pub open spec fn abs(v: int) -> int {
    if v < 0 { -v } else { v }
}

impl Coord {
    pub open spec fn z(self) -> int {
        -self.x - self.y
    }

    /// Both components lie within `COORD_LIMIT`.
    pub open spec fn in_range(self) -> bool {
        -COORD_LIMIT <= self.x <= COORD_LIMIT && -COORD_LIMIT <= self.y <= COORD_LIMIT
    }

    /// Strictly inside the limit, so that every neighbour is still in range.
    pub open spec fn inner(self) -> bool {
        -COORD_LIMIT < self.x < COORD_LIMIT && -COORD_LIMIT < self.y < COORD_LIMIT
    }

    /// The key under which a cell is stored in a hash map.
    pub open spec fn key(self) -> (i32, i32) {
        (self.x, self.y)
    }

    pub open spec fn from_key(k: (i32, i32)) -> Coord {
        Coord { x: k.0, y: k.1 }
    }

    /// Hex distance between two cells.
    pub open spec fn dist(self, o: Coord) -> int {
        (abs(self.x - o.x) + abs(self.y - o.y) + abs(self.z() - o.z())) / 2
    }

    /// Hex distance from the origin.
    pub open spec fn norm(self) -> int {
        self.dist(Coord { x: 0, y: 0 })
    }

    /// The cell one step away in direction `d`.
    pub open spec fn step(self, d: Direction) -> Coord {
        Coord { x: (self.x + d.dx()) as i32, y: (self.y + d.dy()) as i32 }
    }

    /// The cell `n` steps away in direction `d`.
    pub open spec fn steps(self, d: Direction, n: int) -> Coord {
        Coord { x: (self.x + n * d.dx()) as i32, y: (self.y + n * d.dy()) as i32 }
    }

    pub fn new(x: i32, y: i32) -> (r: Coord)
        ensures
            r.x == x,
            r.y == y,
    {
        Coord { x, y }
    }

    /// The cell one step away in direction `d`.
    pub fn neighbor(self, d: Direction) -> (r: Coord)
        requires
            self.inner(),
        ensures
            r == self.step(d),
            r.in_range(),
    {
        hex_add(self, hex_unit(d))
    }

    /// The cell `n` steps away in direction `d`: `self + Coordinate::from(d).scale(n)`.
    pub fn offset(self, d: Direction, n: i32) -> (r: Coord)
        requires
            -0x1000_0000 <= n <= 0x1000_0000,
            -0x2000_0000 <= self.x <= 0x2000_0000,
            -0x2000_0000 <= self.y <= 0x2000_0000,
        ensures
            r == self.steps(d, n as int),
            r.x == self.x + n * d.dx(),
            r.y == self.y + n * d.dy(),
            abs(r.x - self.x) <= abs(n as int),
            abs(r.y - self.y) <= abs(n as int),
    {
        let u = hex_unit(d);
        proof {
            assert(u.x * n == n * d.dx() && u.y * n == n * d.dy()) by {
                match d {
                    Direction::YZ => {},
                    Direction::XZ => {},
                    Direction::XY => {},
                    Direction::ZY => {},
                    Direction::ZX => {},
                    Direction::YX => {},
                }
            }
        }
        hex_add(self, hex_scale(u, n))
    }

    /// Hex distance from the origin.
    pub fn distance_from_origin(self) -> (r: i32)
        requires
            self.in_range(),
        ensures
            r == self.norm(),
            r >= 0,
    {
        hex_distance(self, Coord { x: 0, y: 0 })
    }
}

impl Direction {
    /// Position in hex2d's list of all directions.
    pub open spec fn index(self) -> nat {
        match self {
            Direction::YZ => 0,
            Direction::XZ => 1,
            Direction::XY => 2,
            Direction::ZY => 3,
            Direction::ZX => 4,
            Direction::YX => 5,
        }
    }

    pub open spec fn from_index(i: nat) -> Direction {
        if i == 0 {
            Direction::YZ
        } else if i == 1 {
            Direction::XZ
        } else if i == 2 {
            Direction::XY
        } else if i == 3 {
            Direction::ZY
        } else if i == 4 {
            Direction::ZX
        } else {
            Direction::YX
        }
    }

    /// Change of `x` for one step in this direction.
    pub open spec fn dx(self) -> int {
        match self {
            Direction::YZ => 0,
            Direction::XZ => 1,
            Direction::XY => 1,
            Direction::ZY => 0,
            Direction::ZX => -1,
            Direction::YX => -1,
        }
    }

    /// Change of `y` for one step in this direction.
    pub open spec fn dy(self) -> int {
        match self {
            Direction::YZ => 1,
            Direction::XZ => 0,
            Direction::XY => -1,
            Direction::ZY => -1,
            Direction::ZX => 0,
            Direction::YX => 1,
        }
    }

    /// The direction turned by `a`.
    pub open spec fn turn(self, a: Angle) -> Direction {
        Direction::from_index((self.index() + a.index()) % 6)
    }

    /// The direction pointing the other way.
    pub open spec fn opposite(self) -> Direction {
        self.turn(Angle::Back)
    }

    pub fn from_u8(i: u8) -> (r: Direction)
        requires
            i < 6,
        ensures
            r == Direction::from_index(i as nat),
            r.index() == i,
    {
        if i == 0 {
            Direction::YZ
        } else if i == 1 {
            Direction::XZ
        } else if i == 2 {
            Direction::XY
        } else if i == 3 {
            Direction::ZY
        } else if i == 4 {
            Direction::ZX
        } else {
            Direction::YX
        }
    }

    pub fn to_u8(self) -> (r: u8)
        ensures
            r == self.index(),
    {
        match self {
            Direction::YZ => 0,
            Direction::XZ => 1,
            Direction::XY => 2,
            Direction::ZY => 3,
            Direction::ZX => 4,
            Direction::YX => 5,
        }
    }

    /// The direction turned by `a`.
    pub fn rotate(self, a: Angle) -> (r: Direction)
        ensures
            r == self.turn(a),
    {
        Direction::from_u8(hex_turn(self, a))
    }
}

impl Angle {
    pub open spec fn index(self) -> nat {
        match self {
            Angle::Forward => 0,
            Angle::Right => 1,
            Angle::RightBack => 2,
            Angle::Back => 3,
            Angle::LeftBack => 4,
            Angle::Left => 5,
        }
    }
}

impl HexEdge {
    pub open spec fn dir(self) -> Direction {
        match self {
            HexEdge::XY => Direction::XY,
            HexEdge::ZY => Direction::ZY,
            HexEdge::ZX => Direction::ZX,
        }
    }

    /// The bit that stands for this edge in a cell's edge set.
    pub open spec fn bit(self) -> nat {
        match self {
            HexEdge::XY => 0,
            HexEdge::ZY => 1,
            HexEdge::ZX => 2,
        }
    }

    pub fn to_hex2d(&self) -> (r: Direction)
        ensures
            r == self.dir(),
    {
        match self {
            HexEdge::XY => Direction::XY,
            HexEdge::ZY => Direction::ZY,
            HexEdge::ZX => Direction::ZX,
        }
    }
}

impl EdgePos {
    /// The edge's base cell is far enough from the limit for both ends to be computed.
    pub open spec fn wf(self) -> bool {
        self.coord.inner()
    }

    /// The second cell that the edge joins.
    pub open spec fn far(self) -> Coord {
        self.coord.step(self.edge.dir())
    }

    pub fn new(coord: Coord, edge: HexEdge) -> (r: EdgePos)
        ensures
            r.coord == coord,
            r.edge == edge,
    {
        EdgePos { coord, edge }
    }

    /// The two cells the edge joins.
    pub fn spans(&self) -> (r: [Coord; 2])
        requires
            self.wf(),
        ensures
            r[0] == self.coord,
            r[1] == self.far(),
            r[1].in_range(),
    {
        [self.coord, self.coord.neighbor(self.edge.to_hex2d())]
    }
}

/// The canonical name of the edge leaving `coord` in direction `dir`.
pub open spec fn canonical(coord: Coord, dir: Direction) -> (Coord, HexEdge) {
    match dir {
        Direction::XY => (coord, HexEdge::XY),
        Direction::ZY => (coord, HexEdge::ZY),
        Direction::ZX => (coord, HexEdge::ZX),
        Direction::YX => (coord.step(Direction::YX), HexEdge::XY),
        Direction::YZ => (coord.step(Direction::YZ), HexEdge::ZY),
        Direction::XZ => (coord.step(Direction::XZ), HexEdge::ZX),
    }
}

/// Turn an unrestricted direction into the restricted direction on the coordinate.
pub fn canonicalize(coord: Coord, dir: Direction) -> (r: (Coord, HexEdge))
    requires
        coord.inner(),
    ensures
        r == canonical(coord, dir),
{
    match dir {
        Direction::XY => (coord, HexEdge::XY),
        Direction::ZY => (coord, HexEdge::ZY),
        Direction::ZX => (coord, HexEdge::ZX),
        Direction::YX => (coord.neighbor(Direction::YX), HexEdge::XY),
        Direction::YZ => (coord.neighbor(Direction::YZ), HexEdge::ZY),
        Direction::XZ => (coord.neighbor(Direction::XZ), HexEdge::ZX),
    }
}

/// Naming an edge from either end gives the same canonical name, and a canonical
/// name names itself: `canonical` is a function of the undirected edge alone.
pub proof fn lemma_canonical_edge_identity(c: Coord, d: Direction)
    requires
        c.inner(),
    ensures
        canonical(c.step(d), d.opposite()) == canonical(c, d),
        canonical(canonical(c, d).0, canonical(c, d).1.dir()) == canonical(c, d),
        canonical(c, d).0 == c || canonical(c, d).0 == c.step(d),
{
}

/// A cell within `r` of the origin has both components within `r`.
pub proof fn lemma_norm_bounds(c: Coord, r: int)
    requires
        c.norm() <= r,
    ensures
        abs(c.x as int) <= r,
        abs(c.y as int) <= r,
        c.norm() >= 0,
{
}

/// The canonical name of the edge leaving `c` towards `d`.
pub open spec fn edge_at(c: Coord, d: Direction) -> EdgePos {
    EdgePos { coord: canonical(c, d).0, edge: canonical(c, d).1 }
}

/// One step changes the distance from the origin by at most one.
pub proof fn lemma_step_norm(c: Coord, d: Direction)
    requires
        c.inner(),
    ensures
        c.step(d).norm() <= c.norm() + 1,
        c.norm() <= c.step(d).norm() + 1,
        c.step(d).x == c.x + d.dx(),
        c.step(d).y == c.y + d.dy(),
{
}

/// Stepping there and back returns to the start.
pub proof fn lemma_step_back(c: Coord, d: Direction)
    requires
        c.inner(),
        c.step(d).inner(),
    ensures
        c.step(d).step(d.opposite()) == c,
        d.opposite().opposite() == d,
        d.opposite() != d,
{
}

/// The two directed names of an edge are the only ones.
pub proof fn lemma_edge_at_inverse(c: Coord, d: Direction, c0: Coord, d0: Direction)
    requires
        c.inner(),
        c0.inner(),
        edge_at(c, d) == edge_at(c0, d0),
    ensures
        (c == c0 && d == d0) || (c == c0.step(d0) && d == d0.opposite()),
{
}

/// A cell is determined by its hash-map key.
pub proof fn lemma_key_eq(a: Coord, b: Coord)
    ensures
        (a.key() == b.key()) == (a == b),
        Coord::from_key(a.key()) == a,
{
}

/// A canonical edge name names itself.
pub proof fn lemma_canon_self(e: EdgePos)
    requires
        e.coord.inner(),
    ensures
        edge_at(e.coord, e.edge.dir()) == e,
{
}

// ---- hex2d ----

/// Relies on hex2d's `Add` for `Coordinate<i32>`: componentwise sum of `x` and `y`.
#[verifier::external_body]
fn hex_add(a: Coord, b: Coord) -> (r: Coord)
    requires
        i32::MIN <= a.x + b.x <= i32::MAX,
        i32::MIN <= a.y + b.y <= i32::MAX,
    ensures
        r.x == a.x + b.x,
        r.y == a.y + b.y,
{
    let r = hex2d::Coordinate::new(a.x, a.y) + hex2d::Coordinate::new(b.x, b.y);
    Coord { x: r.x, y: r.y }
}

/// Relies on hex2d's `From<Direction> for Coordinate<i32>`: the unit step of a
/// direction; `d as i8` is hex2d's index of the same direction.
#[verifier::external_body]
fn hex_unit(d: Direction) -> (r: Coord)
    ensures
        r.x == d.dx(),
        r.y == d.dy(),
{
    let r: hex2d::Coordinate<i32> = hex2d::Coordinate::from(hex2d::Direction::from_int(d as i8));
    Coord { x: r.x, y: r.y }
}

/// Relies on hex2d's `Coordinate::scale`: both components multiplied by `s`.
#[verifier::external_body]
fn hex_scale(c: Coord, s: i32) -> (r: Coord)
    requires
        i32::MIN <= c.x * s <= i32::MAX,
        i32::MIN <= c.y * s <= i32::MAX,
    ensures
        r.x == c.x * s,
        r.y == c.y * s,
{
    let r = hex2d::Coordinate::new(c.x, c.y).scale(s);
    Coord { x: r.x, y: r.y }
}

/// Relies on hex2d's `Coordinate::distance`: half the sum of the absolute
/// differences of the three cube coordinates.
#[verifier::external_body]
fn hex_distance(a: Coord, b: Coord) -> (r: i32)
    requires
        a.in_range(),
        b.in_range(),
        abs(a.x - b.x) + abs(a.y - b.y) + abs(a.z() - b.z()) <= i32::MAX,
    ensures
        r == a.dist(b),
{
    hex2d::Coordinate::new(a.x, a.y).distance(hex2d::Coordinate::new(b.x, b.y))
}

/// Relies on hex2d's `Add<Angle> for Direction`: the index of the result is the
/// sum of the two indices modulo 6; the result is given as that index.
#[verifier::external_body]
fn hex_turn(d: Direction, a: Angle) -> (r: u8)
    ensures
        r == (d.index() + a.index()) % 6,
{
    (hex2d::Direction::from_int(d as i8) + hex2d::Angle::from_int(a as i8)) as u8
}

} // verus!
