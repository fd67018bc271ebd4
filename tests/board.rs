use crop_circles::geom::{canonicalize, Coord, Direction, EdgePos, HexEdge};
use crop_circles::puzzle::{Board, EdgeSet, Puzzle, MAX_RADIUS};

fn empty_marks(radius: u32) -> [Vec<Vec<u8>>; 3] {
    let n = 2 * radius as usize + 1;
    [vec![Vec::new(); n], vec![Vec::new(); n], vec![Vec::new(); n]]
}

fn puzzle(radius: u32, water: Vec<Coord>) -> Puzzle {
    Puzzle::new(radius, empty_marks(radius), water).unwrap()
}

fn edge(x: i32, y: i32, e: HexEdge) -> EdgePos {
    EdgePos::new(Coord::new(x, y), e)
}

#[test]
fn puzzle_accepts_well_formed_definitions() {
    let p = puzzle(2, vec![Coord::new(1, 0)]);
    assert_eq!(p.radius(), 2);
    assert_eq!(p.marks()[0].len(), 5);
    assert!(p.has_water(Coord::new(1, 0)));
    assert!(!p.has_water(Coord::new(0, 1)));
}

#[test]
fn puzzle_rejects_wrong_slot_counts() {
    let marks = [vec![Vec::new(); 3], vec![Vec::new(); 2], vec![Vec::new(); 3]];
    assert!(Puzzle::new(1, marks, Vec::new()).is_none());
}

#[test]
fn puzzle_rejects_zero_expectations() {
    let marks = [vec![Vec::new(), vec![0u8], Vec::new()], vec![Vec::new(); 3], vec![Vec::new(); 3]];
    assert!(Puzzle::new(1, marks, Vec::new()).is_none());
}

#[test]
fn puzzle_rejects_oversized_radius() {
    let marks = [Vec::new(), Vec::new(), Vec::new()];
    assert!(Puzzle::new(MAX_RADIUS + 1, marks, Vec::new()).is_none());
}

#[test]
fn validity_is_radius_and_water() {
    let p = puzzle(1, vec![Coord::new(0, 1)]);
    assert!(p.is_valid(Coord::new(0, 0)));
    assert!(p.is_valid(Coord::new(1, -1)));
    assert!(!p.is_valid(Coord::new(0, 1)));
    assert!(!p.is_valid(Coord::new(2, 0)));
    assert!(!p.is_valid(Coord::new(1, 1)));
}

#[test]
fn twiddling_needs_both_ends_valid() {
    let p = puzzle(1, vec![Coord::new(-1, 0)]);
    let b = Board::new();
    assert!(b.can_twiddle_path(&p, edge(0, 0, HexEdge::XY)));
    assert!(!b.can_twiddle_path(&p, edge(1, -1, HexEdge::XY)));
    assert!(!b.can_twiddle_path(&p, edge(0, 0, HexEdge::ZX)));
}

#[test]
fn illegal_edits_are_refused_and_change_nothing() {
    let p = puzzle(1, vec![Coord::new(-1, 0)]);
    let mut b = Board::new();
    assert_eq!(b.set_path(&p, edge(1, -1, HexEdge::XY), true), None);
    assert_eq!(b.set_path(&p, edge(0, 0, HexEdge::ZX), true), None);
    assert_eq!(b.get_path(edge(1, -1, HexEdge::XY)), None);
    assert_eq!(b.get_path(edge(0, 0, HexEdge::ZX)), None);
    assert_eq!(b.get_junction_count(Coord::new(0, 0)), 0);
}

#[test]
fn edits_far_outside_the_board_are_refused() {
    let p = puzzle(1, Vec::new());
    let mut b = Board::new();
    assert_eq!(b.set_path(&p, edge(i32::MAX, 0, HexEdge::XY), true), None);
    assert_eq!(b.set_path(&p, edge(0, i32::MIN, HexEdge::ZY), true), None);
    assert!(!b.can_twiddle_path(&p, edge(i32::MIN, i32::MAX, HexEdge::ZX)));
    assert!(!p.is_valid(Coord::new(i32::MIN, 0)));
    assert_eq!(b.get_path(edge(i32::MAX, 0, HexEdge::XY)), None);
}

#[test]
fn setting_twice_returns_false_then_true() {
    let p = puzzle(1, Vec::new());
    let mut b = Board::new();
    let e = edge(0, 0, HexEdge::XY);
    assert_eq!(b.set_path(&p, e, true), Some(false));
    assert_eq!(b.set_path(&p, e, true), Some(true));
    assert_eq!(b.get_path(e), Some(true));
}

#[test]
fn clearing_twice_returns_previous_then_false() {
    let p = puzzle(1, Vec::new());
    let mut b = Board::new();
    let e = edge(0, 0, HexEdge::ZY);
    b.set_path(&p, e, true);
    assert_eq!(b.set_path(&p, e, false), Some(true));
    assert_eq!(b.set_path(&p, e, false), Some(false));
}

#[test]
fn clearing_an_absent_cell_creates_no_entry() {
    let p = puzzle(1, Vec::new());
    let mut b = Board::new();
    let e = edge(0, 0, HexEdge::ZX);
    assert_eq!(b.set_path(&p, e, false), Some(false));
    assert_eq!(b.get_path(e), None);
}

#[test]
fn clearing_the_last_edge_removes_the_cell() {
    let p = puzzle(1, Vec::new());
    let mut b = Board::new();
    let xy = edge(0, 0, HexEdge::XY);
    let zy = edge(0, 0, HexEdge::ZY);
    b.set_path(&p, xy, true);
    b.set_path(&p, zy, true);
    assert_eq!(b.get_path(edge(0, 0, HexEdge::ZX)), Some(false));
    b.set_path(&p, xy, false);
    assert_eq!(b.get_path(xy), Some(false));
    assert_eq!(b.get_path(zy), Some(true));
    b.set_path(&p, zy, false);
    assert_eq!(b.get_path(xy), None);
    assert_eq!(b.get_path(zy), None);
}

#[test]
fn edge_sets_and_junction_counts() {
    let p = puzzle(2, Vec::new());
    let mut b = Board::new();
    assert!(b.get_paths(Coord::new(0, 0)).is_empty());
    b.set_path(&p, edge(0, 0, HexEdge::XY), true);
    b.set_path(&p, edge(0, 0, HexEdge::ZX), true);
    let s: EdgeSet = b.get_paths(Coord::new(0, 0));
    assert!(s.contains(HexEdge::XY));
    assert!(!s.contains(HexEdge::ZY));
    assert!(s.contains(HexEdge::ZX));
    assert_eq!(s.len(), 2);
    assert_eq!(b.get_junction_count(Coord::new(0, 0)), 2);
    assert_eq!(b.get_junction_count(Coord::new(1, -1)), 0);
    b.set_path(&p, edge(0, 0, HexEdge::ZY), true);
    assert_eq!(b.get_junction_count(Coord::new(0, 0)), 3);
    assert_eq!(EdgeSet::empty().len(), 0);
}

#[test]
fn an_edge_named_from_the_far_end_is_the_same_edge() {
    let p = puzzle(1, Vec::new());
    let mut b = Board::new();
    let (c, e) = canonicalize(Coord::new(1, -1), Direction::YX);
    assert_eq!(b.set_path(&p, EdgePos::new(c, e), true), Some(false));
    assert_eq!(b.get_path(edge(0, 0, HexEdge::XY)), Some(true));
}
