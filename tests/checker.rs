use crop_circles::geom::{canonicalize, Coord, Direction, EdgePos, HexEdge};
use crop_circles::puzzle::checker::FailureReason;
use crop_circles::puzzle::{Board, Puzzle};

fn empty_marks(radius: u32) -> [Vec<Vec<u8>>; 3] {
    let n = 2 * radius as usize + 1;
    [vec![Vec::new(); n], vec![Vec::new(); n], vec![Vec::new(); n]]
}

fn open_puzzle(radius: u32) -> Puzzle {
    Puzzle::new(radius, empty_marks(radius), Vec::new()).unwrap()
}

/// Draws the edge from `c` towards `d`.
fn draw(b: &mut Board, p: &Puzzle, c: Coord, d: Direction) {
    let (base, e) = canonicalize(c, d);
    assert_eq!(b.set_path(p, EdgePos::new(base, e), true), Some(false));
}

/// Draws the edges between consecutive cells of `cells`.
fn draw_path(b: &mut Board, p: &Puzzle, cells: &[Coord]) {
    for w in cells.windows(2) {
        let d = direction_between(w[0], w[1]);
        draw(b, p, w[0], d);
    }
}

fn direction_between(a: Coord, b: Coord) -> Direction {
    for d in [
        Direction::YZ,
        Direction::XZ,
        Direction::XY,
        Direction::ZY,
        Direction::ZX,
        Direction::YX,
    ] {
        if a.neighbor(d) == b {
            return d;
        }
    }
    panic!("cells are not neighbours");
}

fn ring() -> Vec<Coord> {
    vec![
        Coord::new(0, 1),
        Coord::new(1, 0),
        Coord::new(1, -1),
        Coord::new(0, -1),
        Coord::new(-1, 0),
        Coord::new(-1, 1),
        Coord::new(0, 1),
    ]
}

fn canonical_edge(a: Coord, b: Coord) -> (Coord, HexEdge) {
    canonicalize(a, direction_between(a, b))
}

#[test]
fn hexagon_ring_gives_a_closed_trail_over_every_edge() {
    let p = open_puzzle(1);
    let mut b = Board::new();
    draw_path(&mut b, &p, &ring());
    let t = b.find_euler_path().expect("a ring is one pass");
    assert_eq!(t.len(), 7);
    assert_eq!(t[0], t[6]);
    for i in 0..6 {
        for j in (i + 1)..6 {
            assert_ne!(t[i], t[j]);
        }
    }
    let mut used = Vec::new();
    for w in t.windows(2) {
        let e = canonical_edge(w[0], w[1]);
        assert!(!used.contains(&e));
        used.push(e);
    }
    for w in ring().windows(2) {
        assert!(used.contains(&canonical_edge(w[0], w[1])));
    }
}

#[test]
fn open_path_trail_runs_between_the_odd_cells() {
    let p = open_puzzle(2);
    let mut b = Board::new();
    let cells = [Coord::new(-1, 0), Coord::new(0, 0), Coord::new(1, -1), Coord::new(2, -2)];
    draw_path(&mut b, &p, &cells);
    let t = b.find_euler_path().unwrap();
    assert_eq!(t.len(), 4);
    let forward = t == cells.to_vec();
    let mut rev = cells.to_vec();
    rev.reverse();
    assert!(forward || t == rev);
}

#[test]
fn empty_board_has_no_trail_and_is_not_solved() {
    let p = open_puzzle(1);
    let b = Board::new();
    assert_eq!(b.find_euler_path(), None);
    assert_eq!(b.is_solved(&p), Err(FailureReason::NotSinglePass));
}

#[test]
fn ring_with_unconstrained_flanks_is_solved() {
    let p = open_puzzle(1);
    let mut b = Board::new();
    draw_path(&mut b, &p, &ring());
    assert_eq!(b.is_solved(&p), Ok(()));
}

#[test]
fn three_separate_edges_are_not_one_pass() {
    let p = open_puzzle(3);
    let mut b = Board::new();
    draw(&mut b, &p, Coord::new(-3, 0), Direction::XY);
    draw(&mut b, &p, Coord::new(0, 0), Direction::XY);
    draw(&mut b, &p, Coord::new(2, 0), Direction::ZY);
    assert_eq!(b.find_euler_path(), None);
    assert_eq!(b.is_solved(&p), Err(FailureReason::NotSinglePass));
}

#[test]
fn two_separate_triangles_are_not_one_pass() {
    // every cell has even degree, but the edges fall apart
    let p = open_puzzle(3);
    let mut b = Board::new();
    draw_path(&mut b, &p, &[Coord::new(0, 0), Coord::new(1, 0), Coord::new(1, -1), Coord::new(0, 0)]);
    draw_path(&mut b, &p, &[Coord::new(-2, 0), Coord::new(-2, 1), Coord::new(-3, 1), Coord::new(-2, 0)]);
    assert_eq!(b.find_euler_path(), None);
    assert_eq!(b.is_solved(&p), Err(FailureReason::NotSinglePass));
}

#[test]
fn four_odd_cells_are_not_one_pass() {
    // a cell with three edges to three leaves: four cells of odd degree
    let p = open_puzzle(2);
    let mut b = Board::new();
    draw(&mut b, &p, Coord::new(0, 0), Direction::XY);
    draw(&mut b, &p, Coord::new(0, 0), Direction::ZY);
    draw(&mut b, &p, Coord::new(0, 0), Direction::ZX);
    assert_eq!(b.find_euler_path(), None);
    assert_eq!(b.is_solved(&p), Err(FailureReason::NotSinglePass));
}

fn flank_puzzle(radius: u32, slot: usize, want: Vec<u8>) -> Puzzle {
    let mut marks = empty_marks(radius);
    marks[0][slot] = want;
    Puzzle::new(radius, marks, Vec::new()).unwrap()
}

#[test]
fn middle_slot_expecting_two_passes_with_two_edges_at_the_boundary_cell() {
    let p = flank_puzzle(1, 1, vec![2]);
    let mut b = Board::new();
    // the boundary cell (-1, 1) gets two edges; the path is (0,0) - (-1,1) - (-1,0)
    draw(&mut b, &p, Coord::new(-1, 1), Direction::XY);
    draw(&mut b, &p, Coord::new(-1, 1), Direction::ZY);
    assert_eq!(b.get_junction_count(Coord::new(-1, 1)), 2);
    assert_eq!(b.get_junction_count(Coord::new(0, 0)), 0);
    assert_eq!(b.get_junction_count(Coord::new(1, -1)), 0);
    assert_eq!(b.is_solved(&p), Ok(()));
}

#[test]
fn middle_slot_expecting_two_fails_with_one_edge_at_the_boundary_cell() {
    let p = flank_puzzle(1, 1, vec![2]);
    let mut b = Board::new();
    draw(&mut b, &p, Coord::new(-1, 1), Direction::XY);
    assert_eq!(b.get_junction_count(Coord::new(-1, 1)), 1);
    assert_eq!(b.is_solved(&p), Err(FailureReason::CountFailed));
}

/// A claw at the origin closed into one pass by an edge from (-1,0) to (0,-1).
fn claw_board(p: &Puzzle) -> Board {
    let mut b = Board::new();
    draw(&mut b, p, Coord::new(0, 0), Direction::XY);
    draw(&mut b, p, Coord::new(0, 0), Direction::ZY);
    draw(&mut b, p, Coord::new(0, 0), Direction::ZX);
    draw(&mut b, p, Coord::new(-1, 0), Direction::XY);
    b
}

#[test]
fn zero_junction_cells_are_skipped() {
    // slot 2 of radius 2 scans (-2,2), (-1,1), (0,0), (1,-1), (2,-2): 0, 0, 3, 0, 0
    let p = flank_puzzle(2, 2, vec![3]);
    let b = claw_board(&p);
    assert_eq!(b.get_junction_count(Coord::new(0, 0)), 3);
    assert_eq!(b.is_solved(&p), Ok(()));
}

#[test]
fn a_wrong_count_fails() {
    let p = flank_puzzle(2, 2, vec![2]);
    let b = claw_board(&p);
    assert_eq!(b.is_solved(&p), Err(FailureReason::CountFailed));
}

fn claw_puzzle(flank: usize, slot: usize, want: Vec<u8>) -> Puzzle {
    let mut marks = empty_marks(2);
    marks[flank][slot] = want;
    Puzzle::new(2, marks, Vec::new()).unwrap()
}

#[test]
fn a_missing_junction_fails() {
    let p = claw_puzzle(0, 2, vec![3, 1]);
    let b = claw_board(&p);
    assert_eq!(b.is_solved(&p), Err(FailureReason::CountFailed));
}

#[test]
fn a_slot_of_empty_cells_fails_an_expectation() {
    // slot 1 of flank XY scans (-1,2), (0,1), (1,0), (2,-1): no junction at all
    let p = claw_puzzle(0, 1, vec![1]);
    let b = claw_board(&p);
    assert_eq!(b.is_solved(&p), Err(FailureReason::CountFailed));
}

#[test]
fn an_extra_junction_fails() {
    // the middle slot of flank ZX scans (2,0), (1,0), (0,0), (-1,0), (-2,0): 0, 0, 3, 1, 0
    let p = claw_puzzle(2, 2, vec![3]);
    let b = claw_board(&p);
    assert_eq!(b.is_solved(&p), Err(FailureReason::CountFailed));
}

#[test]
fn other_flanks_are_scanned_too() {
    // the middle slot of flank YZ scans (0,-2), (0,-1), (0,0), (0,1), (0,2): 0, 0, 3, 0, 0
    let p = claw_puzzle(1, 2, vec![3]);
    let b = claw_board(&p);
    assert_eq!(b.is_solved(&p), Ok(()));
    let p = claw_puzzle(2, 2, vec![3, 1]);
    let b = claw_board(&p);
    assert_eq!(b.is_solved(&p), Ok(()));
    let p = claw_puzzle(2, 2, vec![1, 3]);
    let b = claw_board(&p);
    assert_eq!(b.is_solved(&p), Err(FailureReason::CountFailed));
}
