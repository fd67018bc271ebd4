use crop_circles::geom::{canonicalize, Angle, Coord, Direction, EdgePos, HexEdge};

const ALL: [Direction; 6] = [
    Direction::YZ,
    Direction::XZ,
    Direction::XY,
    Direction::ZY,
    Direction::ZX,
    Direction::YX,
];

#[test]
fn canonical_directions_are_kept() {
    let c = Coord::new(2, -1);
    assert_eq!(canonicalize(c, Direction::XY), (c, HexEdge::XY));
    assert_eq!(canonicalize(c, Direction::ZY), (c, HexEdge::ZY));
    assert_eq!(canonicalize(c, Direction::ZX), (c, HexEdge::ZX));
}

#[test]
fn other_directions_move_to_the_neighbour() {
    let c = Coord::new(0, 0);
    assert_eq!(canonicalize(c, Direction::YX), (Coord::new(-1, 1), HexEdge::XY));
    assert_eq!(canonicalize(c, Direction::YZ), (Coord::new(0, 1), HexEdge::ZY));
    assert_eq!(canonicalize(c, Direction::XZ), (Coord::new(1, 0), HexEdge::ZX));
}

#[test]
fn canonicalization_names_an_edge_the_same_from_both_ends() {
    for c in [Coord::new(0, 0), Coord::new(3, -7), Coord::new(-2, 5)] {
        for d in ALL {
            let named = canonicalize(c, d);
            let back = canonicalize(c.neighbor(d), d.rotate(Angle::Back));
            assert_eq!(named, back);
            let again = canonicalize(named.0, named.1.to_hex2d());
            assert_eq!(again, named);
        }
    }
}

#[test]
fn spans_gives_both_ends() {
    let e = EdgePos::new(Coord::new(1, 2), HexEdge::ZY);
    assert_eq!(e.spans(), [Coord::new(1, 2), Coord::new(1, 1)]);
    let e = EdgePos::new(Coord::new(1, 2), HexEdge::ZX);
    assert_eq!(e.spans(), [Coord::new(1, 2), Coord::new(0, 2)]);
}

#[test]
fn neighbours_follow_hex2d_unit_steps() {
    let c = Coord::new(4, -3);
    assert_eq!(c.neighbor(Direction::YZ), Coord::new(4, -2));
    assert_eq!(c.neighbor(Direction::XZ), Coord::new(5, -3));
    assert_eq!(c.neighbor(Direction::XY), Coord::new(5, -4));
    assert_eq!(c.neighbor(Direction::ZY), Coord::new(4, -4));
    assert_eq!(c.neighbor(Direction::ZX), Coord::new(3, -3));
    assert_eq!(c.neighbor(Direction::YX), Coord::new(3, -2));
}

#[test]
fn rotation_turns_by_sixty_degree_steps() {
    assert_eq!(Direction::XY.rotate(Angle::Back), Direction::YX);
    assert_eq!(Direction::XY.rotate(Angle::Right), Direction::ZY);
    assert_eq!(Direction::XY.rotate(Angle::Left), Direction::XZ);
    assert_eq!(Direction::YX.rotate(Angle::Right), Direction::YZ);
    assert_eq!(Direction::ZX.rotate(Angle::Forward), Direction::ZX);
    assert_eq!(Direction::YZ.rotate(Angle::LeftBack), Direction::ZX);
}

#[test]
fn offset_scales_the_unit_step() {
    assert_eq!(Coord::new(1, 1).offset(Direction::XY, 3), Coord::new(4, -2));
    assert_eq!(Coord::new(0, 0).offset(Direction::YZ, -2), Coord::new(0, -2));
    assert_eq!(Coord::new(5, 5).offset(Direction::ZX, 0), Coord::new(5, 5));
}

#[test]
fn distance_from_origin_is_hex_distance() {
    assert_eq!(Coord::new(0, 0).distance_from_origin(), 0);
    assert_eq!(Coord::new(2, -1).distance_from_origin(), 2);
    assert_eq!(Coord::new(3, 0).distance_from_origin(), 3);
    assert_eq!(Coord::new(-2, -1).distance_from_origin(), 3);
}

#[test]
fn direction_indices_match_hex2d_order() {
    for (i, d) in ALL.iter().enumerate() {
        assert_eq!(d.to_u8() as usize, i);
        assert_eq!(Direction::from_u8(i as u8), *d);
    }
}
