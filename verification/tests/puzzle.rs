use jigsaw_doubler::puzzle::square::{
    col_char, row_char, EdgeLoc, EdgeSide, PieceLoc, PieceLocationKind, PointLoc, PointSide,
};
use jigsaw_doubler::puzzle::{
    puzzle_edge_pairs, puzzle_edges, puzzle_exchange_points, puzzle_pieces, puzzle_point_pairs,
    puzzle_points, EdgeKey, PieceKey, PointKey, Puzzle, SquarePuzzle,
};

fn grids() -> Vec<SquarePuzzle> {
    vec![
        SquarePuzzle::new(2, 2),
        SquarePuzzle::new(3, 3),
        SquarePuzzle::new(2, 4),
        SquarePuzzle::new(4, 2),
        SquarePuzzle::new(5, 5),
        SquarePuzzle::new(3, 5),
    ]
}

fn nth_point_on_piece(puzzle: &SquarePuzzle, n: usize, point: PointKey) -> PointKey {
    let mut point = point;
    for _ in 0..n {
        point = puzzle.next_point_on_piece(point);
    }
    point
}

#[test]
fn fits_accepts_grids_with_an_even_sum() {
    assert!(SquarePuzzle::fits(2, 2));
    assert!(SquarePuzzle::fits(5, 5));
    assert!(SquarePuzzle::fits(2, 4));
    assert!(!SquarePuzzle::fits(1, 3));
    assert!(!SquarePuzzle::fits(3, 1));
    assert!(!SquarePuzzle::fits(2, 3));
    assert!(!SquarePuzzle::fits(0, 0));
    assert!(!SquarePuzzle::fits(1 << 20, 1 << 20));
}

#[test]
fn counts_of_a_grid() {
    let puzzle = SquarePuzzle::new(5, 5);
    assert_eq!(puzzle.num_pieces(), 25);
    assert_eq!(puzzle.num_vert_edges(), 20);
    assert_eq!(puzzle.num_horz_edges(), 20);
    assert_eq!(puzzle.num_edges(), 40);
    assert_eq!(puzzle.num_points(), 80);
    assert_eq!(puzzle.last_row(), 4);
    assert_eq!(puzzle.last_col(), 4);

    let puzzle = SquarePuzzle::new(2, 4);
    assert_eq!(puzzle.num_pieces(), 8);
    assert_eq!(puzzle.num_vert_edges(), 6);
    assert_eq!(puzzle.num_horz_edges(), 4);
    assert_eq!(puzzle.num_edges(), 10);
    assert_eq!(puzzle.num_points(), 20);
}

#[test]
fn keys_in_order() {
    let puzzle = SquarePuzzle::new(2, 2);
    assert_eq!(
        puzzle_pieces(&puzzle),
        vec![PieceKey(0), PieceKey(1), PieceKey(2), PieceKey(3)]
    );
    assert_eq!(
        puzzle_edges(&puzzle),
        vec![EdgeKey(0), EdgeKey(1), EdgeKey(2), EdgeKey(3)]
    );
    assert_eq!(puzzle_points(&puzzle).len(), 8);
    assert_eq!(puzzle_points(&puzzle)[7], PointKey(7));
    assert_eq!(
        puzzle_edge_pairs(&puzzle),
        vec![
            (EdgeKey(1), EdgeKey(0)),
            (EdgeKey(2), EdgeKey(0)),
            (EdgeKey(2), EdgeKey(1)),
            (EdgeKey(3), EdgeKey(0)),
            (EdgeKey(3), EdgeKey(1)),
            (EdgeKey(3), EdgeKey(2)),
        ]
    );
    assert_eq!(puzzle_point_pairs(&puzzle).len(), 28);
    assert_eq!(puzzle_point_pairs(&puzzle)[0], (PointKey(1), PointKey(0)));
    assert_eq!(puzzle_point_pairs(&puzzle)[27], (PointKey(7), PointKey(6)));
}

#[test]
fn point_keys_on_a_two_by_two_grid() {
    let puzzle = SquarePuzzle::new(2, 2);
    // edge 0 lies to the right of piece a1, edge 1 to the right of piece b1,
    // edge 2 below piece a1, edge 3 below piece a2
    assert_eq!(puzzle.format_edge(EdgeKey(0)), "a1|");
    assert_eq!(puzzle.format_edge(EdgeKey(1)), "b1|");
    assert_eq!(puzzle.format_edge(EdgeKey(2)), "a1_");
    assert_eq!(puzzle.format_edge(EdgeKey(3)), "a2_");
    assert_eq!(puzzle.format_point(PointKey(0)), "a1>");
    assert_eq!(puzzle.format_point(PointKey(1)), "a2<");
    assert_eq!(puzzle.format_point(PointKey(2)), "b1>");
    assert_eq!(puzzle.format_point(PointKey(3)), "b2<");
    assert_eq!(puzzle.format_point(PointKey(4)), "a1v");
    assert_eq!(puzzle.format_point(PointKey(5)), "b1^");
    assert_eq!(puzzle.format_point(PointKey(6)), "a2v");
    assert_eq!(puzzle.format_point(PointKey(7)), "b2^");
    assert_eq!(puzzle.point_piece(PointKey(0)), PieceKey(0));
    assert_eq!(puzzle.point_piece(PointKey(1)), PieceKey(1));
    assert_eq!(puzzle.point_piece(PointKey(5)), PieceKey(2));
    assert_eq!(puzzle.point_piece(PointKey(7)), PieceKey(3));
    assert_eq!(puzzle.arbitrary_point_on_piece(PieceKey(0)), PointKey(4));
    assert_eq!(puzzle.arbitrary_point_on_piece(PieceKey(3)), PointKey(7));
    assert_eq!(puzzle.next_point_on_piece(PointKey(4)), PointKey(0));
    assert_eq!(puzzle.next_point_on_piece(PointKey(0)), PointKey(4));
    assert_eq!(puzzle.other_point_on_edge(PointKey(4)), PointKey(5));
    assert_eq!(puzzle.point_edge(PointKey(5)), EdgeKey(2));
}

#[test]
fn upper_left_corner_is_exchanged_with_nothing_else() {
    for puzzle in grids() {
        let corner = puzzle.arbitrary_point_on_piece(PieceKey(0));
        assert_eq!(puzzle_exchange_points(&puzzle, corner), vec![corner]);
        let other = puzzle.next_point_on_piece(corner);
        assert_eq!(puzzle_exchange_points(&puzzle, other), vec![other]);
    }
}

#[test]
fn corners_borders_and_interior_do_not_mix() {
    let puzzle = SquarePuzzle::new(5, 5);
    // each point of another corner shares its orbit with one point of each of
    // the other two
    let up_right = puzzle.arbitrary_point_on_piece(PieceKey(4));
    let down_left = puzzle.arbitrary_point_on_piece(PieceKey(20));
    let down_right = puzzle.arbitrary_point_on_piece(PieceKey(24));
    assert_eq!(puzzle_exchange_points(&puzzle, up_right).len(), 3);
    assert!(puzzle.can_exchange(up_right, down_left));
    assert!(!puzzle.can_exchange(down_left, down_right));
    assert!(puzzle.can_exchange(down_left, puzzle.next_point_on_piece(down_right)));
    // a border piece: 12 border pieces, one point of each in the orbit
    let border = puzzle.arbitrary_point_on_piece(PieceKey(1));
    assert_eq!(puzzle_exchange_points(&puzzle, border).len(), 12);
    // an interior piece: 9 interior pieces with 4 points each
    let center = puzzle.arbitrary_point_on_piece(PieceKey(12));
    assert_eq!(puzzle_exchange_points(&puzzle, center).len(), 36);
    assert!(!puzzle.can_exchange(border, center));
    assert!(!puzzle.can_exchange(up_right, border));
}

#[test]
fn anchor_lies_on_its_piece() {
    for puzzle in grids() {
        for piece in puzzle_pieces(&puzzle) {
            let point = puzzle.arbitrary_point_on_piece(piece);
            assert_eq!(puzzle.point_piece(point), piece);
        }
    }
}

#[test]
fn walk_stays_on_the_piece_and_comes_back() {
    for puzzle in grids() {
        for point in puzzle_points(&puzzle) {
            let piece = puzzle.point_piece(point);
            let mut seen = vec![point];
            let mut next = puzzle.next_point_on_piece(point);
            while next != point {
                assert_eq!(puzzle.point_piece(next), piece);
                assert!(!seen.contains(&next));
                seen.push(next);
                assert!(seen.len() <= 4);
                next = puzzle.next_point_on_piece(next);
            }
            // every point of the piece is reached
            for other in puzzle_points(&puzzle) {
                assert_eq!(puzzle.point_piece(other) == piece, seen.contains(&other));
            }
        }
    }
}

#[test]
fn edges_have_two_points() {
    for puzzle in grids() {
        for edge in puzzle_edges(&puzzle) {
            let point = puzzle.arbitrary_point_on_edge(edge);
            let other = puzzle.other_point_on_edge(point);
            assert_ne!(point, other);
            assert_eq!(puzzle.point_edge(point), edge);
            assert_eq!(puzzle.point_edge(other), edge);
            assert_eq!(puzzle.other_point_on_edge(other), point);
            assert_ne!(puzzle.point_piece(point), puzzle.point_piece(other));
        }
        for x in puzzle_points(&puzzle) {
            for y in puzzle_points(&puzzle) {
                if puzzle.point_edge(x) == puzzle.point_edge(y) {
                    assert!(x == y || puzzle.other_point_on_edge(x) == y);
                }
            }
        }
    }
}

#[test]
fn exchange_is_an_equivalence_that_the_walk_respects() {
    for puzzle in [SquarePuzzle::new(2, 2), SquarePuzzle::new(3, 3), SquarePuzzle::new(2, 4)] {
        let points = puzzle_points(&puzzle);
        for &x in &points {
            assert!(puzzle.can_exchange(x, x));
            for &y in &points {
                if puzzle.can_exchange(x, y) {
                    assert!(puzzle.can_exchange(y, x));
                    assert!(puzzle.can_exchange(
                        puzzle.next_point_on_piece(x),
                        puzzle.next_point_on_piece(y)
                    ));
                    for &z in &points {
                        if puzzle.can_exchange(y, z) {
                            assert!(puzzle.can_exchange(x, z));
                        }
                    }
                }
            }
        }
    }
}

#[test]
fn nth_point_returns_after_the_number_of_sides() {
    let puzzle = SquarePuzzle::new(3, 3);
    // corner, border, interior
    for (piece, sides) in [(0, 2), (1, 3), (4, 4), (8, 2), (5, 3)] {
        let start = puzzle.arbitrary_point_on_piece(PieceKey(piece));
        assert_eq!(nth_point_on_piece(&puzzle, sides, start), start);
        for n in 1..sides {
            assert_ne!(nth_point_on_piece(&puzzle, n, start), start);
        }
    }
}

#[test]
fn places_next_to_a_place() {
    let loc = PieceLoc::new(2, 3);
    assert_eq!(loc, PieceLoc { row: 2, col: 3 });
    assert_eq!(loc.up_piece(), PieceLoc::new(1, 3));
    assert_eq!(loc.right_piece(), PieceLoc::new(2, 4));
    assert_eq!(loc.down_piece(), PieceLoc::new(3, 3));
    assert_eq!(loc.left_piece(), PieceLoc::new(2, 2));
    assert_eq!(loc.up_edge(), EdgeLoc::new_down(1, 3));
    assert_eq!(loc.right_edge(), EdgeLoc::new_right(2, 3));
    assert_eq!(loc.down_edge(), EdgeLoc::new_down(2, 3));
    assert_eq!(loc.left_edge(), EdgeLoc::new_right(2, 2));
    assert_eq!(EdgeLoc::new_right(2, 3), EdgeLoc { piece: loc, side: EdgeSide::Right });
    assert_eq!(EdgeLoc::new_down(2, 3), EdgeLoc { piece: loc, side: EdgeSide::Down });
    assert_eq!(PointLoc::new(loc, PointSide::Up), PointLoc::new_up(2, 3));
    assert_eq!(PointLoc::new_right(2, 3), PointLoc { piece: loc, side: PointSide::Right });
    assert_eq!(PointLoc::new_down(2, 3), PointLoc { piece: loc, side: PointSide::Down });
    assert_eq!(PointLoc::new_left(2, 3), PointLoc { piece: loc, side: PointSide::Left });
}

#[test]
fn keys_and_places_stand_for_each_other() {
    for puzzle in grids() {
        for piece in puzzle_pieces(&puzzle) {
            assert_eq!(puzzle.piece_key(puzzle.piece_loc(piece)), piece);
        }
        for edge in puzzle_edges(&puzzle) {
            assert_eq!(puzzle.edge_key(puzzle.edge_loc(edge)), edge);
        }
        for point in puzzle_points(&puzzle) {
            assert_eq!(puzzle.point_key(puzzle.point_loc(point)), point);
        }
    }
    let puzzle = SquarePuzzle::new(3, 5);
    // pieces are numbered row by row
    assert_eq!(puzzle.piece_loc(PieceKey(7)), PieceLoc::new(1, 2));
    assert_eq!(puzzle.piece_key(PieceLoc::new(2, 4)), PieceKey(14));
    // first the 12 edges between pieces side by side, then the 10 below pieces
    assert_eq!(puzzle.edge_loc(EdgeKey(5)), EdgeLoc::new_right(1, 1));
    assert_eq!(puzzle.edge_loc(EdgeKey(12)), EdgeLoc::new_down(0, 0));
    assert_eq!(puzzle.edge_loc(EdgeKey(21)), EdgeLoc::new_down(1, 4));
    assert_eq!(puzzle.edge_key(EdgeLoc::new_down(1, 4)), EdgeKey(21));
    // the two points of edge e are 2 e and 2 e + 1
    assert_eq!(puzzle.point_loc(PointKey(10)), PointLoc::new_right(1, 1));
    assert_eq!(puzzle.point_loc(PointKey(11)), PointLoc::new_left(1, 2));
    assert_eq!(puzzle.point_loc(PointKey(24)), PointLoc::new_down(0, 0));
    assert_eq!(puzzle.point_loc(PointKey(25)), PointLoc::new_up(1, 0));
    assert_eq!(puzzle.point_key(PointLoc::new_up(2, 4)), PointKey(43));
}

#[test]
fn kinds_of_places() {
    let puzzle = SquarePuzzle::new(3, 4);
    let kind = |row, col| puzzle.piece_location_kind(PieceLoc::new(row, col));
    assert_eq!(kind(0, 0), PieceLocationKind::UpLeft);
    assert_eq!(kind(0, 2), PieceLocationKind::Up);
    assert_eq!(kind(0, 3), PieceLocationKind::UpRight);
    assert_eq!(kind(1, 0), PieceLocationKind::Left);
    assert_eq!(kind(1, 1), PieceLocationKind::Center);
    assert_eq!(kind(1, 3), PieceLocationKind::Right);
    assert_eq!(kind(2, 0), PieceLocationKind::DownLeft);
    assert_eq!(kind(2, 1), PieceLocationKind::Down);
    assert_eq!(kind(2, 3), PieceLocationKind::DownRight);
}

#[test]
fn orbits_of_points() {
    let puzzle = SquarePuzzle::new(3, 3);
    let orbit = |point| puzzle.point_orbit(point);
    // the upper left corner is on its own
    assert_eq!(orbit(PointLoc::new_right(0, 0)), 0);
    assert_eq!(orbit(PointLoc::new_down(0, 0)), 1);
    // the other corners
    assert_eq!(orbit(PointLoc::new_down(0, 2)), 2);
    assert_eq!(orbit(PointLoc::new_left(0, 2)), 3);
    assert_eq!(orbit(PointLoc::new_left(2, 2)), 2);
    assert_eq!(orbit(PointLoc::new_up(2, 2)), 3);
    assert_eq!(orbit(PointLoc::new_up(2, 0)), 2);
    assert_eq!(orbit(PointLoc::new_right(2, 0)), 3);
    // the borders
    assert_eq!(orbit(PointLoc::new_right(0, 1)), 4);
    assert_eq!(orbit(PointLoc::new_down(0, 1)), 5);
    assert_eq!(orbit(PointLoc::new_left(0, 1)), 6);
    assert_eq!(orbit(PointLoc::new_down(1, 2)), 4);
    assert_eq!(orbit(PointLoc::new_left(1, 2)), 5);
    assert_eq!(orbit(PointLoc::new_up(1, 2)), 6);
    assert_eq!(orbit(PointLoc::new_left(2, 1)), 4);
    assert_eq!(orbit(PointLoc::new_up(2, 1)), 5);
    assert_eq!(orbit(PointLoc::new_right(2, 1)), 6);
    assert_eq!(orbit(PointLoc::new_up(1, 0)), 4);
    assert_eq!(orbit(PointLoc::new_right(1, 0)), 5);
    assert_eq!(orbit(PointLoc::new_down(1, 0)), 6);
    // the interior
    for side in [PointSide::Up, PointSide::Right, PointSide::Down, PointSide::Left] {
        assert_eq!(orbit(PointLoc::new(PieceLoc::new(1, 1), side)), 7);
    }
}

#[test]
fn letters_and_digits() {
    assert_eq!(row_char(0), 'a');
    assert_eq!(row_char(25), 'z');
    assert_eq!(col_char(0), '1');
    assert_eq!(col_char(8), '9');
    let puzzle = SquarePuzzle::new(3, 5);
    assert!(puzzle.is_printable());
    assert_eq!(puzzle.format_point(PointKey(43)), "c5^");
    assert_eq!(puzzle.format_edge(EdgeKey(21)), "b5_");
    assert!(!SquarePuzzle::new(28, 2).is_printable());
    assert!(!SquarePuzzle::new(2, 10).is_printable());
    assert!(SquarePuzzle::new(26, 8).is_printable());
}

#[test]
fn next_point_walks_around_each_kind_of_piece() {
    let puzzle = SquarePuzzle::new(3, 3);
    let walk = |row, col, sides: &[PointSide]| {
        for (i, side) in sides.iter().enumerate() {
            let from = puzzle.point_key(PointLoc::new(PieceLoc::new(row, col), *side));
            let to = PointLoc::new(PieceLoc::new(row, col), sides[(i + 1) % sides.len()]);
            assert_eq!(puzzle.next_point_on_piece(from), puzzle.point_key(to));
        }
    };
    let (up, right, down, left) =
        (PointSide::Up, PointSide::Right, PointSide::Down, PointSide::Left);
    walk(0, 0, &[right, down]);
    walk(0, 2, &[down, left]);
    walk(2, 2, &[left, up]);
    walk(2, 0, &[up, right]);
    walk(0, 1, &[right, down, left]);
    walk(1, 2, &[down, left, up]);
    walk(2, 1, &[left, up, right]);
    walk(1, 0, &[up, right, down]);
    walk(1, 1, &[up, right, down, left]);
}
