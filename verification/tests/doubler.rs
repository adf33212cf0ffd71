use jigsaw_doubler::doubler::{Doubling, JigsawDoubler, SearchError};
use jigsaw_doubler::encoding::Status;
use jigsaw_doubler::literal::Literal;
use jigsaw_doubler::puzzle::{
    puzzle_edge_pairs, puzzle_pieces, puzzle_points, EdgeKey, PointKey, Puzzle, SquarePuzzle,
};

fn encoded(puzzle: SquarePuzzle) -> JigsawDoubler<SquarePuzzle> {
    let mut doubler = JigsawDoubler::new(puzzle);
    doubler.encode();
    doubler
}

fn all_solutions(puzzle: SquarePuzzle) -> Vec<Doubling> {
    let mut doubler = encoded(puzzle);
    let mut solutions = vec![];
    while let Some(solution) = doubler.next_solution().expect("the search failed") {
        solutions.push(solution);
    }
    solutions
}

/// Whether the formula of the puzzle, without any solution ruled out, has a
/// model in which the pieces go where `point_dest` says.
fn solves_again(puzzle: SquarePuzzle, point_dest: &[(PointKey, PointKey)]) -> bool {
    let doubler = encoded(puzzle);
    let fixed: Vec<Literal> = point_dest
        .iter()
        .map(|(src, dest)| doubler.point_dest_var(*src, *dest).expect("a pair without variable"))
        .collect();
    let mut sat = doubler.into_sat();
    sat.and_clause(&fixed);
    sat.solve().is_some()
}

#[test]
fn two_by_two_has_one_doubling() {
    // the upper left and the lower right corner stay; the other two corners
    // change places, each turned by half a turn
    let puzzle = SquarePuzzle::new(2, 2);
    let solutions = all_solutions(puzzle);
    assert_eq!(solutions.len(), 1);
    assert_eq!(
        solutions[0].point_dest,
        vec![
            (PointKey(4), PointKey(4)),
            (PointKey(6), PointKey(5)),
            (PointKey(5), PointKey(6)),
            (PointKey(7), PointKey(7)),
        ]
    );
    assert_eq!(
        solutions[0].edge_matching,
        vec![(EdgeKey(0), EdgeKey(1)), (EdgeKey(2), EdgeKey(3))]
    );
}

#[test]
fn two_by_two_doubling_is_written_out() {
    let mut doubler = encoded(SquarePuzzle::new(2, 2));
    let solution = doubler.next_solution().unwrap().unwrap();
    assert_eq!(
        doubler.point_dest_text(&solution.point_dest),
        "piece dest: a1v=>a1v a2v=>b1^ b1^=>a2v b2^=>b2^"
    );
    assert_eq!(
        doubler.edge_matching_text(&solution.edge_matching),
        "edge matching: a1|=b1| a1_=a2_"
    );
    assert_eq!(doubler.point_dest_text(&vec![]), "piece dest: ");
    assert_eq!(doubler.edge_matching_text(&vec![]), "edge matching: ");
}

#[test]
fn small_grids_have_their_doublings() {
    assert_eq!(all_solutions(SquarePuzzle::new(3, 3)).len(), 7);
    assert_eq!(all_solutions(SquarePuzzle::new(2, 4)).len(), 1);
    assert_eq!(all_solutions(SquarePuzzle::new(4, 2)).len(), 1);
}

#[test]
fn search_ends_when_every_doubling_is_ruled_out() {
    let mut doubler = encoded(SquarePuzzle::new(2, 2));
    assert!(doubler.next_solution().unwrap().is_some());
    assert!(doubler.next_solution().unwrap().is_none());
    assert!(doubler.next_solution().unwrap().is_none());
}

#[test]
fn every_doubling_moves_each_piece_to_one_place() {
    let puzzle = SquarePuzzle::new(3, 3);
    for solution in all_solutions(puzzle) {
        // one destination for each piece, in order of the pieces
        assert_eq!(solution.point_dest.len(), puzzle.num_pieces());
        let mut places = vec![];
        for (piece, (src, dest)) in puzzle_pieces(&puzzle).iter().zip(&solution.point_dest) {
            assert_eq!(*src, puzzle.arbitrary_point_on_piece(*piece));
            assert!(puzzle.can_exchange(*src, *dest));
            places.push(puzzle.point_piece(*dest));
        }
        // no place is taken twice
        places.sort();
        assert_eq!(places, puzzle_pieces(&puzzle));
        // every seam is cut: no piece keeps a neighbour across the same edge
        for edge in jigsaw_doubler::puzzle::puzzle_edges(&puzzle) {
            let point = puzzle.arbitrary_point_on_edge(edge);
            let other = puzzle.other_point_on_edge(point);
            let near = moved(&puzzle, &solution, point);
            let far = moved(&puzzle, &solution, other);
            assert_ne!(puzzle.other_point_on_edge(near), far);
        }
        // every edge has the shape of exactly one other edge
        for edge in jigsaw_doubler::puzzle::puzzle_edges(&puzzle) {
            let partners = solution
                .edge_matching
                .iter()
                .filter(|(a, b)| *a == edge || *b == edge)
                .count();
            assert_eq!(partners, 1);
        }
    }
}

/// Where `point` comes to lie in the doubling.
fn moved(puzzle: &SquarePuzzle, solution: &Doubling, point: PointKey) -> PointKey {
    let piece = puzzle.point_piece(point);
    let (anchor, dest) = solution.point_dest[piece.0];
    let mut src = anchor;
    let mut dest = dest;
    while src != point {
        src = puzzle.next_point_on_piece(src);
        dest = puzzle.next_point_on_piece(dest);
    }
    dest
}

#[test]
fn edge_matching_is_sorted() {
    let puzzle = SquarePuzzle::new(4, 4);
    let mut doubler = encoded(puzzle);
    let mut reordered = 0;
    let mut count = 0;
    while let Some(solution) = doubler.next_solution().unwrap() {
        count += 1;
        // the pairs as they are met: by the larger edge, then by the smaller
        let met: Vec<(EdgeKey, EdgeKey)> = puzzle_edge_pairs(&puzzle)
            .into_iter()
            .filter(|(a, b)| {
                doubler
                    .edge_matching_var(*a, *b)
                    .map(|var| solution.model.get(var))
                    .unwrap_or(false)
            })
            .map(|(a, b)| (b, a))
            .collect();
        let mut sorted = met.clone();
        sorted.sort();
        assert_eq!(solution.edge_matching, sorted);
        if met != sorted {
            reordered += 1;
        }
    }
    assert_eq!(count, 63);
    assert!(reordered > 0);
}

#[test]
fn four_by_four_doublings_solve_again() {
    let puzzle = SquarePuzzle::new(4, 4);
    let solutions = all_solutions(puzzle);
    assert_eq!(solutions.len(), 63);
    for solution in solutions.iter().take(12) {
        assert!(solves_again(puzzle, &solution.point_dest));
    }
}

#[test]
fn five_by_five_has_a_doubling_that_solves_again() {
    let puzzle = SquarePuzzle::new(5, 5);
    let mut doubler = encoded(puzzle);
    assert_eq!(doubler.status(), Status::Building);
    let solution = doubler.next_solution().unwrap().expect("no doubling");
    assert_eq!(solution.point_dest.len(), 25);
    assert_eq!(solution.edge_matching.len(), 20);
    assert!(solves_again(puzzle, &solution.point_dest));
}

#[test]
fn a_mapping_that_is_no_doubling_does_not_solve() {
    // every piece stays where it is: no seam is cut
    let puzzle = SquarePuzzle::new(3, 3);
    let stay: Vec<(PointKey, PointKey)> = puzzle_pieces(&puzzle)
        .into_iter()
        .map(|piece| puzzle.arbitrary_point_on_piece(piece))
        .map(|point| (point, point))
        .collect();
    assert!(!solves_again(puzzle, &stay));
}

#[test]
fn built_is_new_and_then_encode() {
    let puzzle = SquarePuzzle::new(3, 3);
    let built = JigsawDoubler::built(puzzle);
    let encoded = encoded(puzzle);
    assert_eq!(built.status(), encoded.status());
    assert_eq!(built.puzzle_ref(), encoded.puzzle_ref());
    for src in puzzle_points(&puzzle) {
        for dest in puzzle_points(&puzzle) {
            assert_eq!(built.point_dest_var(src, dest), encoded.point_dest_var(src, dest));
        }
    }
    assert_eq!(built.into_sat().num_vars(), encoded.into_sat().num_vars());
}

#[test]
fn encoding_builds_without_defect() {
    for puzzle in [
        SquarePuzzle::new(2, 2),
        SquarePuzzle::new(3, 3),
        SquarePuzzle::new(2, 4),
        SquarePuzzle::new(4, 4),
    ] {
        let doubler = encoded(puzzle);
        assert_eq!(doubler.status(), Status::Building);
    }
}

#[test]
fn two_runs_build_the_same_formula() {
    let puzzle = SquarePuzzle::new(3, 3);
    let first = encoded(puzzle);
    let second = encoded(puzzle);
    assert_eq!(first.status(), second.status());
    for src in puzzle_points(&puzzle) {
        for dest in puzzle_points(&puzzle) {
            assert_eq!(first.point_dest_var(src, dest), second.point_dest_var(src, dest));
        }
    }
    for (a, b) in puzzle_edge_pairs(&puzzle) {
        assert_eq!(first.edge_matching_var(a, b), second.edge_matching_var(a, b));
        assert_eq!(first.edge_matching_var(a, b), first.edge_matching_var(b, a));
    }
    let first = first.into_sat();
    let second = second.into_sat();
    assert_eq!(first.num_vars(), second.num_vars());
}

#[test]
fn destination_variables_follow_the_walk() {
    let puzzle = SquarePuzzle::new(3, 3);
    let mut doubler = JigsawDoubler::new(puzzle);
    doubler.add_point_dest_vars();
    assert_eq!(doubler.status(), Status::Building);
    for src in puzzle_points(&puzzle) {
        for dest in puzzle_points(&puzzle) {
            let var = doubler.point_dest_var(src, dest);
            // a pair has a variable exactly when the points may be exchanged
            assert_eq!(var.is_some(), puzzle.can_exchange(src, dest));
            if let Some(var) = var {
                assert!(matches!(var, Literal::Var { negated: false, .. }));
                // and shares it with the pair that follows around the pieces
                assert_eq!(
                    doubler.point_dest_var(
                        puzzle.next_point_on_piece(src),
                        puzzle.next_point_on_piece(dest)
                    ),
                    Some(var)
                );
            }
        }
    }
}

#[test]
fn first_stage_hands_out_one_variable_for_each_move() {
    // 2 x 2: the upper left corner has one place to go, each other corner
    // three
    let mut doubler = JigsawDoubler::new(SquarePuzzle::new(2, 2));
    doubler.add_point_dest_vars();
    assert_eq!(doubler.into_sat().num_vars(), 10);
}

#[test]
fn one_place_for_a_piece_without_places_is_a_contradiction() {
    // no destination variables have been handed out
    let mut doubler = JigsawDoubler::new(SquarePuzzle::new(2, 2));
    doubler.add_one_hot_point_dest();
    assert_eq!(doubler.status(), Status::Contradiction);
    // the first thing that goes wrong is kept
    doubler.add_point_dest_adjacent_not_same();
    assert_eq!(doubler.status(), Status::Contradiction);
    // and there is no doubling
    assert!(doubler.next_solution().unwrap().is_none());
}

#[test]
fn cutting_seams_before_the_pairs_have_literals_misses_a_literal() {
    let mut doubler = JigsawDoubler::new(SquarePuzzle::new(2, 2));
    doubler.add_point_dest_vars();
    doubler.add_point_dest_adjacent_not_same();
    assert_eq!(doubler.status(), Status::MissingVar);
    match doubler.next_solution() {
        Err(SearchError::Unbuilt(Status::MissingVar)) => {}
        _ => panic!("a search that was not built gave an answer"),
    }
}

#[test]
fn handing_out_the_variables_twice_meets_every_pair_twice() {
    let mut doubler = JigsawDoubler::new(SquarePuzzle::new(2, 2));
    doubler.add_point_dest_vars();
    assert_eq!(doubler.status(), Status::Building);
    let before = doubler.point_dest_var(PointKey(4), PointKey(4));
    doubler.add_point_dest_vars();
    assert_eq!(doubler.status(), Status::KeyMetTwice);
    // the pair keeps the literal that it had
    assert_eq!(doubler.point_dest_var(PointKey(4), PointKey(4)), before);
    assert_eq!(
        doubler.next_solution().err(),
        Some(SearchError::Unbuilt(Status::KeyMetTwice))
    );
}

#[test]
fn stages_one_by_one_are_the_whole_construction() {
    let puzzle = SquarePuzzle::new(3, 3);
    let mut doubler = JigsawDoubler::new(puzzle);
    doubler.add_point_dest_vars();
    doubler.add_one_hot_point_dest();
    doubler.add_one_hot_point_src();
    doubler.add_point_dest_adjacent_vars();
    doubler.add_point_dest_adjacent_not_same();
    doubler.add_edge_matching_vars();
    doubler.add_one_hot_edge_matching();
    let whole = encoded(puzzle);
    assert_eq!(doubler.status(), whole.status());
    for (a, b) in puzzle_edge_pairs(&puzzle) {
        assert_eq!(doubler.edge_matching_var(a, b), whole.edge_matching_var(a, b));
    }
    assert_eq!(doubler.into_sat().num_vars(), whole.into_sat().num_vars());
}

#[test]
fn ruling_out_a_doubling_rules_it_out() {
    let puzzle = SquarePuzzle::new(3, 3);
    let mut doubler = encoded(puzzle);
    let mut seen: Vec<Vec<(PointKey, PointKey)>> = vec![];
    while let Some(solution) = doubler.next_solution().unwrap() {
        assert!(!seen.contains(&solution.point_dest));
        // what the model says is what was read off it
        assert_eq!(doubler.point_dest(&solution.model), solution.point_dest);
        assert_eq!(doubler.edge_matching(&solution.model), solution.edge_matching);
        seen.push(solution.point_dest);
    }
    assert_eq!(seen.len(), 7);
}

#[test]
fn the_whole_search_finds_what_the_queries_find_one_by_one() {
    for (rows, cols) in [(2, 2), (3, 3), (2, 4)] {
        let one_by_one = all_solutions(SquarePuzzle::new(rows, cols));
        let mut doubler = encoded(SquarePuzzle::new(rows, cols));
        let at_once = doubler.all_solutions().unwrap();
        assert_eq!(at_once.len(), one_by_one.len());
        for (a, b) in at_once.iter().zip(&one_by_one) {
            assert_eq!(a.point_dest, b.point_dest);
            assert_eq!(a.edge_matching, b.edge_matching);
        }
        // no two answers send the pieces to the same places
        for (i, a) in at_once.iter().enumerate() {
            for b in &at_once[..i] {
                assert_ne!(a.point_dest, b.point_dest);
            }
        }
        // nothing is left to find
        assert!(doubler.next_solution().unwrap().is_none());
        assert_eq!(doubler.all_solutions().unwrap().len(), 0);
    }
}

#[test]
fn the_whole_search_counts_the_doublings_of_small_grids() {
    assert_eq!(encoded(SquarePuzzle::new(2, 2)).all_solutions().unwrap().len(), 1);
    assert_eq!(encoded(SquarePuzzle::new(3, 3)).all_solutions().unwrap().len(), 7);
}

#[test]
fn the_whole_search_refuses_a_formula_that_was_not_built() {
    let mut doubler = JigsawDoubler::new(SquarePuzzle::new(2, 2));
    doubler.add_point_dest_vars();
    doubler.add_point_dest_adjacent_not_same();
    assert_eq!(
        doubler.all_solutions().err(),
        Some(SearchError::Unbuilt(Status::MissingVar))
    );
}
