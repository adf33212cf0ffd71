//! Walks around a piece: what follows for every puzzle from the laws that a
//! puzzle has to prove.
use vstd::prelude::*;
use crate::puzzle::Puzzle;

verus! {

/// The point that is reached from `point` in `steps` steps around its piece.
pub open spec fn walk<P: Puzzle>(puzzle: &P, steps: nat, point: nat) -> nat
    decreases steps,
{
    if steps == 0 {
        point
    } else {
        walk(puzzle, (steps - 1) as nat, puzzle.next(point))
    }
}

/// A walk stays on its piece and among the points of the puzzle.
pub proof fn lemma_walk_stays<P: Puzzle>(puzzle: &P, steps: nat, point: nat)
    requires
        puzzle.wf(),
        point < 2 * puzzle.edges(),
    ensures
        walk(puzzle, steps, point) < 2 * puzzle.edges(),
        puzzle.piece_of(walk(puzzle, steps, point)) == puzzle.piece_of(point),
        puzzle.piece_of(point) < puzzle.pieces(),
    decreases steps,
{
    puzzle.lemma_next(point);
    if steps > 0 {
        lemma_walk_stays(puzzle, (steps - 1) as nat, puzzle.next(point));
    }
}

/// A walk of `a + b` steps is a walk of `a` steps and then one of `b`.
pub proof fn lemma_walk_add<P: Puzzle>(puzzle: &P, a: nat, b: nat, point: nat)
    ensures
        walk(puzzle, a + b, point) == walk(puzzle, b, walk(puzzle, a, point)),
    decreases a,
{
    if a > 0 {
        lemma_walk_add(puzzle, (a - 1) as nat, b, puzzle.next(point));
    }
}

/// The last step of a walk is a step from where the walk before it ends.
pub proof fn lemma_walk_last<P: Puzzle>(puzzle: &P, steps: nat, point: nat)
    ensures
        walk(puzzle, steps + 1, point) == puzzle.next(walk(puzzle, steps, point)),
{
    lemma_walk_add(puzzle, steps, 1, point);
    let end = walk(puzzle, steps, point);
    assert(walk(puzzle, 1, end) == walk(puzzle, 0, puzzle.next(end)));
}

/// While a walk has not come to the last point of the piece, each step takes
/// it one step further from the anchor.
pub proof fn lemma_walk_rank<P: Puzzle>(puzzle: &P, steps: nat, point: nat)
    requires
        puzzle.wf(),
        point < 2 * puzzle.edges(),
        puzzle.rank(point) + steps < puzzle.sides(puzzle.piece_of(point)),
    ensures
        puzzle.rank(walk(puzzle, steps, point)) == puzzle.rank(point) + steps,
    decreases steps,
{
    if steps > 0 {
        puzzle.lemma_rank(point);
        puzzle.lemma_next(point);
        lemma_walk_rank(puzzle, (steps - 1) as nat, puzzle.next(point));
    }
}

/// The walk from the anchor of its piece reaches a point in as many steps as
/// the point is from the anchor.
pub proof fn lemma_walk_from_anchor<P: Puzzle>(puzzle: &P, point: nat)
    requires
        puzzle.wf(),
        point < 2 * puzzle.edges(),
    ensures
        walk(puzzle, puzzle.rank(point), puzzle.anchor(puzzle.piece_of(point))) == point,
{
    let piece = puzzle.piece_of(point);
    let anchor = puzzle.anchor(piece);
    puzzle.lemma_next(point);
    puzzle.lemma_anchor(piece);
    puzzle.lemma_rank(point);
    lemma_walk_stays(puzzle, puzzle.rank(point), anchor);
    lemma_walk_rank(puzzle, puzzle.rank(point), anchor);
    puzzle.lemma_rank_injective(walk(puzzle, puzzle.rank(point), anchor), point);
}

/// The walk from a point reaches the anchor of its piece when it has passed
/// the last point of the piece.
pub proof fn lemma_walk_to_anchor<P: Puzzle>(puzzle: &P, point: nat)
    requires
        puzzle.wf(),
        point < 2 * puzzle.edges(),
    ensures
        walk(
            puzzle,
            (puzzle.sides(puzzle.piece_of(point)) - puzzle.rank(point)) as nat,
            point,
        ) == puzzle.anchor(puzzle.piece_of(point)),
        puzzle.rank(point) < puzzle.sides(puzzle.piece_of(point)),
{
    let piece = puzzle.piece_of(point);
    let anchor = puzzle.anchor(piece);
    let sides = puzzle.sides(piece);
    let rest = (sides - puzzle.rank(point) - 1) as nat;
    puzzle.lemma_next(point);
    puzzle.lemma_anchor(piece);
    puzzle.lemma_rank(point);
    let last = walk(puzzle, rest, point);
    lemma_walk_stays(puzzle, rest, point);
    lemma_walk_rank(puzzle, rest, point);
    lemma_walk_last(puzzle, rest, point);
    puzzle.lemma_rank(last);
    puzzle.lemma_next(last);
    puzzle.lemma_rank_injective(puzzle.next(last), anchor);
}

/// The walk around a piece comes back to where it started after as many
/// steps as the piece has points.
pub proof fn lemma_walk_around<P: Puzzle>(puzzle: &P, point: nat)
    requires
        puzzle.wf(),
        point < 2 * puzzle.edges(),
    ensures
        walk(puzzle, puzzle.sides(puzzle.piece_of(point)), point) == point,
{
    let piece = puzzle.piece_of(point);
    let sides = puzzle.sides(piece);
    let rank = puzzle.rank(point);
    lemma_walk_to_anchor(puzzle, point);
    lemma_walk_from_anchor(puzzle, point);
    lemma_walk_add(puzzle, (sides - rank) as nat, rank, point);
}

/// The walk does not come back before: after fewer steps than the piece has
/// points it is at another point.
pub proof fn lemma_walk_not_back<P: Puzzle>(puzzle: &P, steps: nat, point: nat)
    requires
        puzzle.wf(),
        point < 2 * puzzle.edges(),
        0 < steps < puzzle.sides(puzzle.piece_of(point)),
    ensures
        walk(puzzle, steps, point) != point,
{
    let piece = puzzle.piece_of(point);
    let sides = puzzle.sides(piece);
    let rank = puzzle.rank(point);
    puzzle.lemma_rank(point);
    if rank + steps < sides {
        lemma_walk_rank(puzzle, steps, point);
    } else {
        // the walk passes the anchor and goes on from there
        let first = (sides - rank) as nat;
        let rest = (steps - first) as nat;
        let anchor = puzzle.anchor(piece);
        lemma_walk_to_anchor(puzzle, point);
        lemma_walk_add(puzzle, first, rest, point);
        puzzle.lemma_next(point);
        puzzle.lemma_anchor(piece);
        lemma_walk_rank(puzzle, rest, anchor);
    }
}

/// The walk reaches every point of the piece: from one point of a piece to
/// another in fewer steps than the piece has points.
pub proof fn lemma_walk_reaches<P: Puzzle>(puzzle: &P, from: nat, to: nat) -> (steps: nat)
    requires
        puzzle.wf(),
        from < 2 * puzzle.edges(),
        to < 2 * puzzle.edges(),
        puzzle.piece_of(from) == puzzle.piece_of(to),
    ensures
        steps < puzzle.sides(puzzle.piece_of(from)),
        walk(puzzle, steps, from) == to,
{
    let piece = puzzle.piece_of(from);
    let sides = puzzle.sides(piece);
    puzzle.lemma_rank(to);
    lemma_walk_to_anchor(puzzle, from);
    lemma_walk_from_anchor(puzzle, to);
    if puzzle.rank(from) <= puzzle.rank(to) {
        let steps = (puzzle.rank(to) - puzzle.rank(from)) as nat;
        lemma_walk_from_anchor(puzzle, from);
        lemma_walk_add(puzzle, puzzle.rank(from), steps, puzzle.anchor(piece));
        steps
    } else {
        let first = (sides - puzzle.rank(from)) as nat;
        lemma_walk_add(puzzle, first, puzzle.rank(to), from);
        first + puzzle.rank(to)
    }
}

/// No two points are followed by the same point.
pub proof fn lemma_next_injective<P: Puzzle>(puzzle: &P, a: nat, b: nat)
    requires
        puzzle.wf(),
        a < 2 * puzzle.edges(),
        b < 2 * puzzle.edges(),
        puzzle.next(a) == puzzle.next(b),
    ensures
        a == b,
{
    puzzle.lemma_next(a);
    puzzle.lemma_next(b);
    puzzle.lemma_rank(a);
    puzzle.lemma_rank(b);
    puzzle.lemma_rank_injective(a, b);
}

/// No two walks of as many steps end at the same point.
pub proof fn lemma_walk_injective<P: Puzzle>(puzzle: &P, steps: nat, a: nat, b: nat)
    requires
        puzzle.wf(),
        a < 2 * puzzle.edges(),
        b < 2 * puzzle.edges(),
        walk(puzzle, steps, a) == walk(puzzle, steps, b),
    ensures
        a == b,
    decreases steps,
{
    if steps > 0 {
        puzzle.lemma_next(a);
        puzzle.lemma_next(b);
        lemma_walk_injective(puzzle, (steps - 1) as nat, puzzle.next(a), puzzle.next(b));
        lemma_next_injective(puzzle, a, b);
    }
}

/// Points that may be exchanged may still be after walks of as many steps.
pub proof fn lemma_walk_exchange<P: Puzzle>(puzzle: &P, steps: nat, a: nat, b: nat)
    requires
        puzzle.wf(),
        a < 2 * puzzle.edges(),
        b < 2 * puzzle.edges(),
        puzzle.exchangeable(a, b),
    ensures
        puzzle.exchangeable(walk(puzzle, steps, a), walk(puzzle, steps, b)),
        puzzle.sides(puzzle.piece_of(a)) == puzzle.sides(puzzle.piece_of(b)),
    decreases steps,
{
    puzzle.lemma_exchange_next(a, b);
    if steps > 0 {
        puzzle.lemma_next(a);
        puzzle.lemma_next(b);
        lemma_walk_exchange(puzzle, (steps - 1) as nat, puzzle.next(a), puzzle.next(b));
    }
}

} // verus!
