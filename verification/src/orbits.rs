//! The table of destination variables: which pairs of points it holds, and
//! which of them share a variable.
use vstd::prelude::*;
use crate::encoding::{orbit_put, Encoding, Status};
use crate::literal::{Literal, MAX_VARIABLES};
use crate::puzzle::{exchange_points, Puzzle};
use crate::walk::{
    lemma_walk_add, lemma_walk_around, lemma_walk_exchange, lemma_walk_from_anchor,
    lemma_walk_last, lemma_walk_rank, lemma_walk_stays, lemma_walk_to_anchor, walk,
};

verus! {

/// Where the anchor of the piece of `s` goes when `s` goes to `d`: the point
/// from which `d` is as many steps as `s` is from its anchor.
pub open spec fn origin<P: Puzzle>(puzzle: &P, s: nat, d: nat) -> nat {
    walk(puzzle, (puzzle.sides(puzzle.piece_of(s)) - puzzle.rank(s)) as nat, d)
}

/// Whether the pair `(s, d)` has been entered when the pieces below `piece`
/// are done, of the piece `piece` the destinations in `dests` are done, and
/// of the destination `current` the first `steps` pairs.
pub open spec fn entered<P: Puzzle>(
    puzzle: &P,
    s: nat,
    d: nat,
    piece: nat,
    dests: Seq<nat>,
    current: nat,
    steps: nat,
) -> bool {
    puzzle.piece_of(s) < piece || (puzzle.piece_of(s) == piece && (dests.contains(
        origin(puzzle, s, d),
    ) || (origin(puzzle, s, d) == current && puzzle.rank(s) < steps)))
}

/// Whether the table holds exactly the pairs of points that may be exchanged
/// and have been entered, each with a variable that is not negated, and the
/// pairs that come from the same move of a piece with the same variable.
pub open spec fn table_is<P: Puzzle>(
    puzzle: &P,
    table: Map<(nat, nat), Literal>,
    piece: nat,
    dests: Seq<nat>,
    current: nat,
    steps: nat,
) -> bool {
    forall|s: nat, d: nat|
        #![trigger table.contains_key((s, d))]
        {
            &&& table.contains_key((s, d)) <==> s < 2 * puzzle.edges() && d < 2 * puzzle.edges()
                && puzzle.exchangeable(s, d) && entered(puzzle, s, d, piece, dests, current, steps)
            &&& table.contains_key((s, d)) ==> table[(s, d)] is Var && !table[(s, d)]->negated
                && table.contains_key((puzzle.anchor(puzzle.piece_of(s)), origin(puzzle, s, d)))
                && table[(s, d)] == table[(
                puzzle.anchor(puzzle.piece_of(s)),
                origin(puzzle, s, d),
            )]
        }
}

/// The pair that is `steps` steps around the two pieces from the pair of an
/// anchor and its destination leads back to that destination.
pub proof fn lemma_origin_of_walk<P: Puzzle>(puzzle: &P, piece: nat, d: nat, steps: nat)
    requires
        puzzle.wf(),
        piece < puzzle.pieces(),
        d < 2 * puzzle.edges(),
        puzzle.exchangeable(puzzle.anchor(piece), d),
        steps < puzzle.sides(piece),
    ensures
        ({
            let s0 = puzzle.anchor(piece);
            let s = walk(puzzle, steps, s0);
            let to = walk(puzzle, steps, d);
            &&& s < 2 * puzzle.edges()
            &&& to < 2 * puzzle.edges()
            &&& puzzle.piece_of(s) == piece
            &&& puzzle.rank(s) == steps
            &&& puzzle.exchangeable(s, to)
            &&& origin(puzzle, s, to) == d
        }),
{
    let s0 = puzzle.anchor(piece);
    let sides = puzzle.sides(piece);
    puzzle.lemma_anchor(piece);
    puzzle.lemma_rank(s0);
    lemma_walk_stays(puzzle, steps, s0);
    lemma_walk_stays(puzzle, steps, d);
    lemma_walk_rank(puzzle, steps, s0);
    lemma_walk_exchange(puzzle, steps, s0, d);
    lemma_walk_add(puzzle, steps, (sides - steps) as nat, d);
    lemma_walk_around(puzzle, d);
}

/// A pair of points that may be exchanged is the pair that is as many steps
/// as the first is from its anchor around the two pieces from the pair of
/// that anchor and the origin.
pub proof fn lemma_walk_of_origin<P: Puzzle>(puzzle: &P, s: nat, d: nat)
    requires
        puzzle.wf(),
        s < 2 * puzzle.edges(),
        d < 2 * puzzle.edges(),
        puzzle.exchangeable(s, d),
    ensures
        ({
            let s0 = puzzle.anchor(puzzle.piece_of(s));
            let d0 = origin(puzzle, s, d);
            &&& puzzle.piece_of(s) < puzzle.pieces()
            &&& d0 < 2 * puzzle.edges()
            &&& puzzle.exchangeable(s0, d0)
            &&& puzzle.rank(s) < puzzle.sides(puzzle.piece_of(s))
            &&& walk(puzzle, puzzle.rank(s), s0) == s
            &&& walk(puzzle, puzzle.rank(s), d0) == d
        }),
{
    let piece = puzzle.piece_of(s);
    let sides = puzzle.sides(piece);
    let rank = puzzle.rank(s);
    let back = (sides - rank) as nat;
    puzzle.lemma_next(s);
    lemma_walk_to_anchor(puzzle, s);
    lemma_walk_from_anchor(puzzle, s);
    lemma_walk_stays(puzzle, back, d);
    lemma_walk_exchange(puzzle, back, s, d);
    lemma_walk_add(puzzle, back, rank, d);
    lemma_walk_around(puzzle, d);
}

/// The pair that follows a pair around the two pieces has the same origin.
pub proof fn lemma_origin_next<P: Puzzle>(puzzle: &P, s: nat, d: nat)
    requires
        puzzle.wf(),
        s < 2 * puzzle.edges(),
        d < 2 * puzzle.edges(),
        puzzle.exchangeable(s, d),
    ensures
        origin(puzzle, puzzle.next(s), puzzle.next(d)) == origin(puzzle, s, d),
        puzzle.anchor(puzzle.piece_of(puzzle.next(s))) == puzzle.anchor(puzzle.piece_of(s)),
{
    let piece = puzzle.piece_of(s);
    let sides = puzzle.sides(piece);
    let rank = puzzle.rank(s);
    puzzle.lemma_next(s);
    puzzle.lemma_next(d);
    puzzle.lemma_rank(s);
    puzzle.lemma_exchange_next(s, d);
    if rank + 1 == sides {
        lemma_walk_around(puzzle, puzzle.next(d));
        assert(walk(puzzle, 1, d) == walk(puzzle, 0, puzzle.next(d)));
    }
}

/// Entering a variable for the pairs around two pieces meets no pair that has
/// an entry, and leaves the table as it must be after the walk.
pub proof fn lemma_orbit_put_table<P: Puzzle>(
    puzzle: &P,
    table: Map<(nat, nat), Literal>,
    piece: nat,
    dests: Seq<nat>,
    d0: nat,
    var: Literal,
    k: nat,
)
    requires
        puzzle.wf(),
        piece < puzzle.pieces(),
        d0 < 2 * puzzle.edges(),
        puzzle.exchangeable(puzzle.anchor(piece), d0),
        !dests.contains(d0),
        k <= puzzle.sides(piece),
        var is Var,
        !var->negated,
        table_is(puzzle, table, piece, dests, d0, k),
        k > 0 ==> table.contains_key((puzzle.anchor(piece), d0)) && table[(
            puzzle.anchor(piece),
            d0,
        )] == var,
    ensures
        !orbit_put(
            puzzle,
            table,
            walk(puzzle, k, puzzle.anchor(piece)),
            walk(puzzle, k, d0),
            var,
            (puzzle.sides(piece) - k) as nat,
        ).1,
        table_is(
            puzzle,
            orbit_put(
                puzzle,
                table,
                walk(puzzle, k, puzzle.anchor(piece)),
                walk(puzzle, k, d0),
                var,
                (puzzle.sides(piece) - k) as nat,
            ).0,
            piece,
            dests,
            d0,
            puzzle.sides(piece),
        ),
    decreases puzzle.sides(piece) - k,
{
    let s0 = puzzle.anchor(piece);
    let sides = puzzle.sides(piece);
    let points = 2 * puzzle.edges();
    if k < sides {
        let s = walk(puzzle, k, s0);
        let d = walk(puzzle, k, d0);
        lemma_origin_of_walk(puzzle, piece, d0, k);
        let next_table = table.insert((s, d), var);
        assert forall|x: nat, y: nat|
            #![trigger next_table.contains_key((x, y))]
            {
                &&& next_table.contains_key((x, y)) <==> x < points && y < points
                    && puzzle.exchangeable(x, y) && entered(
                    puzzle,
                    x,
                    y,
                    piece,
                    dests,
                    d0,
                    k + 1,
                )
                &&& next_table.contains_key((x, y)) ==> next_table[(x, y)] is Var && !next_table[(
                    x,
                    y,
                )]->negated && next_table.contains_key(
                    (puzzle.anchor(puzzle.piece_of(x)), origin(puzzle, x, y)),
                ) && next_table[(x, y)] == next_table[(
                    puzzle.anchor(puzzle.piece_of(x)),
                    origin(puzzle, x, y),
                )]
            } by {
            if (x, y) != (s, d) {
                if x < points && y < points && puzzle.exchangeable(x, y) && puzzle.piece_of(x)
                    == piece && origin(puzzle, x, y) == d0 && puzzle.rank(x) == k {
                    lemma_walk_of_origin(puzzle, x, y);
                }
            }
        }
        lemma_walk_last(puzzle, k, s0);
        lemma_walk_last(puzzle, k, d0);
        lemma_orbit_put_table(puzzle, next_table, piece, dests, d0, var, k + 1);
    }
}

/// The points that a point may be exchanged with are exactly those, each
/// once.
pub proof fn lemma_exchange_points<P: Puzzle>(puzzle: &P, point: nat)
    ensures
        forall|d: nat| #[trigger]
            exchange_points(puzzle, point).contains(d) <==> d < 2 * puzzle.edges()
                && puzzle.exchangeable(point, d),
        forall|i: int, j: int|
            0 <= i < j < exchange_points(puzzle, point).len() ==> #[trigger] exchange_points(
                puzzle,
                point,
            )[i] < #[trigger] exchange_points(puzzle, point)[j],
{
    let all = Seq::new(2 * puzzle.edges(), |i: int| i as nat);
    let keep = |other: nat| puzzle.exchangeable(point, other);
    lemma_filter_below(all, keep, all.len());
    assert(all.take(all.len() as int) =~= all);
}

/// Of the numbers from 0 up in their order, the first `n`, filtered, are
/// those of them that pass, in ascending order.
proof fn lemma_filter_below(all: Seq<nat>, keep: spec_fn(nat) -> bool, n: nat)
    requires
        n <= all.len(),
        forall|i: int| 0 <= i < all.len() ==> #[trigger] all[i] == i as nat,
    ensures
        forall|d: nat| #[trigger] all.take(n as int).filter(keep).contains(d) <==> d < n && keep(d),
        forall|i: int, j: int|
            0 <= i < j < all.take(n as int).filter(keep).len() ==> #[trigger] all.take(
                n as int,
            ).filter(keep)[i] < #[trigger] all.take(n as int).filter(keep)[j],
    decreases n,
{
    reveal(Seq::filter);
    let now = all.take(n as int).filter(keep);
    if n > 0 {
        let last = (n - 1) as nat;
        lemma_filter_below(all, keep, last);
        let before = all.take(last as int).filter(keep);
        assert(all.take(n as int).drop_last() =~= all.take(last as int));
        assert forall|d: nat| #[trigger] now.contains(d) <==> d < n && keep(d) by {
            if now.contains(d) {
                let i = choose|i: int| 0 <= i < now.len() && now[i] == d;
                if i < before.len() {
                    assert(before.contains(d));
                }
            }
            if d < n && keep(d) {
                if d < last {
                    let i = choose|i: int| 0 <= i < before.len() && before[i] == d;
                    assert(now[i] == d);
                }
            }
        }
        assert forall|i: int, j: int| 0 <= i < j < now.len() implies #[trigger] now[i]
            < #[trigger] now[j] by {
            if j >= before.len() {
                assert(before.contains(before[i]));
            }
        }
    }
}

/// Handing out the destination variables of one piece meets no pair twice.
/// Where the variables do not run out, the table then holds the pairs of the
/// pieces before that may be exchanged, and those of this piece that come
/// from a destination of `dests`.
pub proof fn lemma_dest_vars_table<P: Puzzle>(puzzle: &P, e: Encoding, piece: nat, dests: Seq<nat>)
    requires
        puzzle.wf(),
        piece < puzzle.pieces(),
        e.status == Status::Building || e.status == Status::OutOfVariables,
        e.status == Status::Building ==> table_is(
            puzzle,
            e.point_dest,
            piece,
            Seq::<nat>::empty(),
            0,
            0,
        ),
        forall|i: int|
            0 <= i < dests.len() ==> #[trigger] dests[i] < 2 * puzzle.edges()
                && puzzle.exchangeable(puzzle.anchor(piece), dests[i]),
        forall|i: int, j: int| 0 <= i < j < dests.len() ==> #[trigger] dests[i] < #[trigger] dests[j],
    ensures
        ({
            let after = e.dest_vars(puzzle, puzzle.anchor(piece), dests, puzzle.sides(piece));
            &&& after.status == Status::Building || after.status == Status::OutOfVariables
            &&& after.status == Status::Building ==> table_is(
                puzzle,
                after.point_dest,
                piece,
                dests,
                0,
                0,
            )
        }),
    decreases dests.len(),
{
    let s0 = puzzle.anchor(piece);
    let sides = puzzle.sides(piece);
    if dests.len() > 0 {
        let init = dests.drop_last();
        let last = dests.last();
        let e1 = e.dest_vars(puzzle, s0, init, sides);
        assert forall|i: int| 0 <= i < init.len() implies #[trigger] init[i] < 2 * puzzle.edges()
            && puzzle.exchangeable(s0, init[i]) by {}
        assert forall|i: int, j: int| 0 <= i < j < init.len() implies #[trigger] init[i]
            < #[trigger] init[j] by {}
        lemma_dest_vars_table(puzzle, e, piece, init);
        if e1.status == Status::Building && e1.formula.num_vars < MAX_VARIABLES {
            let var = e1.formula.fresh();
            let table = e1.point_dest;
            assert(!init.contains(last)) by {}
            lemma_orbit_put_table(puzzle, table, piece, init, last, var, 0);
            assert forall|x: nat, y: nat|
                x < 2 * puzzle.edges() && y < 2 * puzzle.edges() && puzzle.exchangeable(
                    x,
                    y,
                ) implies entered(puzzle, x, y, piece, init, last, sides) == entered(
                puzzle,
                x,
                y,
                piece,
                dests,
                0,
                0,
            ) by {
                puzzle.lemma_rank(x);
                assert(dests =~= init.push(last));
            }
        }
    }
}

/// Handing out the destination variables meets no pair of points twice.
/// Where the variables do not run out, a pair of points has a variable
/// exactly when the two may be exchanged; the variable is not negated; and
/// it is the variable of the pair that follows around the two pieces.
pub proof fn lemma_point_dest_table<P: Puzzle>(puzzle: &P, pieces: nat)
    requires
        puzzle.wf(),
        pieces <= puzzle.pieces(),
    ensures
        ({
            let after = Encoding::start(puzzle).point_dest_vars(puzzle, pieces);
            &&& after.status == Status::Building || after.status == Status::OutOfVariables
            &&& after.status == Status::Building ==> table_is(
                puzzle,
                after.point_dest,
                pieces,
                Seq::<nat>::empty(),
                0,
                0,
            )
        }),
    decreases pieces,
{
    let start = Encoding::start(puzzle);
    if pieces == 0 {
        assert forall|s: nat, d: nat|
            s < 2 * puzzle.edges() implies !entered(
            puzzle,
            s,
            d,
            0,
            Seq::<nat>::empty(),
            0,
            0,
        ) by {}
    } else {
        let piece = (pieces - 1) as nat;
        let s0 = puzzle.anchor(piece);
        let dests = exchange_points(puzzle, s0);
        let e1 = start.point_dest_vars(puzzle, piece);
        let e2 = e1.dest_vars(puzzle, s0, dests, puzzle.sides(piece));
        lemma_point_dest_table(puzzle, piece);
        lemma_exchange_points(puzzle, s0);
        assert forall|i: int| 0 <= i < dests.len() implies #[trigger] dests[i] < 2 * puzzle.edges()
            && puzzle.exchangeable(s0, dests[i]) by {
            assert(dests.contains(dests[i]));
        }
        lemma_dest_vars_table(puzzle, e1, piece, dests);
        if e2.status == Status::Building {
            assert forall|x: nat, y: nat|
                x < 2 * puzzle.edges() && y < 2 * puzzle.edges() && puzzle.exchangeable(
                    x,
                    y,
                ) implies entered(puzzle, x, y, piece, dests, 0, 0) == entered(
                puzzle,
                x,
                y,
                pieces,
                Seq::<nat>::empty(),
                0,
                0,
            ) by {
                lemma_walk_of_origin(puzzle, x, y);
            }
        }
    }
}

/// The table of destination variables, once all are handed out: a pair of
/// points has a variable exactly when the two are points of the puzzle that
/// may be exchanged; the variable is not negated; and the pair shares it
/// with the pair that follows around the two pieces.
pub proof fn lemma_point_dest<P: Puzzle>(puzzle: &P, s: nat, d: nat)
    requires
        puzzle.wf(),
        Encoding::start(puzzle).point_dest_vars(puzzle, puzzle.pieces()).status
            == Status::Building,
    ensures
        ({
            let table = Encoding::start(puzzle).point_dest_vars(puzzle, puzzle.pieces()).point_dest;
            &&& table.contains_key((s, d)) <==> s < 2 * puzzle.edges() && d < 2 * puzzle.edges()
                && puzzle.exchangeable(s, d)
            &&& table.contains_key((s, d)) ==> {
                &&& table[(s, d)] is Var
                &&& !table[(s, d)]->negated
                &&& table.contains_key((puzzle.next(s), puzzle.next(d)))
                &&& table[(puzzle.next(s), puzzle.next(d))] == table[(s, d)]
            }
        }),
{
    let table = Encoding::start(puzzle).point_dest_vars(puzzle, puzzle.pieces()).point_dest;
    lemma_point_dest_table(puzzle, puzzle.pieces());
    if s < 2 * puzzle.edges() {
        puzzle.lemma_next(s);
    }
    if table.contains_key((s, d)) {
        puzzle.lemma_next(d);
        puzzle.lemma_exchange_next(s, d);
        lemma_origin_next(puzzle, s, d);
    }
}

} // verus!
