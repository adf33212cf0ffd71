//! How the construction of a formula can end: built, out of variables, or in
//! a contradiction, and what a contradiction means.
use vstd::prelude::*;
use crate::cardinality::lemma_rows_not_constant;
use crate::encoding::{col_vars, pair_vars, row_vars, Encoding, Status};
use crate::formula::{without, Formula};
use crate::literal::{Literal, MAX_VARIABLES};
use crate::meaning::{
    distinct_keys, lemma_adjacent_vars, lemma_matching_vars, lemma_not_same,
    lemma_one_hot_edge_matching, lemma_one_hot_point_dest, lemma_one_hot_point_src,
    lemma_pairs_below_keys, lemma_point_dest_vars, ways_to_match,
};
use crate::orbits::{lemma_point_dest, lemma_point_dest_table};
use crate::puzzle::{lemma_pairs_below_has, pairs_below, Puzzle};
use crate::tables::ordered;

verus! {

/// Whether no literal of `lits` is a constant.
pub open spec fn all_variables(lits: Seq<Literal>) -> bool {
    forall|i: int| 0 <= i < lits.len() ==> !(#[trigger] lits[i]).is_constant()
}

/// Whether no literal of the table is a constant.
pub open spec fn table_of_variables(table: Map<(nat, nat), Literal>) -> bool {
    forall|k: (nat, nat)| #[trigger] table.contains_key(k) ==> !table[k].is_constant()
}

/// Whether no literal of the table is the constant `True`.
pub open spec fn table_without_true(table: Map<(nat, nat), Literal>) -> bool {
    forall|k: (nat, nat)| #[trigger] table.contains_key(k) ==> table[k] != Literal::True
}

impl Encoding {
    /// Whether the construction goes on or has run out of variables: nothing
    /// else has gone wrong.
    pub open spec fn going(self) -> bool {
        self.status == Status::Building || self.status == Status::OutOfVariables
    }
}

/// "Exactly one" fits a list of variables that is not empty.
pub proof fn lemma_exactly_one_fits(f: Formula, vars: Seq<Literal>)
    requires
        all_variables(vars),
    ensures
        f.exact_count_fits(1, vars) == (vars.len() >= 1),
{
    if vars.len() == 1 {
    } else if vars.len() > 1 {
        lemma_rows_not_constant(f, 2, vars);
    }
}

/// The literals of a row of a table of variables are variables, and there is
/// one for each entry of the row.
pub proof fn lemma_row_of_variables(table: Map<(nat, nat), Literal>, s: nat, n: nat, d: nat)
    requires
        table_of_variables(table),
    ensures
        all_variables(row_vars(table, s, n)),
        d < n && table.contains_key((s, d)) ==> row_vars(table, s, n).len() >= 1,
    decreases n,
{
    if n > 0 {
        let last = (n - 1) as nat;
        lemma_row_of_variables(table, s, last, d);
        let rest = row_vars(table, s, last);
        if table.contains_key((s, last)) {
            assert forall|i: int| 0 <= i < rest.len() + 1 implies !(#[trigger] rest.push(
                table[(s, last)],
            )[i]).is_constant() by {}
        }
    }
}

/// The literals of a column of a table of variables are variables, and there
/// is one for each entry of the column.
pub proof fn lemma_col_of_variables(table: Map<(nat, nat), Literal>, d: nat, n: nat, s: nat)
    requires
        table_of_variables(table),
    ensures
        all_variables(col_vars(table, d, n)),
        s < n && table.contains_key((s, d)) ==> col_vars(table, d, n).len() >= 1,
    decreases n,
{
    if n > 0 {
        let last = (n - 1) as nat;
        lemma_col_of_variables(table, d, last, s);
        let rest = col_vars(table, d, last);
        if table.contains_key((last, d)) {
            assert forall|i: int| 0 <= i < rest.len() + 1 implies !(#[trigger] rest.push(
                table[(last, d)],
            )[i]).is_constant() by {}
        }
    }
}

/// The literals of the pairs of a key in a table of variables are variables.
pub proof fn lemma_pairs_of_variables(table: Map<(nat, nat), Literal>, a: nat, n: nat)
    requires
        table_of_variables(table),
    ensures
        all_variables(pair_vars(table, a, n)),
    decreases n,
{
    if n > 0 {
        let last = (n - 1) as nat;
        lemma_pairs_of_variables(table, a, last);
        let rest = pair_vars(table, a, last);
        let key = ordered(a, last);
        if table.contains_key(key) {
            assert forall|i: int| 0 <= i < rest.len() + 1 implies !(#[trigger] rest.push(
                table[key],
            )[i]).is_constant() by {}
        }
    }
}

/// "Exactly one" of a list of variables that is not empty does not end in a
/// contradiction.
pub proof fn lemma_one_hot_goes_on(e: Encoding, vars: Seq<Literal>)
    requires
        e.going(),
        all_variables(vars),
        vars.len() >= 1,
    ensures
        e.one_hot(vars).going(),
{
    lemma_exactly_one_fits(e.formula, vars);
}

/// The disjunction of literals of which none is `True` is not `True`, and
/// the conjunction of two variables is a variable.
pub proof fn lemma_gates_of_variables(f: Formula, vars: Seq<Literal>, x: Literal, y: Literal)
    ensures
        !vars.contains(Literal::True) ==> f.or_var(vars).0 != Literal::True,
        !x.is_constant() && !y.is_constant() ==> !f.and_var(seq![x, y]).0.is_constant(),
{
    reveal_with_fuel(Seq::filter, 3);
    let kept = without(vars, Literal::False);
    if !vars.contains(Literal::True) && kept.len() == 1 {
        crate::formula::lemma_without_members(vars, Literal::False);
        assert(kept.contains(kept[0]));
    }
}

/// Whether every piece below `pieces` can stay where it is: the pair of its
/// anchor with itself has a destination variable.
pub open spec fn anchors_can_stay<P: Puzzle>(
    puzzle: &P,
    table: Map<(nat, nat), Literal>,
    pieces: nat,
) -> bool {
    forall|piece: nat|
        piece < pieces ==> puzzle.anchor(piece) < 2 * puzzle.edges() && table.contains_key(
            (#[trigger] puzzle.anchor(piece), puzzle.anchor(piece)),
        )
}

/// Telling each piece to go to one place does not end in a contradiction.
pub proof fn lemma_one_hot_point_dest_goes_on<P: Puzzle>(puzzle: &P, e: Encoding, pieces: nat)
    requires
        e.wf(),
        e.going(),
        e.status == Status::Building ==> table_of_variables(e.point_dest),
        e.status == Status::Building ==> anchors_can_stay(puzzle, e.point_dest, pieces),
    ensures
        e.one_hot_point_dest(puzzle, pieces).going(),
    decreases pieces,
{
    if pieces > 0 {
        let piece = (pieces - 1) as nat;
        let done = e.one_hot_point_dest(puzzle, piece);
        let anchor = puzzle.anchor(piece);
        lemma_one_hot_point_dest_goes_on(puzzle, e, piece);
        lemma_one_hot_point_dest(puzzle, e, piece, Set::empty());
        if done.status == Status::Building {
            lemma_row_of_variables(done.point_dest, anchor, 2 * puzzle.edges(), anchor);
            lemma_one_hot_goes_on(done, row_vars(done.point_dest, anchor, 2 * puzzle.edges()));
        }
    }
}

/// Telling each place to take one piece does not end in a contradiction.
pub proof fn lemma_one_hot_point_src_goes_on<P: Puzzle>(puzzle: &P, e: Encoding, pieces: nat)
    requires
        e.wf(),
        e.going(),
        e.status == Status::Building ==> table_of_variables(e.point_dest),
        e.status == Status::Building ==> anchors_can_stay(puzzle, e.point_dest, pieces),
    ensures
        e.one_hot_point_src(puzzle, pieces).going(),
    decreases pieces,
{
    if pieces > 0 {
        let piece = (pieces - 1) as nat;
        let done = e.one_hot_point_src(puzzle, piece);
        let anchor = puzzle.anchor(piece);
        lemma_one_hot_point_src_goes_on(puzzle, e, piece);
        lemma_one_hot_point_src(puzzle, e, piece, Set::empty());
        if done.status == Status::Building {
            lemma_col_of_variables(done.point_dest, anchor, 2 * puzzle.edges(), anchor);
            lemma_one_hot_goes_on(done, col_vars(done.point_dest, anchor, 2 * puzzle.edges()));
        }
    }
}

/// The literals for the ways in which two points can come to lie across an
/// edge are variables.
pub proof fn lemma_adjacent_terms_variables<P: Puzzle>(
    puzzle: &P,
    e: Encoding,
    a: nat,
    b: nat,
    n: nat,
)
    requires
        e.status == Status::Building ==> table_of_variables(e.point_dest),
        e.going(),
    ensures
        all_variables(e.adjacent_terms(puzzle, a, b, n).0),
        e.adjacent_terms(puzzle, a, b, n).1.going(),
        e.adjacent_terms(puzzle, a, b, n).1.status == Status::Building ==> e.status
            == Status::Building,
        e.adjacent_terms(puzzle, a, b, n).1.point_dest == e.point_dest,
        e.adjacent_terms(puzzle, a, b, n).1.adjacent == e.adjacent,
        e.adjacent_terms(puzzle, a, b, n).1.matching == e.matching,
    decreases n,
{
    if n > 0 {
        let dest_a = (n - 1) as nat;
        let dest_b = puzzle.mate(dest_a);
        let (terms, e1) = e.adjacent_terms(puzzle, a, b, dest_a);
        let all = e.adjacent_terms(puzzle, a, b, n).0;
        lemma_adjacent_terms_variables(puzzle, e, a, b, dest_a);
        if e1.status == Status::Building && e.point_dest.contains_key((a, dest_a))
            && e.point_dest.contains_key((b, dest_b)) && e1.formula.num_vars < MAX_VARIABLES {
            let va = e.point_dest[(a, dest_a)];
            let vb = e.point_dest[(b, dest_b)];
            lemma_gates_of_variables(e1.formula, Seq::empty(), va, vb);
            assert forall|i: int| 0 <= i < all.len() implies !(#[trigger] all[i]).is_constant() by {}
        }
    }
}

/// The literal for "two points come to lie across an edge" is not `True`,
/// and making it does not end in a contradiction.
pub proof fn lemma_adjacent_vars_go_on<P: Puzzle>(puzzle: &P, e: Encoding, pairs: Seq<(nat, nat)>)
    requires
        e.wf(),
        e.going(),
        e.status == Status::Building ==> table_of_variables(e.point_dest),
        table_without_true(e.adjacent),
        distinct_keys(pairs),
        forall|i: int|
            0 <= i < pairs.len() ==> !e.adjacent.contains_key(
                ordered(#[trigger] pairs[i].0, pairs[i].1),
            ),
    ensures
        e.adjacent_vars(puzzle, pairs).going(),
        table_without_true(e.adjacent_vars(puzzle, pairs).adjacent),
    decreases pairs.len(),
{
    if pairs.len() > 0 {
        let init = pairs.drop_last();
        let last = pairs.last();
        let key = ordered(last.0, last.1);
        let e1 = e.adjacent_vars(puzzle, init);
        let e2 = e1.adjacent_var(puzzle, last.0, last.1);
        assert forall|i: int, j: int| 0 <= i < j < init.len() implies ordered(
            #[trigger] init[i].0,
            init[i].1,
        ) != ordered(#[trigger] init[j].0, init[j].1) by {}
        assert forall|i: int| 0 <= i < init.len() implies !e.adjacent.contains_key(
            ordered(#[trigger] init[i].0, init[i].1),
        ) by {}
        lemma_adjacent_vars_go_on(puzzle, e, init);
        lemma_adjacent_vars(puzzle, e, init, Set::empty());
        assert(!e1.adjacent.contains_key(key)) by {}
        let (terms, e_terms) = e1.adjacent_terms(puzzle, last.0, last.1, 2 * puzzle.edges());
        lemma_adjacent_terms_variables(puzzle, e1, last.0, last.1, 2 * puzzle.edges());
        if e_terms.status == Status::Building && e_terms.formula.num_vars < MAX_VARIABLES {
            lemma_gates_of_variables(e_terms.formula, terms, Literal::True, Literal::True);
            assert forall|k: (nat, nat)| #[trigger] e2.adjacent.contains_key(k) implies e2.adjacent[k]
                != Literal::True by {}
        }
    }
}

/// Telling the seams to be cut does not end in a contradiction where the two
/// points of every edge have a literal that is not `True`.
pub proof fn lemma_not_same_goes_on<P: Puzzle>(puzzle: &P, e: Encoding, edges: nat)
    requires
        e.wf(),
        e.going(),
        table_without_true(e.adjacent),
        e.status == Status::Building ==> forall|edge: nat|
            edge < edges ==> e.adjacent.contains_key(
                #[trigger] ordered(puzzle.edge_anchor(edge), puzzle.mate(puzzle.edge_anchor(edge))),
            ),
    ensures
        e.point_dest_adjacent_not_same(puzzle, edges).going(),
    decreases edges,
{
    if edges > 0 {
        let edge = (edges - 1) as nat;
        lemma_not_same_goes_on(puzzle, e, edge);
        lemma_not_same(puzzle, e, edge, Set::empty());
    }
}

/// The literal for "two edges have the same shape" is a variable, and making
/// it does not end in a contradiction.
pub proof fn lemma_matching_vars_go_on<P: Puzzle>(puzzle: &P, e: Encoding, pairs: Seq<(nat, nat)>)
    requires
        e.wf(),
        e.going(),
        table_without_true(e.adjacent),
        table_of_variables(e.matching),
        distinct_keys(pairs),
        forall|i: int|
            0 <= i < pairs.len() ==> !e.matching.contains_key(
                ordered(#[trigger] pairs[i].0, pairs[i].1),
            ),
    ensures
        e.matching_vars(puzzle, pairs).going(),
        table_of_variables(e.matching_vars(puzzle, pairs).matching),
    decreases pairs.len(),
{
    if pairs.len() > 0 {
        let init = pairs.drop_last();
        let last = pairs.last();
        let key = ordered(last.0, last.1);
        let e1 = e.matching_vars(puzzle, init);
        let e2 = e1.edge_matching_var(puzzle, last.0, last.1);
        assert forall|i: int, j: int| 0 <= i < j < init.len() implies ordered(
            #[trigger] init[i].0,
            init[i].1,
        ) != ordered(#[trigger] init[j].0, init[j].1) by {}
        assert forall|i: int| 0 <= i < init.len() implies !e.matching.contains_key(
            ordered(#[trigger] init[i].0, init[i].1),
        ) by {}
        lemma_matching_vars_go_on(puzzle, e, init);
        lemma_matching_vars(puzzle, e, init, Set::empty());
        assert(!e1.matching.contains_key(key)) by {}
        let ways = ways_to_match(puzzle, e1.adjacent, last.0, last.1);
        if e1.status == Status::Building && ways.len() > 0 && e1.formula.num_vars
            < MAX_VARIABLES {
            lemma_gates_of_variables(e1.formula, ways, Literal::True, Literal::True);
            assert forall|k: (nat, nat)| #[trigger] e2.matching.contains_key(k) implies !e2.matching[k].is_constant() by {}
        }
    }
}

/// After the destination variables have been handed out, nothing has gone
/// wrong but that the variables may have run out; where they have not, the
/// table holds variables only, and every piece can stay where it is.
proof fn lemma_first_stage<P: Puzzle>(puzzle: &P)
    requires
        puzzle.wf(),
    ensures
        ({
            let e1 = Encoding::start(puzzle).point_dest_vars(puzzle, puzzle.pieces());
            &&& e1.wf()
            &&& e1.going()
            &&& e1.adjacent == Map::<(nat, nat), Literal>::empty()
            &&& e1.matching == Map::<(nat, nat), Literal>::empty()
            &&& e1.status == Status::Building ==> table_of_variables(e1.point_dest)
                && anchors_can_stay(puzzle, e1.point_dest, puzzle.pieces())
        }),
{
    let e0 = Encoding::start(puzzle);
    let e1 = e0.point_dest_vars(puzzle, puzzle.pieces());
    lemma_point_dest_table(puzzle, puzzle.pieces());
    lemma_point_dest_vars(puzzle, e0, puzzle.pieces());
    if e1.status == Status::Building {
        assert forall|k: (nat, nat)| #[trigger] e1.point_dest.contains_key(k) implies !e1.point_dest[k].is_constant() by {
            lemma_point_dest(puzzle, k.0, k.1);
        }
        assert forall|piece: nat| piece < puzzle.pieces() implies puzzle.anchor(piece) < 2
            * puzzle.edges() && e1.point_dest.contains_key(
            (#[trigger] puzzle.anchor(piece), puzzle.anchor(piece)),
        ) by {
            let anchor = puzzle.anchor(piece);
            puzzle.lemma_anchor(piece);
            puzzle.lemma_exchange_equivalence(anchor, anchor, anchor);
        }
    }
}

/// After the pieces and the places have been told to pair up one to one,
/// still nothing has gone wrong but that the variables may have run out.
proof fn lemma_third_stage<P: Puzzle>(puzzle: &P)
    requires
        puzzle.wf(),
    ensures
        ({
            let e1 = Encoding::start(puzzle).point_dest_vars(puzzle, puzzle.pieces());
            let e3 = e1.one_hot_point_dest(puzzle, puzzle.pieces()).one_hot_point_src(
                puzzle,
                puzzle.pieces(),
            );
            &&& e3.wf()
            &&& e3.going()
            &&& e3.point_dest == e1.point_dest
            &&& e3.adjacent == Map::<(nat, nat), Literal>::empty()
            &&& e3.matching == Map::<(nat, nat), Literal>::empty()
            &&& e3.status == Status::Building ==> table_of_variables(e3.point_dest)
        }),
{
    let e1 = Encoding::start(puzzle).point_dest_vars(puzzle, puzzle.pieces());
    let e2 = e1.one_hot_point_dest(puzzle, puzzle.pieces());
    lemma_first_stage(puzzle);
    lemma_one_hot_point_dest(puzzle, e1, puzzle.pieces(), Set::empty());
    lemma_one_hot_point_dest_goes_on(puzzle, e1, puzzle.pieces());
    lemma_one_hot_point_src(puzzle, e2, puzzle.pieces(), Set::empty());
    lemma_one_hot_point_src_goes_on(puzzle, e2, puzzle.pieces());
}

/// After the seams have been told to be cut, still nothing has gone wrong but
/// that the variables may have run out.
proof fn lemma_fifth_stage<P: Puzzle>(puzzle: &P, e3: Encoding)
    requires
        puzzle.wf(),
        e3.wf(),
        e3.going(),
        e3.adjacent == Map::<(nat, nat), Literal>::empty(),
        e3.status == Status::Building ==> table_of_variables(e3.point_dest),
    ensures
        ({
            let e5 = e3.point_dest_adjacent_vars(puzzle).point_dest_adjacent_not_same(
                puzzle,
                puzzle.edges(),
            );
            &&& e5.wf()
            &&& e5.going()
            &&& e5.matching == e3.matching
            &&& table_without_true(e5.adjacent)
        }),
{
    let m = Set::<nat>::empty();
    let points = 2 * puzzle.edges();
    let e4 = e3.point_dest_adjacent_vars(puzzle);
    let point_pairs = pairs_below(points);
    lemma_pairs_below_keys(points);
    lemma_adjacent_vars(puzzle, e3, point_pairs, m);
    lemma_adjacent_vars_go_on(puzzle, e3, point_pairs);
    if e4.status == Status::Building {
        assert forall|edge: nat| edge < puzzle.edges() implies e4.adjacent.contains_key(
            #[trigger] ordered(puzzle.edge_anchor(edge), puzzle.mate(puzzle.edge_anchor(edge))),
        ) by {
            let near = puzzle.edge_anchor(edge);
            let far = puzzle.mate(near);
            puzzle.lemma_edge_anchor(edge);
            puzzle.lemma_mate(near);
            if near < far {
                lemma_pairs_below_has(points, far, near);
                let i = choose|i: int| 0 <= i < point_pairs.len() && point_pairs[i] == (far, near);
                assert(ordered(point_pairs[i].0, point_pairs[i].1) == ordered(near, far));
            } else {
                lemma_pairs_below_has(points, near, far);
                let i = choose|i: int| 0 <= i < point_pairs.len() && point_pairs[i] == (near, far);
                assert(ordered(point_pairs[i].0, point_pairs[i].1) == ordered(near, far));
            }
        }
    }
    lemma_not_same(puzzle, e4, puzzle.edges(), m);
    lemma_not_same_goes_on(puzzle, e4, puzzle.edges());
}

/// Telling each edge to match one other ends in a contradiction only where
/// some edge has no edge that it could match.
pub proof fn lemma_one_hot_edge_matching_ends<P: Puzzle>(puzzle: &P, e: Encoding, edges: nat)
    requires
        e.wf(),
        e.going(),
        table_of_variables(e.matching),
    ensures
        e.one_hot_edge_matching(puzzle, edges).going() || (e.one_hot_edge_matching(
            puzzle,
            edges,
        ).status == Status::Contradiction && exists|edge: nat|
            edge < edges && (#[trigger] pair_vars(e.matching, edge, puzzle.edges())).len() == 0),
    decreases edges,
{
    if edges > 0 {
        let edge = (edges - 1) as nat;
        let done = e.one_hot_edge_matching(puzzle, edge);
        let vars = pair_vars(done.matching, edge, puzzle.edges());
        lemma_one_hot_edge_matching_ends(puzzle, e, edge);
        lemma_one_hot_edge_matching(puzzle, e, edge, Set::empty());
        if done.status == Status::Building {
            lemma_pairs_of_variables(done.matching, edge, puzzle.edges());
            lemma_exactly_one_fits(done.formula, vars);
        } else if !done.going() {
        }
    }
}

/// How the construction ends for every puzzle: with the formula built, or
/// out of variables, or in a contradiction; and in a contradiction only
/// where some edge has no other edge that it could have the shape of.
pub proof fn lemma_ending<P: Puzzle>(puzzle: &P)
    requires
        puzzle.wf(),
    ensures
        ({
            let e = Encoding::start(puzzle).encoded(puzzle);
            &&& e.status == Status::Building || e.status == Status::OutOfVariables || e.status
                == Status::Contradiction
            &&& e.status == Status::Contradiction ==> exists|edge: nat|
                edge < puzzle.edges() && (#[trigger] pair_vars(
                    e.matching,
                    edge,
                    puzzle.edges(),
                )).len() == 0
        }),
{
    let m = Set::<nat>::empty();
    let e3 = Encoding::start(puzzle).point_dest_vars(puzzle, puzzle.pieces()).one_hot_point_dest(
        puzzle,
        puzzle.pieces(),
    ).one_hot_point_src(puzzle, puzzle.pieces());
    let e5 = e3.point_dest_adjacent_vars(puzzle).point_dest_adjacent_not_same(
        puzzle,
        puzzle.edges(),
    );
    let e6 = e5.edge_matching_vars(puzzle);
    let e7 = e6.one_hot_edge_matching(puzzle, puzzle.edges());
    lemma_third_stage(puzzle);
    lemma_fifth_stage(puzzle, e3);
    assert(e6.wf() && e6.going() && table_of_variables(e6.matching)) by {
        lemma_pairs_below_keys(puzzle.edges());
        lemma_matching_vars(puzzle, e5, pairs_below(puzzle.edges()), m);
        lemma_matching_vars_go_on(puzzle, e5, pairs_below(puzzle.edges()));
    }
    assert(e7.matching == e6.matching) by {
        lemma_one_hot_edge_matching(puzzle, e6, puzzle.edges(), m);
    }
    lemma_one_hot_edge_matching_ends(puzzle, e6, puzzle.edges());
}

} // verus!
