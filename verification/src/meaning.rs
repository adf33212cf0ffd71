//! What the formula of a search says: for each stage of the construction,
//! what holds of every assignment that satisfies the formula it leaves.
use vstd::prelude::*;
use crate::cardinality::{lemma_count_at_least, lemma_exact_count};
use crate::encoding::{
    col_vars, lemma_differing, orbit_put, pair_vars, present, row_vars, table_within, Encoding,
    Status,
};
use crate::formula::{
    all_true, all_within, clause_holds, count_true, lemma_grows_trans, lemma_with_clause,
};
use crate::gates::{lemma_and_var, lemma_or_var};
use crate::literal::{Assignment, Literal, MAX_VARIABLES};
use crate::puzzle::{
    exchange_points, lemma_pairs_below, lemma_pairs_below_distinct, lemma_pairs_below_has,
    pairs_below, Puzzle,
};
use crate::tables::ordered;

verus! {

/// The literals of a row of a table are literals of the table.
pub proof fn lemma_row_vars_within(table: Map<(nat, nat), Literal>, s: nat, n: nat, num_vars: nat)
    requires
        table_within(table, num_vars),
    ensures
        all_within(row_vars(table, s, n), num_vars),
    decreases n,
{
    if n > 0 {
        lemma_row_vars_within(table, s, (n - 1) as nat, num_vars);
        let rest = row_vars(table, s, (n - 1) as nat);
        if table.contains_key((s, (n - 1) as nat)) {
            assert forall|i: int| 0 <= i < rest.len() + 1 implies (#[trigger] rest.push(
                table[(s, (n - 1) as nat)],
            )[i]).within(num_vars) by {}
        }
    }
}

/// The literals of a column of a table are literals of the table.
pub proof fn lemma_col_vars_within(table: Map<(nat, nat), Literal>, d: nat, n: nat, num_vars: nat)
    requires
        table_within(table, num_vars),
    ensures
        all_within(col_vars(table, d, n), num_vars),
    decreases n,
{
    if n > 0 {
        lemma_col_vars_within(table, d, (n - 1) as nat, num_vars);
        let rest = col_vars(table, d, (n - 1) as nat);
        if table.contains_key(((n - 1) as nat, d)) {
            assert forall|i: int| 0 <= i < rest.len() + 1 implies (#[trigger] rest.push(
                table[((n - 1) as nat, d)],
            )[i]).within(num_vars) by {}
        }
    }
}

/// The literals of the pairs of a key are literals of the table.
pub proof fn lemma_pair_vars_within(table: Map<(nat, nat), Literal>, a: nat, n: nat, num_vars: nat)
    requires
        table_within(table, num_vars),
    ensures
        all_within(pair_vars(table, a, n), num_vars),
    decreases n,
{
    if n > 0 {
        lemma_pair_vars_within(table, a, (n - 1) as nat, num_vars);
        let rest = pair_vars(table, a, (n - 1) as nat);
        let key = ordered(a, (n - 1) as nat);
        if table.contains_key(key) {
            assert forall|i: int| 0 <= i < rest.len() + 1 implies (#[trigger] rest.push(
                table[key],
            )[i]).within(num_vars) by {}
        }
    }
}

impl Encoding {
    /// Whether `other` has the tables of this state.
    pub open spec fn same_tables(self, other: Encoding) -> bool {
        &&& self.point_dest == other.point_dest
        &&& self.adjacent == other.adjacent
        &&& self.matching == other.matching
    }

    /// Whether `other` is a later state of the construction: its formula has
    /// grown from this one, and where nothing has gone wrong in it nothing
    /// had before.
    pub open spec fn leads_to(self, other: Encoding) -> bool {
        &&& other.wf()
        &&& self.formula.grows_to(other.formula)
        &&& other.status == Status::Building ==> self.status == Status::Building
    }

    /// Whether under `a` the piece `piece` goes to exactly one place.
    pub open spec fn one_dest<P: Puzzle>(self, puzzle: &P, piece: nat, a: Assignment) -> bool {
        count_true(row_vars(self.point_dest, puzzle.anchor(piece), 2 * puzzle.edges()), a) == 1
    }

    /// Whether under `a` the place of `piece` takes exactly one piece.
    pub open spec fn one_src<P: Puzzle>(self, puzzle: &P, piece: nat, a: Assignment) -> bool {
        count_true(col_vars(self.point_dest, puzzle.anchor(piece), 2 * puzzle.edges()), a) == 1
    }

    /// Whether under `a` the edge `edge` has the shape of exactly one other
    /// edge.
    pub open spec fn one_match<P: Puzzle>(self, puzzle: &P, edge: nat, a: Assignment) -> bool {
        count_true(pair_vars(self.matching, edge, puzzle.edges()), a) == 1
    }
}

/// "Exactly one of `vars`" says so: an assignment that satisfies the formula
/// after it satisfied the formula before and makes exactly one literal true.
pub proof fn lemma_one_hot(e: Encoding, vars: Seq<Literal>, m: Assignment)
    requires
        e.wf(),
        all_within(vars, e.formula.num_vars),
    ensures
        e.leads_to(e.one_hot(vars)),
        e.same_tables(e.one_hot(vars)),
        e.one_hot(vars).status == Status::Building && e.one_hot(vars).formula.holds(m)
            ==> e.formula.holds(m) && count_true(vars, m) == 1,
{
    let f = e.formula;
    assert(f.clauses.take(f.clauses.len() as int) =~= f.clauses);
    if e.status != Status::Building {
    } else if 1 < vars.len() && f.num_vars + 2 * vars.len() > MAX_VARIABLES {
    } else {
        if f.exact_count_fits(1, vars) {
            lemma_exact_count(f, 1, vars, m);
        } else if 0 < 1 < vars.len() {
            lemma_count_at_least(f, 2, vars, m);
        }
    }
}

/// After the pieces have been told to go to one place each, they do: in every
/// assignment that satisfies the formula, each of them has exactly one
/// destination variable that is true.
pub proof fn lemma_one_hot_point_dest<P: Puzzle>(puzzle: &P, e: Encoding, pieces: nat, m: Assignment)
    requires
        e.wf(),
    ensures
        e.leads_to(e.one_hot_point_dest(puzzle, pieces)),
        e.same_tables(e.one_hot_point_dest(puzzle, pieces)),
        e.one_hot_point_dest(puzzle, pieces).status == Status::Building && e.one_hot_point_dest(
            puzzle,
            pieces,
        ).formula.holds(m) ==> e.formula.holds(m) && forall|piece: nat|
            piece < pieces ==> #[trigger] e.one_dest(puzzle, piece, m),
    decreases pieces,
{
    let f = e.formula;
    assert(f.clauses.take(f.clauses.len() as int) =~= f.clauses);
    if pieces > 0 {
        let piece = (pieces - 1) as nat;
        let done = e.one_hot_point_dest(puzzle, piece);
        let vars = row_vars(done.point_dest, puzzle.anchor(piece), 2 * puzzle.edges());
        lemma_one_hot_point_dest(puzzle, e, piece, m);
        lemma_row_vars_within(
            done.point_dest,
            puzzle.anchor(piece),
            2 * puzzle.edges(),
            done.formula.num_vars,
        );
        lemma_one_hot(done, vars, m);
        lemma_grows_trans(f, done.formula, done.one_hot(vars).formula);
    }
}

/// After the places have been told to take one piece each, they do.
pub proof fn lemma_one_hot_point_src<P: Puzzle>(puzzle: &P, e: Encoding, pieces: nat, m: Assignment)
    requires
        e.wf(),
    ensures
        e.leads_to(e.one_hot_point_src(puzzle, pieces)),
        e.same_tables(e.one_hot_point_src(puzzle, pieces)),
        e.one_hot_point_src(puzzle, pieces).status == Status::Building && e.one_hot_point_src(
            puzzle,
            pieces,
        ).formula.holds(m) ==> e.formula.holds(m) && forall|piece: nat|
            piece < pieces ==> #[trigger] e.one_src(puzzle, piece, m),
    decreases pieces,
{
    let f = e.formula;
    assert(f.clauses.take(f.clauses.len() as int) =~= f.clauses);
    if pieces > 0 {
        let piece = (pieces - 1) as nat;
        let done = e.one_hot_point_src(puzzle, piece);
        let vars = col_vars(done.point_dest, puzzle.anchor(piece), 2 * puzzle.edges());
        lemma_one_hot_point_src(puzzle, e, piece, m);
        lemma_col_vars_within(
            done.point_dest,
            puzzle.anchor(piece),
            2 * puzzle.edges(),
            done.formula.num_vars,
        );
        lemma_one_hot(done, vars, m);
        lemma_grows_trans(f, done.formula, done.one_hot(vars).formula);
    }
}

/// After the edges have been told to match one other edge each, they do.
pub proof fn lemma_one_hot_edge_matching<P: Puzzle>(
    puzzle: &P,
    e: Encoding,
    edges: nat,
    m: Assignment,
)
    requires
        e.wf(),
    ensures
        e.leads_to(e.one_hot_edge_matching(puzzle, edges)),
        e.same_tables(e.one_hot_edge_matching(puzzle, edges)),
        e.one_hot_edge_matching(puzzle, edges).status == Status::Building
            && e.one_hot_edge_matching(puzzle, edges).formula.holds(m) ==> e.formula.holds(m)
            && forall|edge: nat| edge < edges ==> #[trigger] e.one_match(puzzle, edge, m),
    decreases edges,
{
    let f = e.formula;
    assert(f.clauses.take(f.clauses.len() as int) =~= f.clauses);
    if edges > 0 {
        let edge = (edges - 1) as nat;
        let done = e.one_hot_edge_matching(puzzle, edge);
        let vars = pair_vars(done.matching, edge, puzzle.edges());
        lemma_one_hot_edge_matching(puzzle, e, edge, m);
        lemma_pair_vars_within(done.matching, edge, puzzle.edges(), done.formula.num_vars);
        lemma_one_hot(done, vars, m);
        lemma_grows_trans(f, done.formula, done.one_hot(vars).formula);
    }
}

/// Whether under `a` the points `x` and `y` come to lie across an edge from
/// each other, `x` at a place below `n`: `x` goes to some place, and `y` to
/// the point across from it.
pub open spec fn lies_across<P: Puzzle>(
    puzzle: &P,
    table: Map<(nat, nat), Literal>,
    x: nat,
    y: nat,
    a: Assignment,
    n: nat,
) -> bool {
    exists|dest: nat|
        dest < n && table.contains_key((x, dest)) && table.contains_key((y, puzzle.mate(dest)))
            && (#[trigger] table[(x, dest)]).value(a) && table[(y, puzzle.mate(dest))].value(a)
}

/// The ways in which a point of edge `x` and a point of edge `y` can come to
/// lie across an edge from each other, as the literals that stand for them.
pub open spec fn ways_to_match<P: Puzzle>(
    puzzle: &P,
    adjacent: Map<(nat, nat), Literal>,
    x: nat,
    y: nat,
) -> Seq<Literal> {
    let x1 = puzzle.edge_anchor(x);
    let x2 = puzzle.mate(x1);
    let y1 = puzzle.edge_anchor(y);
    let y2 = puzzle.mate(y1);
    present(adjacent, x1, y1) + present(adjacent, x1, y2) + present(adjacent, x2, y1) + present(
        adjacent,
        x2,
        y2,
    )
}

/// Whether no two pairs of `pairs` are the same unordered pair.
pub open spec fn distinct_keys(pairs: Seq<(nat, nat)>) -> bool {
    forall|i: int, j: int|
        0 <= i < j < pairs.len() ==> ordered(#[trigger] pairs[i].0, pairs[i].1) != ordered(
            #[trigger] pairs[j].0,
            pairs[j].1,
        )
}

/// A table keeps what it held: every entry of `old` is an entry of `new`.
pub open spec fn table_kept(old: Map<(nat, nat), Literal>, new: Map<(nat, nat), Literal>) -> bool {
    forall|k: (nat, nat)| #[trigger] old.contains_key(k) ==> new.contains_key(k) && new[k] == old[k]
}

/// The literals that stand for the ways in which `a` and `b` can come to lie
/// across an edge say so: in an assignment that satisfies the formula after
/// they have been defined, one of them is true exactly when there is such a
/// way.
pub proof fn lemma_adjacent_terms<P: Puzzle>(
    puzzle: &P,
    e: Encoding,
    a: nat,
    b: nat,
    n: nat,
    m: Assignment,
)
    requires
        e.wf(),
    ensures
        e.leads_to(e.adjacent_terms(puzzle, a, b, n).1),
        e.same_tables(e.adjacent_terms(puzzle, a, b, n).1),
        all_within(
            e.adjacent_terms(puzzle, a, b, n).0,
            e.adjacent_terms(puzzle, a, b, n).1.formula.num_vars,
        ),
        e.adjacent_terms(puzzle, a, b, n).1.status == Status::Building && e.adjacent_terms(
            puzzle,
            a,
            b,
            n,
        ).1.formula.holds(m) ==> e.formula.holds(m) && (clause_holds(
            e.adjacent_terms(puzzle, a, b, n).0,
            m,
        ) <==> lies_across(puzzle, e.point_dest, a, b, m, n)),
    decreases n,
{
    let f = e.formula;
    assert(f.clauses.take(f.clauses.len() as int) =~= f.clauses);
    if n > 0 {
        let dest_a = (n - 1) as nat;
        let dest_b = puzzle.mate(dest_a);
        let (terms, e1) = e.adjacent_terms(puzzle, a, b, dest_a);
        let (all, e2) = e.adjacent_terms(puzzle, a, b, n);
        lemma_adjacent_terms(puzzle, e, a, b, dest_a, m);
        let table = e.point_dest;
        if e1.status != Status::Building || !table.contains_key((a, dest_a))
            || !table.contains_key((b, dest_b)) {
            if e2.status == Status::Building && e2.formula.holds(m) {
                if lies_across(puzzle, table, a, b, m, n) {
                    let d = choose|d: nat|
                        d < n && table.contains_key((a, d)) && table.contains_key(
                            (b, puzzle.mate(d)),
                        ) && (#[trigger] table[(a, d)]).value(m) && table[(
                            b,
                            puzzle.mate(d),
                        )].value(m);
                }
                if lies_across(puzzle, table, a, b, m, dest_a) {
                    let d = choose|d: nat|
                        d < dest_a && table.contains_key((a, d)) && table.contains_key(
                            (b, puzzle.mate(d)),
                        ) && (#[trigger] table[(a, d)]).value(m) && table[(
                            b,
                            puzzle.mate(d),
                        )].value(m);
                }
            }
        } else if e1.formula.num_vars >= MAX_VARIABLES {
        } else {
            let va = table[(a, dest_a)];
            let vb = table[(b, dest_b)];
            let pair = seq![va, vb];
            lemma_and_var(e1.formula, pair, m);
            let (both, g) = e1.formula.and_var(pair);
            lemma_grows_trans(f, e1.formula, g);
            assert forall|i: int| 0 <= i < all.len() implies (#[trigger] all[i]).within(
                g.num_vars,
            ) by {}
            if e2.status == Status::Building && g.holds(m) {
                assert(all_true(pair, m) == (va.value(m) && vb.value(m))) by {
                    if va.value(m) && vb.value(m) {
                        assert forall|i: int| 0 <= i < pair.len() implies (#[trigger] pair[i]).value(
                            m,
                        ) by {}
                    }
                }
                if clause_holds(all, m) {
                    let i = choose|i: int| 0 <= i < all.len() && (#[trigger] all[i]).value(m);
                    if i < terms.len() {
                        let d = choose|d: nat|
                            d < dest_a && table.contains_key((a, d)) && table.contains_key(
                                (b, puzzle.mate(d)),
                            ) && (#[trigger] table[(a, d)]).value(m) && table[(
                                b,
                                puzzle.mate(d),
                            )].value(m);
                    }
                }
                if lies_across(puzzle, table, a, b, m, n) {
                    let d = choose|d: nat|
                        d < n && table.contains_key((a, d)) && table.contains_key(
                            (b, puzzle.mate(d)),
                        ) && (#[trigger] table[(a, d)]).value(m) && table[(
                            b,
                            puzzle.mate(d),
                        )].value(m);
                    if d < dest_a {
                        let i = choose|i: int|
                            0 <= i < terms.len() && (#[trigger] terms[i]).value(m);
                        assert(all[i].value(m));
                    } else {
                        assert(all[all.len() - 1].value(m));
                    }
                }
            }
        }
    }
}

/// The literal for "`a` and `b` come to lie across an edge" says so: where
/// nothing goes wrong it is entered for the pair, which had no entry, and in
/// an assignment that satisfies the formula it is true exactly when the two
/// points come to lie so.
pub proof fn lemma_adjacent_var<P: Puzzle>(puzzle: &P, e: Encoding, a: nat, b: nat, m: Assignment)
    requires
        e.wf(),
    ensures
        e.leads_to(e.adjacent_var(puzzle, a, b)),
        e.adjacent_var(puzzle, a, b).point_dest == e.point_dest,
        e.adjacent_var(puzzle, a, b).matching == e.matching,
        table_kept(e.adjacent, e.adjacent_var(puzzle, a, b).adjacent),
        forall|k: (nat, nat)|
            e.adjacent_var(puzzle, a, b).adjacent.contains_key(k) ==> e.adjacent.contains_key(k)
                || k == ordered(a, b),
        e.adjacent_var(puzzle, a, b).status == Status::Building ==> {
            &&& !e.adjacent.contains_key(ordered(a, b))
            &&& e.adjacent_var(puzzle, a, b).adjacent.contains_key(ordered(a, b))
            &&& e.adjacent_var(puzzle, a, b).formula.holds(m) ==> e.formula.holds(m) && (
            e.adjacent_var(puzzle, a, b).adjacent[ordered(a, b)].value(m) <==> lies_across(
                puzzle,
                e.point_dest,
                a,
                b,
                m,
                2 * puzzle.edges(),
            ))
        },
{
    let (terms, e1) = e.adjacent_terms(puzzle, a, b, 2 * puzzle.edges());
    lemma_adjacent_terms(puzzle, e, a, b, 2 * puzzle.edges(), m);
    if e1.status != Status::Building {
    } else if e1.formula.num_vars >= MAX_VARIABLES {
    } else {
        lemma_or_var(e1.formula, terms, m);
        let (any, g) = e1.formula.or_var(terms);
        lemma_grows_trans(e.formula, e1.formula, g);
    }
}

/// After every pair of `pairs` has been given its literal, each literal says
/// what it stands for, and the table has an entry for each pair.
pub proof fn lemma_adjacent_vars<P: Puzzle>(
    puzzle: &P,
    e: Encoding,
    pairs: Seq<(nat, nat)>,
    m: Assignment,
)
    requires
        e.wf(),
    ensures
        e.leads_to(e.adjacent_vars(puzzle, pairs)),
        e.adjacent_vars(puzzle, pairs).point_dest == e.point_dest,
        e.adjacent_vars(puzzle, pairs).matching == e.matching,
        table_kept(e.adjacent, e.adjacent_vars(puzzle, pairs).adjacent),
        forall|k: (nat, nat)|
            e.adjacent_vars(puzzle, pairs).adjacent.contains_key(k) ==> e.adjacent.contains_key(k)
                || exists|i: int|
                0 <= i < pairs.len() && k == ordered(#[trigger] pairs[i].0, pairs[i].1),
        e.adjacent_vars(puzzle, pairs).status == Status::Building ==> forall|i: int|
            0 <= i < pairs.len() ==> {
                &&& e.adjacent_vars(puzzle, pairs).adjacent.contains_key(
                    #[trigger] ordered(pairs[i].0, pairs[i].1),
                )
                &&& e.adjacent_vars(puzzle, pairs).formula.holds(m) ==> (e.adjacent_vars(
                    puzzle,
                    pairs,
                ).adjacent[ordered(pairs[i].0, pairs[i].1)].value(m) <==> lies_across(
                    puzzle,
                    e.point_dest,
                    pairs[i].0,
                    pairs[i].1,
                    m,
                    2 * puzzle.edges(),
                ))
            },
        e.adjacent_vars(puzzle, pairs).status == Status::Building && e.adjacent_vars(
            puzzle,
            pairs,
        ).formula.holds(m) ==> e.formula.holds(m),
    decreases pairs.len(),
{
    let f = e.formula;
    assert(f.clauses.take(f.clauses.len() as int) =~= f.clauses);
    if pairs.len() > 0 {
        let init = pairs.drop_last();
        let last = pairs.last();
        let e1 = e.adjacent_vars(puzzle, init);
        let e2 = e1.adjacent_var(puzzle, last.0, last.1);
        lemma_adjacent_vars(puzzle, e, init, m);
        lemma_adjacent_var(puzzle, e1, last.0, last.1, m);
        lemma_grows_trans(f, e1.formula, e2.formula);
        assert forall|k: (nat, nat)| #[trigger]
            e.adjacent.contains_key(k) implies e2.adjacent.contains_key(k) && e2.adjacent[k]
            == e.adjacent[k] by {}
        assert forall|k: (nat, nat)| e2.adjacent.contains_key(k) implies e.adjacent.contains_key(
            k,
        ) || exists|i: int|
            0 <= i < pairs.len() && k == ordered(#[trigger] pairs[i].0, pairs[i].1) by {
            if !e.adjacent.contains_key(k) {
                if e1.adjacent.contains_key(k) {
                    let i = choose|i: int|
                        0 <= i < init.len() && k == ordered(#[trigger] init[i].0, init[i].1);
                }
            }
        }
        if e2.status == Status::Building {
            assert forall|i: int| 0 <= i < pairs.len() implies {
                &&& e2.adjacent.contains_key(#[trigger] ordered(pairs[i].0, pairs[i].1))
                &&& e2.formula.holds(m) ==> (e2.adjacent[ordered(pairs[i].0, pairs[i].1)].value(m)
                    <==> lies_across(
                    puzzle,
                    e.point_dest,
                    pairs[i].0,
                    pairs[i].1,
                    m,
                    2 * puzzle.edges(),
                ))
            } by {
                if i < init.len() {
                    let key = ordered(init[i].0, init[i].1);
                }
            }
        }
    }
}

/// After the first `edges` edges have been told to be cut, they are: in an
/// assignment that satisfies the formula, the two points of none of them
/// come to lie across an edge from each other.
pub proof fn lemma_not_same<P: Puzzle>(puzzle: &P, e: Encoding, edges: nat, m: Assignment)
    requires
        e.wf(),
    ensures
        e.leads_to(e.point_dest_adjacent_not_same(puzzle, edges)),
        e.same_tables(e.point_dest_adjacent_not_same(puzzle, edges)),
        e.point_dest_adjacent_not_same(puzzle, edges).status == Status::Building ==> forall|
            edge: nat,
        |
            edge < edges ==> {
                &&& e.adjacent.contains_key(
                    #[trigger] ordered(
                        puzzle.edge_anchor(edge),
                        puzzle.mate(puzzle.edge_anchor(edge)),
                    ),
                )
                &&& e.point_dest_adjacent_not_same(puzzle, edges).formula.holds(m)
                    ==> !e.adjacent[ordered(
                    puzzle.edge_anchor(edge),
                    puzzle.mate(puzzle.edge_anchor(edge)),
                )].value(m)
            },
        e.point_dest_adjacent_not_same(puzzle, edges).status == Status::Building
            && e.point_dest_adjacent_not_same(puzzle, edges).formula.holds(m) ==> e.formula.holds(
            m,
        ),
    decreases edges,
{
    let f = e.formula;
    assert(f.clauses.take(f.clauses.len() as int) =~= f.clauses);
    if edges > 0 {
        let edge = (edges - 1) as nat;
        let e1 = e.point_dest_adjacent_not_same(puzzle, edge);
        let e2 = e1.not_same(puzzle, edge);
        let key = ordered(puzzle.edge_anchor(edge), puzzle.mate(puzzle.edge_anchor(edge)));
        lemma_not_same(puzzle, e, edge, m);
        if e1.status == Status::Building && e1.adjacent.contains_key(key) && e1.adjacent[key]
            != Literal::True {
            let lit = e1.adjacent[key];
            let unit = seq![lit.negation()];
            lemma_with_clause(e1.formula, unit, m);
            lemma_grows_trans(f, e1.formula, e2.formula);
            assert(clause_holds(unit, m) == !lit.value(m)) by {
                if !lit.value(m) {
                    assert(unit[0].value(m));
                }
            }
        }
    }
}

/// Whether under `a` the edges `x` and `y` have the same shape: the pair has
/// a literal, and it is true.
pub open spec fn shapes_match(matching: Map<(nat, nat), Literal>, x: nat, y: nat, a: Assignment) -> bool {
    matching.contains_key(ordered(x, y)) && matching[ordered(x, y)].value(a)
}

/// The literal for "the edges `a` and `b` have the same shape" says so: in
/// an assignment that satisfies the formula, the pair has a literal that is
/// true exactly when a point of one edge comes to lie across from a point of
/// the other.
pub proof fn lemma_edge_matching_var<P: Puzzle>(
    puzzle: &P,
    e: Encoding,
    a: nat,
    b: nat,
    m: Assignment,
)
    requires
        e.wf(),
        !e.matching.contains_key(ordered(a, b)),
    ensures
        e.leads_to(e.edge_matching_var(puzzle, a, b)),
        e.edge_matching_var(puzzle, a, b).point_dest == e.point_dest,
        e.edge_matching_var(puzzle, a, b).adjacent == e.adjacent,
        table_kept(e.matching, e.edge_matching_var(puzzle, a, b).matching),
        forall|k: (nat, nat)|
            e.edge_matching_var(puzzle, a, b).matching.contains_key(k) ==> e.matching.contains_key(
                k,
            ) || k == ordered(a, b),
        e.edge_matching_var(puzzle, a, b).status == Status::Building && e.edge_matching_var(
            puzzle,
            a,
            b,
        ).formula.holds(m) ==> e.formula.holds(m) && (shapes_match(
            e.edge_matching_var(puzzle, a, b).matching,
            a,
            b,
            m,
        ) <==> clause_holds(ways_to_match(puzzle, e.adjacent, a, b), m)),
{
    let f = e.formula;
    let ways = ways_to_match(puzzle, e.adjacent, a, b);
    assert(f.clauses.take(f.clauses.len() as int) =~= f.clauses);
    if e.status != Status::Building || ways.len() == 0 {
    } else if f.num_vars >= MAX_VARIABLES {
    } else {
        lemma_or_var(f, ways, m);
        let (any, g) = f.or_var(ways);
    }
}

/// After every pair of `pairs` has been given its literal where it can have
/// one, the table says which edges have the same shape.
pub proof fn lemma_matching_vars<P: Puzzle>(
    puzzle: &P,
    e: Encoding,
    pairs: Seq<(nat, nat)>,
    m: Assignment,
)
    requires
        e.wf(),
        forall|i: int, j: int|
            0 <= i < j < pairs.len() ==> ordered(#[trigger] pairs[i].0, pairs[i].1) != ordered(
                #[trigger] pairs[j].0,
                pairs[j].1,
            ),
        forall|i: int|
            0 <= i < pairs.len() ==> !e.matching.contains_key(
                ordered(#[trigger] pairs[i].0, pairs[i].1),
            ),
    ensures
        e.leads_to(e.matching_vars(puzzle, pairs)),
        e.matching_vars(puzzle, pairs).point_dest == e.point_dest,
        e.matching_vars(puzzle, pairs).adjacent == e.adjacent,
        table_kept(e.matching, e.matching_vars(puzzle, pairs).matching),
        forall|k: (nat, nat)|
            e.matching_vars(puzzle, pairs).matching.contains_key(k) ==> e.matching.contains_key(k)
                || exists|i: int|
                0 <= i < pairs.len() && k == ordered(#[trigger] pairs[i].0, pairs[i].1),
        e.matching_vars(puzzle, pairs).status == Status::Building && e.matching_vars(
            puzzle,
            pairs,
        ).formula.holds(m) ==> e.formula.holds(m) && forall|i: int|
            0 <= i < pairs.len() ==> (shapes_match(
                e.matching_vars(puzzle, pairs).matching,
                #[trigger] pairs[i].0,
                pairs[i].1,
                m,
            ) <==> clause_holds(ways_to_match(puzzle, e.adjacent, pairs[i].0, pairs[i].1), m)),
    decreases pairs.len(),
{
    let f = e.formula;
    assert(f.clauses.take(f.clauses.len() as int) =~= f.clauses);
    if pairs.len() > 0 {
        let init = pairs.drop_last();
        let last = pairs.last();
        let key = ordered(last.0, last.1);
        let e1 = e.matching_vars(puzzle, init);
        let e2 = e1.edge_matching_var(puzzle, last.0, last.1);
        assert forall|i: int, j: int| 0 <= i < j < init.len() implies ordered(
            #[trigger] init[i].0,
            init[i].1,
        ) != ordered(#[trigger] init[j].0, init[j].1) by {}
        assert forall|i: int| 0 <= i < init.len() implies !e.matching.contains_key(
            ordered(#[trigger] init[i].0, init[i].1),
        ) by {}
        lemma_matching_vars(puzzle, e, init, m);
        assert(!e1.matching.contains_key(key)) by {
            if e1.matching.contains_key(key) {
                let i = choose|i: int|
                    0 <= i < init.len() && key == ordered(#[trigger] init[i].0, init[i].1);
            }
        }
        lemma_edge_matching_var(puzzle, e1, last.0, last.1, m);
        lemma_grows_trans(f, e1.formula, e2.formula);
        assert forall|k: (nat, nat)| #[trigger]
            e.matching.contains_key(k) implies e2.matching.contains_key(k) && e2.matching[k]
            == e.matching[k] by {}
        assert forall|k: (nat, nat)| e2.matching.contains_key(k) implies e.matching.contains_key(
            k,
        ) || exists|i: int|
            0 <= i < pairs.len() && k == ordered(#[trigger] pairs[i].0, pairs[i].1) by {
            if !e.matching.contains_key(k) {
                if e1.matching.contains_key(k) {
                    let i = choose|i: int|
                        0 <= i < init.len() && k == ordered(#[trigger] init[i].0, init[i].1);
                }
            }
        }
        if e2.status == Status::Building && e2.formula.holds(m) {
            assert forall|i: int| 0 <= i < pairs.len() implies (shapes_match(
                e2.matching,
                #[trigger] pairs[i].0,
                pairs[i].1,
                m,
            ) <==> clause_holds(
                ways_to_match(puzzle, e.adjacent, pairs[i].0, pairs[i].1),
                m,
            )) by {
                if i < init.len() {
                    let key_i = ordered(init[i].0, init[i].1);
                }
            }
        }
    }
}

/// Entering a literal for the pairs around two pieces keeps the entries that
/// were there, and keeps the table within the variables.
pub proof fn lemma_orbit_put<P: Puzzle>(
    puzzle: &P,
    table: Map<(nat, nat), Literal>,
    s: nat,
    d: nat,
    var: Literal,
    steps: nat,
    num_vars: nat,
)
    requires
        table_within(table, num_vars),
        var.within(num_vars),
    ensures
        table_within(orbit_put(puzzle, table, s, d, var, steps).0, num_vars),
        table_kept(table, orbit_put(puzzle, table, s, d, var, steps).0),
    decreases steps,
{
    if steps > 0 {
        let entered = if table.contains_key((s, d)) {
            table
        } else {
            table.insert((s, d), var)
        };
        assert forall|k: (nat, nat)| entered.contains_key(k) implies (#[trigger] entered[k]).within(
            num_vars,
        ) by {}
        lemma_orbit_put(
            puzzle,
            entered,
            puzzle.next(s),
            puzzle.next(d),
            var,
            (steps - 1) as nat,
            num_vars,
        );
        let result = orbit_put(puzzle, table, s, d, var, steps).0;
        assert forall|k: (nat, nat)| #[trigger] table.contains_key(k) implies result.contains_key(
            k,
        ) && result[k] == table[k] by {
            assert(entered.contains_key(k));
        }
    }
}

/// Handing out the destination variables adds no clause and leaves the other
/// tables alone.
pub proof fn lemma_dest_vars<P: Puzzle>(puzzle: &P, e: Encoding, s0: nat, dests: Seq<nat>, sides: nat)
    requires
        e.wf(),
    ensures
        e.leads_to(e.dest_vars(puzzle, s0, dests, sides)),
        e.dest_vars(puzzle, s0, dests, sides).formula.clauses == e.formula.clauses,
        e.dest_vars(puzzle, s0, dests, sides).adjacent == e.adjacent,
        e.dest_vars(puzzle, s0, dests, sides).matching == e.matching,
        table_kept(e.point_dest, e.dest_vars(puzzle, s0, dests, sides).point_dest),
    decreases dests.len(),
{
    let f = e.formula;
    assert(f.clauses.take(f.clauses.len() as int) =~= f.clauses);
    if dests.len() > 0 {
        let e1 = e.dest_vars(puzzle, s0, dests.drop_last(), sides);
        let e2 = e1.dest_var(puzzle, s0, dests.last(), sides);
        lemma_dest_vars(puzzle, e, s0, dests.drop_last(), sides);
        if e1.status == Status::Building && e1.formula.num_vars < MAX_VARIABLES {
            lemma_orbit_put(
                puzzle,
                e1.point_dest,
                s0,
                dests.last(),
                e1.formula.fresh(),
                sides,
                e2.formula.num_vars,
            );
        }
        assert forall|k: (nat, nat)| #[trigger]
            e.point_dest.contains_key(k) implies e2.point_dest.contains_key(k)
            && e2.point_dest[k] == e.point_dest[k] by {}
    }
}

/// Handing out the destination variables of all pieces adds no clause and
/// leaves the other tables alone.
pub proof fn lemma_point_dest_vars<P: Puzzle>(puzzle: &P, e: Encoding, pieces: nat)
    requires
        e.wf(),
    ensures
        e.leads_to(e.point_dest_vars(puzzle, pieces)),
        e.point_dest_vars(puzzle, pieces).formula.clauses == e.formula.clauses,
        e.point_dest_vars(puzzle, pieces).adjacent == e.adjacent,
        e.point_dest_vars(puzzle, pieces).matching == e.matching,
        table_kept(e.point_dest, e.point_dest_vars(puzzle, pieces).point_dest),
    decreases pieces,
{
    let f = e.formula;
    assert(f.clauses.take(f.clauses.len() as int) =~= f.clauses);
    if pieces > 0 {
        let piece = (pieces - 1) as nat;
        let s0 = puzzle.anchor(piece);
        let e1 = e.point_dest_vars(puzzle, piece);
        let e2 = e1.dest_vars(puzzle, s0, exchange_points(puzzle, s0), puzzle.sides(piece));
        lemma_point_dest_vars(puzzle, e, piece);
        lemma_dest_vars(puzzle, e1, s0, exchange_points(puzzle, s0), puzzle.sides(piece));
        assert forall|k: (nat, nat)| #[trigger]
            e.point_dest.contains_key(k) implies e2.point_dest.contains_key(k)
            && e2.point_dest[k] == e.point_dest[k] by {}
    }
}

impl Encoding {
    /// Whether `a` shows a doubling of the puzzle: each piece goes to exactly
    /// one place and each place takes exactly one piece; the literal of two
    /// points is true exactly when they come to lie across an edge from each
    /// other; the two points of no edge do; the literal of two edges is true
    /// exactly when a point of one comes to lie across from a point of the
    /// other; and each edge has the shape of exactly one other.
    pub open spec fn shows_doubling<P: Puzzle>(self, puzzle: &P, a: Assignment) -> bool {
        &&& forall|piece: nat|
            piece < puzzle.pieces() ==> #[trigger] self.one_dest(puzzle, piece, a)
        &&& forall|piece: nat| piece < puzzle.pieces() ==> #[trigger] self.one_src(puzzle, piece, a)
        &&& forall|x: nat, y: nat|
            #![trigger self.adjacent[(y, x)]]
            #![trigger self.adjacent.contains_key((y, x))]
            y < x < 2 * puzzle.edges() ==> self.adjacent.contains_key((y, x)) && (self.adjacent[(
                y,
                x,
            )].value(a) <==> lies_across(puzzle, self.point_dest, x, y, a, 2 * puzzle.edges()))
        &&& forall|edge: nat|
            edge < puzzle.edges() ==> self.adjacent.contains_key(
                #[trigger] ordered(puzzle.edge_anchor(edge), puzzle.mate(puzzle.edge_anchor(edge))),
            ) && !self.adjacent[ordered(
                puzzle.edge_anchor(edge),
                puzzle.mate(puzzle.edge_anchor(edge)),
            )].value(a)
        &&& forall|x: nat, y: nat|
            y < x < puzzle.edges() ==> (#[trigger] shapes_match(self.matching, x, y, a)
                <==> clause_holds(ways_to_match(puzzle, self.adjacent, x, y), a))
        &&& forall|edge: nat| edge < puzzle.edges() ==> #[trigger] self.one_match(puzzle, edge, a)
    }

    /// Whether this state has come from `from` by ruling out doublings: the
    /// tables are those of `from`, the formula has grown from that of `from`,
    /// and where nothing has gone wrong here nothing had gone wrong there.
    pub open spec fn follows(self, from: Encoding) -> bool {
        &&& from.same_tables(self)
        &&& from.formula.grows_to(self.formula)
        &&& self.status == Status::Building ==> from.status == Status::Building
    }
}

/// What the formula of a search says: every assignment that satisfies the
/// formula that was built for a puzzle without anything going wrong shows a
/// doubling of the puzzle.
pub proof fn lemma_encoded<P: Puzzle>(puzzle: &P, m: Assignment)
    requires
        puzzle.wf(),
        Encoding::start(puzzle).encoded(puzzle).status == Status::Building,
        Encoding::start(puzzle).encoded(puzzle).formula.holds(m),
    ensures
        Encoding::start(puzzle).encoded(puzzle).wf(),
        Encoding::start(puzzle).encoded(puzzle).shows_doubling(puzzle, m),
{
    let points = 2 * puzzle.edges();
    let e0 = Encoding::start(puzzle);
    let e1 = e0.point_dest_vars(puzzle, puzzle.pieces());
    let e2 = e1.one_hot_point_dest(puzzle, puzzle.pieces());
    let e3 = e2.one_hot_point_src(puzzle, puzzle.pieces());
    let e4 = e3.point_dest_adjacent_vars(puzzle);
    let e5 = e4.point_dest_adjacent_not_same(puzzle, puzzle.edges());
    let e6 = e5.edge_matching_vars(puzzle);
    let e7 = e6.one_hot_edge_matching(puzzle, puzzle.edges());
    let point_pairs = pairs_below(points);
    let edge_pairs = pairs_below(puzzle.edges());
    lemma_point_dest_vars(puzzle, e0, puzzle.pieces());
    lemma_one_hot_point_dest(puzzle, e1, puzzle.pieces(), m);
    lemma_one_hot_point_src(puzzle, e2, puzzle.pieces(), m);
    lemma_adjacent_vars(puzzle, e3, point_pairs, m);
    lemma_not_same(puzzle, e4, puzzle.edges(), m);
    lemma_pairs_below(puzzle.edges());
    lemma_pairs_below_distinct(puzzle.edges());
    assert forall|i: int, j: int| 0 <= i < j < edge_pairs.len() implies ordered(
        #[trigger] edge_pairs[i].0,
        edge_pairs[i].1,
    ) != ordered(#[trigger] edge_pairs[j].0, edge_pairs[j].1) by {}
    lemma_matching_vars(puzzle, e5, edge_pairs, m);
    lemma_one_hot_edge_matching(puzzle, e6, puzzle.edges(), m);
    assert forall|piece: nat| piece < puzzle.pieces() implies #[trigger] e7.one_dest(
        puzzle,
        piece,
        m,
    ) by {
        assert(e1.one_dest(puzzle, piece, m));
    }
    assert forall|piece: nat| piece < puzzle.pieces() implies #[trigger] e7.one_src(
        puzzle,
        piece,
        m,
    ) by {
        assert(e2.one_src(puzzle, piece, m));
    }
    assert forall|x: nat, y: nat|
        #![trigger e7.adjacent[(y, x)]]
        #![trigger e7.adjacent.contains_key((y, x))]
        y < x < points implies e7.adjacent.contains_key((y, x)) && (e7.adjacent[(y, x)].value(m)
        <==> lies_across(
        puzzle,
        e7.point_dest,
        x,
        y,
        m,
        points,
    )) by {
        lemma_pairs_below_has(points, x, y);
        let i = choose|i: int| 0 <= i < point_pairs.len() && point_pairs[i] == (x, y);
        assert(ordered(point_pairs[i].0, point_pairs[i].1) == (y, x));
    }
    assert forall|x: nat, y: nat| y < x < puzzle.edges() implies (#[trigger] shapes_match(
        e7.matching,
        x,
        y,
        m,
    ) <==> clause_holds(ways_to_match(puzzle, e7.adjacent, x, y), m)) by {
        lemma_pairs_below_has(puzzle.edges(), x, y);
    }
    assert forall|edge: nat| edge < puzzle.edges() implies #[trigger] e7.one_match(
        puzzle,
        edge,
        m,
    ) by {
        assert(e6.one_match(puzzle, edge, m));
    }
    assert forall|edge: nat| edge < puzzle.edges() implies e7.adjacent.contains_key(
        #[trigger] ordered(puzzle.edge_anchor(edge), puzzle.mate(puzzle.edge_anchor(edge))),
    ) && !e7.adjacent[ordered(
        puzzle.edge_anchor(edge),
        puzzle.mate(puzzle.edge_anchor(edge)),
    )].value(m) by {}
}

/// The pairs below `n` are pairwise different as unordered pairs.
pub proof fn lemma_pairs_below_keys(n: nat)
    ensures
        distinct_keys(pairs_below(n)),
{
    let pairs = pairs_below(n);
    lemma_pairs_below(n);
    lemma_pairs_below_distinct(n);
    assert forall|i: int, j: int| 0 <= i < j < pairs.len() implies ordered(
        #[trigger] pairs[i].0,
        pairs[i].1,
    ) != ordered(#[trigger] pairs[j].0, pairs[j].1) by {}
}

/// The destination variables of the anchors are literals of the table.
pub proof fn lemma_anchor_vars_within<P: Puzzle>(puzzle: &P, e: Encoding, pieces: nat)
    requires
        table_within(e.point_dest, e.formula.num_vars),
    ensures
        all_within(e.anchor_vars(puzzle, pieces), e.formula.num_vars),
    decreases pieces,
{
    if pieces > 0 {
        let piece = (pieces - 1) as nat;
        let rest = e.anchor_vars(puzzle, piece);
        let row = row_vars(e.point_dest, puzzle.anchor(piece), 2 * puzzle.edges());
        lemma_anchor_vars_within(puzzle, e, piece);
        lemma_row_vars_within(
            e.point_dest,
            puzzle.anchor(piece),
            2 * puzzle.edges(),
            e.formula.num_vars,
        );
        assert forall|i: int| 0 <= i < (rest + row).len() implies (#[trigger] (rest + row)[i]).within(
            e.formula.num_vars,
        ) by {}
    }
}

/// Ruling out a doubling rules out that doubling and no other: the
/// assignment that showed it does not satisfy the formula any more, and an
/// assignment satisfies the formula exactly when it satisfied it before and
/// gives some destination variable of an anchor another value.
pub proof fn lemma_blocked<P: Puzzle>(puzzle: &P, e: Encoding, a: Assignment, m: Assignment)
    requires
        e.wf(),
        e.blocked(puzzle, a).status == Status::Building,
    ensures
        e.leads_to(e.blocked(puzzle, a)),
        e.same_tables(e.blocked(puzzle, a)),
        !e.blocked(puzzle, a).formula.holds(a),
        e.blocked(puzzle, a).formula.holds(m) <==> e.formula.holds(m) && exists|i: int|
            0 <= i < e.anchor_vars(puzzle, puzzle.pieces()).len() && (#[trigger] e.anchor_vars(
                puzzle,
                puzzle.pieces(),
            )[i]).value(m) != e.anchor_vars(puzzle, puzzle.pieces())[i].value(a),
{
    let vars = e.anchor_vars(puzzle, puzzle.pieces());
    let clause = e.blocking_clause(puzzle, a);
    lemma_anchor_vars_within(puzzle, e, puzzle.pieces());
    lemma_differing(vars, a, m);
    lemma_with_clause(e.formula, clause, m);
    lemma_with_clause(e.formula, clause, a);
}

/// Giving the pairs of edges their literals leaves the other tables alone.
pub proof fn lemma_matching_vars_tables<P: Puzzle>(puzzle: &P, e: Encoding, pairs: Seq<(nat, nat)>)
    ensures
        e.matching_vars(puzzle, pairs).point_dest == e.point_dest,
        e.matching_vars(puzzle, pairs).adjacent == e.adjacent,
    decreases pairs.len(),
{
    if pairs.len() > 0 {
        lemma_matching_vars_tables(puzzle, e, pairs.drop_last());
    }
}

} // verus!
