//! The formula asks no more than a doubling: what is defined on the way to
//! it constrains nothing, and what is asked can be met by every assignment of
//! the destination variables that shows a doubling.
use vstd::prelude::*;
use crate::cardinality::lemma_exact_count_extend;
use crate::encoding::{
    chosen_in_row, col_vars, pair_vars, present, row_vars, table_within, Encoding, Status,
};
use crate::formula::{
    agree, all_true, all_within, clause_holds, count_true, lemma_count_true_frame,
    lemma_grows_trans, lemma_with_clause, Formula,
};
use crate::gates::{and_fold, lemma_and_var, lemma_or_var, or_fold};
use crate::literal::{Assignment, Literal, MAX_VARIABLES};
use crate::meaning::{
    lemma_adjacent_terms, lemma_adjacent_vars, lemma_col_vars_within, lemma_matching_vars,
    lemma_not_same, lemma_one_hot_edge_matching, lemma_one_hot_point_dest, lemma_one_hot_point_src,
    lemma_encoded, lemma_pair_vars_within, lemma_pairs_below_keys, lemma_point_dest_vars,
    lemma_row_vars_within, lies_across, shapes_match, ways_to_match,
};
use crate::puzzle::{lemma_pairs_below, lemma_pairs_below_has, pairs_below, Puzzle};
use crate::tables::ordered;

verus! {

/// A conjunction gate constrains no earlier variable: an assignment that
/// satisfies the formula before satisfies the formula after once the
/// variable that stands for the conjunction, if one was handed out, is given
/// its value.
pub proof fn lemma_and_var_extend(f: Formula, vars: Seq<Literal>, a: Assignment) -> (b: Assignment)
    requires
        f.wf(),
        all_within(vars, f.num_vars),
        and_fold(vars) is None ==> f.num_vars < MAX_VARIABLES,
        f.holds(a),
    ensures
        agree(a, b, f.num_vars),
        f.and_var(vars).1.holds(b),
{
    let (r, g) = f.and_var(vars);
    if g == f {
        a
    } else {
        let fresh = (f.num_vars + 1) as nat;
        let b = if all_true(vars, a) {
            a.insert(fresh)
        } else {
            a.remove(fresh)
        };
        lemma_and_var(f, vars, b);
        b
    }
}

/// A disjunction gate constrains no earlier variable.
pub proof fn lemma_or_var_extend(f: Formula, vars: Seq<Literal>, a: Assignment) -> (b: Assignment)
    requires
        f.wf(),
        all_within(vars, f.num_vars),
        or_fold(vars) is None ==> f.num_vars < MAX_VARIABLES,
        f.holds(a),
    ensures
        agree(a, b, f.num_vars),
        f.or_var(vars).1.holds(b),
{
    let (r, g) = f.or_var(vars);
    if g == f {
        a
    } else {
        let fresh = (f.num_vars + 1) as nat;
        let b = if clause_holds(vars, a) {
            a.insert(fresh)
        } else {
            a.remove(fresh)
        };
        lemma_or_var(f, vars, b);
        b
    }
}

/// "Exactly one of `vars`" asks no more: an assignment that satisfies the
/// formula before and makes exactly one literal true agrees on the earlier
/// variables with one that satisfies the formula after.
pub proof fn lemma_one_hot_extend(e: Encoding, vars: Seq<Literal>, a: Assignment) -> (b: Assignment)
    requires
        e.wf(),
        all_within(vars, e.formula.num_vars),
        e.one_hot(vars).status == Status::Building,
        e.formula.holds(a),
        count_true(vars, a) == 1,
    ensures
        agree(a, b, e.formula.num_vars),
        e.one_hot(vars).formula.holds(b),
{
    lemma_exact_count_extend(e.formula, 1, vars, a)
}

/// Telling the first `pieces` pieces to go to one place each asks no more.
pub proof fn lemma_one_hot_point_dest_extend<P: Puzzle>(
    puzzle: &P,
    e: Encoding,
    pieces: nat,
    a: Assignment,
) -> (b: Assignment)
    requires
        e.wf(),
        e.one_hot_point_dest(puzzle, pieces).status == Status::Building,
        e.formula.holds(a),
        forall|piece: nat| piece < pieces ==> #[trigger] e.one_dest(puzzle, piece, a),
    ensures
        agree(a, b, e.formula.num_vars),
        e.one_hot_point_dest(puzzle, pieces).formula.holds(b),
    decreases pieces,
{
    if pieces == 0 {
        a
    } else {
        let piece = (pieces - 1) as nat;
        let done = e.one_hot_point_dest(puzzle, piece);
        let vars = row_vars(done.point_dest, puzzle.anchor(piece), 2 * puzzle.edges());
        lemma_one_hot_point_dest(puzzle, e, piece, a);
        lemma_row_vars_within(
            e.point_dest,
            puzzle.anchor(piece),
            2 * puzzle.edges(),
            e.formula.num_vars,
        );
        let mid = lemma_one_hot_point_dest_extend(puzzle, e, piece, a);
        assert(e.one_dest(puzzle, piece, a));
        lemma_count_true_frame(vars, a, mid, e.formula.num_vars);
        let b = lemma_one_hot_extend(done, vars, mid);
        b
    }
}

/// Telling the first `pieces` places to take one piece each asks no more.
pub proof fn lemma_one_hot_point_src_extend<P: Puzzle>(
    puzzle: &P,
    e: Encoding,
    pieces: nat,
    a: Assignment,
) -> (b: Assignment)
    requires
        e.wf(),
        e.one_hot_point_src(puzzle, pieces).status == Status::Building,
        e.formula.holds(a),
        forall|piece: nat| piece < pieces ==> #[trigger] e.one_src(puzzle, piece, a),
    ensures
        agree(a, b, e.formula.num_vars),
        e.one_hot_point_src(puzzle, pieces).formula.holds(b),
    decreases pieces,
{
    if pieces == 0 {
        a
    } else {
        let piece = (pieces - 1) as nat;
        let done = e.one_hot_point_src(puzzle, piece);
        let vars = col_vars(done.point_dest, puzzle.anchor(piece), 2 * puzzle.edges());
        lemma_one_hot_point_src(puzzle, e, piece, a);
        lemma_col_vars_within(
            e.point_dest,
            puzzle.anchor(piece),
            2 * puzzle.edges(),
            e.formula.num_vars,
        );
        let mid = lemma_one_hot_point_src_extend(puzzle, e, piece, a);
        assert(e.one_src(puzzle, piece, a));
        lemma_count_true_frame(vars, a, mid, e.formula.num_vars);
        let b = lemma_one_hot_extend(done, vars, mid);
        b
    }
}

/// Telling the first `edges` edges to match one other each asks no more.
pub proof fn lemma_one_hot_edge_matching_extend<P: Puzzle>(
    puzzle: &P,
    e: Encoding,
    edges: nat,
    a: Assignment,
) -> (b: Assignment)
    requires
        e.wf(),
        e.one_hot_edge_matching(puzzle, edges).status == Status::Building,
        e.formula.holds(a),
        forall|edge: nat| edge < edges ==> #[trigger] e.one_match(puzzle, edge, a),
    ensures
        agree(a, b, e.formula.num_vars),
        e.one_hot_edge_matching(puzzle, edges).formula.holds(b),
    decreases edges,
{
    if edges == 0 {
        a
    } else {
        let edge = (edges - 1) as nat;
        let done = e.one_hot_edge_matching(puzzle, edge);
        let vars = pair_vars(done.matching, edge, puzzle.edges());
        lemma_one_hot_edge_matching(puzzle, e, edge, a);
        lemma_pair_vars_within(e.matching, edge, puzzle.edges(), e.formula.num_vars);
        let mid = lemma_one_hot_edge_matching_extend(puzzle, e, edge, a);
        assert(e.one_match(puzzle, edge, a));
        lemma_count_true_frame(vars, a, mid, e.formula.num_vars);
        let b = lemma_one_hot_extend(done, vars, mid);
        b
    }
}

/// Defining the ways in which two points can come to lie across an edge
/// constrains no earlier variable.
pub proof fn lemma_adjacent_terms_extend<P: Puzzle>(
    puzzle: &P,
    e: Encoding,
    x: nat,
    y: nat,
    n: nat,
    a: Assignment,
) -> (b: Assignment)
    requires
        e.wf(),
        e.formula.holds(a),
    ensures
        agree(a, b, e.formula.num_vars),
        e.adjacent_terms(puzzle, x, y, n).1.formula.holds(b),
    decreases n,
{
    if n == 0 {
        a
    } else {
        let dest_a = (n - 1) as nat;
        let dest_b = puzzle.mate(dest_a);
        let (terms, e1) = e.adjacent_terms(puzzle, x, y, dest_a);
        let mid = lemma_adjacent_terms_extend(puzzle, e, x, y, dest_a, a);
        lemma_adjacent_terms(puzzle, e, x, y, dest_a, a);
        if e1.status != Status::Building || !e1.point_dest.contains_key((x, dest_a))
            || !e1.point_dest.contains_key((y, dest_b)) {
            mid
        } else if e1.formula.num_vars >= MAX_VARIABLES {
            mid
        } else {
            let va = e1.point_dest[(x, dest_a)];
            let vb = e1.point_dest[(y, dest_b)];
            let pair = seq![va, vb];
            let b = lemma_and_var_extend(e1.formula, pair, mid);
            b
        }
    }
}

/// Defining the literal of two points constrains no earlier variable.
pub proof fn lemma_adjacent_var_extend<P: Puzzle>(
    puzzle: &P,
    e: Encoding,
    x: nat,
    y: nat,
    a: Assignment,
) -> (b: Assignment)
    requires
        e.wf(),
        e.formula.holds(a),
    ensures
        agree(a, b, e.formula.num_vars),
        e.adjacent_var(puzzle, x, y).formula.holds(b),
{
    let (terms, e1) = e.adjacent_terms(puzzle, x, y, 2 * puzzle.edges());
    let mid = lemma_adjacent_terms_extend(puzzle, e, x, y, 2 * puzzle.edges(), a);
    lemma_adjacent_terms(puzzle, e, x, y, 2 * puzzle.edges(), a);
    if e1.status != Status::Building || e1.formula.num_vars >= MAX_VARIABLES {
        mid
    } else {
        let b = lemma_or_var_extend(e1.formula, terms, mid);
        b
    }
}

/// Defining the literals of the pairs of points constrains no earlier
/// variable.
pub proof fn lemma_adjacent_vars_extend<P: Puzzle>(
    puzzle: &P,
    e: Encoding,
    pairs: Seq<(nat, nat)>,
    a: Assignment,
) -> (b: Assignment)
    requires
        e.wf(),
        e.formula.holds(a),
    ensures
        agree(a, b, e.formula.num_vars),
        e.adjacent_vars(puzzle, pairs).formula.holds(b),
    decreases pairs.len(),
{
    if pairs.len() == 0 {
        a
    } else {
        let init = pairs.drop_last();
        let last = pairs.last();
        let e1 = e.adjacent_vars(puzzle, init);
        let mid = lemma_adjacent_vars_extend(puzzle, e, init, a);
        lemma_adjacent_vars(puzzle, e, init, a);
        let b = lemma_adjacent_var_extend(puzzle, e1, last.0, last.1, mid);
        b
    }
}

/// Telling the seams to be cut asks no more than that: an assignment that
/// satisfies the formula before and makes the literal of the two points of
/// no edge true satisfies the formula after.
pub proof fn lemma_not_same_extend<P: Puzzle>(puzzle: &P, e: Encoding, edges: nat, a: Assignment)
    requires
        e.wf(),
        e.formula.holds(a),
        forall|edge: nat|
            edge < edges && e.adjacent.contains_key(
                #[trigger] ordered(puzzle.edge_anchor(edge), puzzle.mate(puzzle.edge_anchor(edge))),
            ) ==> !e.adjacent[ordered(
                puzzle.edge_anchor(edge),
                puzzle.mate(puzzle.edge_anchor(edge)),
            )].value(a),
    ensures
        e.point_dest_adjacent_not_same(puzzle, edges).formula.holds(a),
    decreases edges,
{
    if edges > 0 {
        let edge = (edges - 1) as nat;
        let e1 = e.point_dest_adjacent_not_same(puzzle, edge);
        let key = ordered(puzzle.edge_anchor(edge), puzzle.mate(puzzle.edge_anchor(edge)));
        lemma_not_same_extend(puzzle, e, edge, a);
        lemma_not_same(puzzle, e, edge, a);
        if e1.status == Status::Building && e1.adjacent.contains_key(key) && e1.adjacent[key]
            != Literal::True {
            let lit = e1.adjacent[key];
            let unit = seq![lit.negation()];
            lemma_with_clause(e1.formula, unit, a);
            assert(unit[0].value(a));
        }
    }
}

/// Defining the literal of two edges constrains no earlier variable.
pub proof fn lemma_edge_matching_var_extend<P: Puzzle>(
    puzzle: &P,
    e: Encoding,
    x: nat,
    y: nat,
    a: Assignment,
) -> (b: Assignment)
    requires
        e.wf(),
        e.formula.holds(a),
    ensures
        agree(a, b, e.formula.num_vars),
        e.edge_matching_var(puzzle, x, y).formula.holds(b),
{
    let ways = ways_to_match(puzzle, e.adjacent, x, y);
    if e.status != Status::Building || ways.len() == 0 || e.formula.num_vars >= MAX_VARIABLES {
        a
    } else {
        lemma_or_var_extend(e.formula, ways, a)
    }
}

/// Defining the literals of the pairs of edges constrains no earlier
/// variable.
pub proof fn lemma_matching_vars_extend<P: Puzzle>(
    puzzle: &P,
    e: Encoding,
    pairs: Seq<(nat, nat)>,
    a: Assignment,
) -> (b: Assignment)
    requires
        e.wf(),
        e.formula.holds(a),
    ensures
        agree(a, b, e.formula.num_vars),
        e.matching_vars(puzzle, pairs).formula.holds(b),
    decreases pairs.len(),
{
    if pairs.len() == 0 {
        a
    } else {
        let init = pairs.drop_last();
        let last = pairs.last();
        let e1 = e.matching_vars(puzzle, init);
        lemma_matching_vars_grow(puzzle, e, init);
        let mid = lemma_matching_vars_extend(puzzle, e, init, a);
        let b = lemma_edge_matching_var_extend(puzzle, e1, last.0, last.1, mid);
        b
    }
}

/// Giving the pairs of edges their literals leaves the state well formed and
/// lets the formula grow.
pub proof fn lemma_matching_vars_grow<P: Puzzle>(puzzle: &P, e: Encoding, pairs: Seq<(nat, nat)>)
    requires
        e.wf(),
    ensures
        e.formula.grows_to(e.matching_vars(puzzle, pairs).formula),
        e.matching_vars(puzzle, pairs).wf(),
    decreases pairs.len(),
{
    let f = e.formula;
    assert(f.clauses.take(f.clauses.len() as int) =~= f.clauses);
    if pairs.len() > 0 {
        let init = pairs.drop_last();
        let last = pairs.last();
        let e1 = e.matching_vars(puzzle, init);
        let e2 = e1.edge_matching_var(puzzle, last.0, last.1);
        lemma_matching_vars_grow(puzzle, e, init);
        lemma_matching_step(puzzle, e1, last.0, last.1);
        lemma_grows_trans(f, e1.formula, e2.formula);
    }
}

/// Giving a pair of edges its literal leaves the state well formed and lets
/// the formula grow, whether the pair had a literal or not.
proof fn lemma_matching_step<P: Puzzle>(puzzle: &P, e: Encoding, x: nat, y: nat)
    requires
        e.wf(),
    ensures
        e.edge_matching_var(puzzle, x, y).wf(),
        e.formula.grows_to(e.edge_matching_var(puzzle, x, y).formula),
{
    let f = e.formula;
    let ways = ways_to_match(puzzle, e.adjacent, x, y);
    assert(f.clauses.take(f.clauses.len() as int) =~= f.clauses);
    if e.status == Status::Building && ways.len() > 0 && f.num_vars < MAX_VARIABLES {
        lemma_or_var(f, ways, Set::empty());
    }
}

/// Whether under `a` the two points come to lie across an edge from each
/// other. A point does not lie across from itself.
pub open spec fn across<P: Puzzle>(
    puzzle: &P,
    table: Map<(nat, nat), Literal>,
    p: nat,
    q: nat,
    a: Assignment,
) -> bool {
    p != q && if p < q {
        lies_across(puzzle, table, q, p, a, 2 * puzzle.edges())
    } else {
        lies_across(puzzle, table, p, q, a, 2 * puzzle.edges())
    }
}

/// Whether under `a` a point of the edge `x` comes to lie across from a point
/// of another edge `y`, so that the two edges must have the same shape.
pub open spec fn touches<P: Puzzle>(
    puzzle: &P,
    table: Map<(nat, nat), Literal>,
    x: nat,
    y: nat,
    a: Assignment,
) -> bool {
    let x1 = puzzle.edge_anchor(x);
    let x2 = puzzle.mate(x1);
    let y1 = puzzle.edge_anchor(y);
    let y2 = puzzle.mate(y1);
    x != y && (across(puzzle, table, x1, y1, a) || across(puzzle, table, x1, y2, a) || across(
        puzzle,
        table,
        x2,
        y1,
        a,
    ) || across(puzzle, table, x2, y2, a))
}

/// How many edges below `n` the edge `x` touches under `a`.
pub open spec fn touch_count<P: Puzzle>(
    puzzle: &P,
    table: Map<(nat, nat), Literal>,
    x: nat,
    n: nat,
    a: Assignment,
) -> nat
    decreases n,
{
    if n == 0 {
        0
    } else {
        touch_count(puzzle, table, x, (n - 1) as nat, a) + if touches(
            puzzle,
            table,
            x,
            (n - 1) as nat,
            a,
        ) {
            1nat
        } else {
            0nat
        }
    }
}

/// Whether the destination variables that are true under `a` are a doubling:
/// each piece goes to exactly one place and each place takes exactly one
/// piece; the two points of no edge come to lie across an edge from each
/// other; and each edge touches exactly one other edge.
pub open spec fn is_doubling<P: Puzzle>(
    puzzle: &P,
    table: Map<(nat, nat), Literal>,
    a: Assignment,
) -> bool {
    &&& forall|piece: nat|
        piece < puzzle.pieces() ==> count_true(
            row_vars(table, #[trigger] puzzle.anchor(piece), 2 * puzzle.edges()),
            a,
        ) == 1 && count_true(col_vars(table, puzzle.anchor(piece), 2 * puzzle.edges()), a) == 1
    &&& forall|edge: nat|
        edge < puzzle.edges() ==> !across(
            puzzle,
            table,
            #[trigger] puzzle.edge_anchor(edge),
            puzzle.mate(puzzle.edge_anchor(edge)),
            a,
        )
    &&& forall|edge: nat|
        edge < puzzle.edges() ==> #[trigger] touch_count(puzzle, table, edge, puzzle.edges(), a)
            == 1
}

/// Whether the tables of literals for pairs of points and of edges say under
/// `m` what the destination variables say under `a`.
pub open spec fn tables_say<P: Puzzle>(
    puzzle: &P,
    e: Encoding,
    a: Assignment,
    m: Assignment,
) -> bool {
    &&& forall|p: nat, q: nat|
        #![trigger e.adjacent.contains_key(ordered(p, q))]
        p < 2 * puzzle.edges() && q < 2 * puzzle.edges() ==> (e.adjacent.contains_key(
            ordered(p, q),
        ) <==> p != q) && (p != q ==> (e.adjacent[ordered(p, q)].value(m) <==> across(
            puzzle,
            e.point_dest,
            p,
            q,
            a,
        )))
    &&& forall|x: nat, y: nat|
        #![trigger shapes_match(e.matching, x, y, m)]
        x < puzzle.edges() && y < puzzle.edges() ==> (shapes_match(e.matching, x, y, m) <==> x != y
            && clause_holds(
            ways_to_match(puzzle, e.adjacent, if x < y {
                y
            } else {
                x
            }, if x < y {
                x
            } else {
                y
            }),
            m,
        ))
}

/// Where the tables say what the destination variables say, two edges have
/// the same shape exactly when they touch.
pub proof fn lemma_match_is_touch<P: Puzzle>(
    puzzle: &P,
    e: Encoding,
    x: nat,
    y: nat,
    a: Assignment,
    m: Assignment,
)
    requires
        puzzle.wf(),
        tables_say(puzzle, e, a, m),
        x < puzzle.edges(),
        y < puzzle.edges(),
    ensures
        shapes_match(e.matching, x, y, m) == touches(puzzle, e.point_dest, x, y, a),
{
    if x != y {
        let hi = if x < y {
            y
        } else {
            x
        };
        let lo = if x < y {
            x
        } else {
            y
        };
        let h1 = puzzle.edge_anchor(hi);
        let h2 = puzzle.mate(h1);
        let l1 = puzzle.edge_anchor(lo);
        let l2 = puzzle.mate(l1);
        puzzle.lemma_edge_anchor(hi);
        puzzle.lemma_edge_anchor(lo);
        puzzle.lemma_mate(h1);
        puzzle.lemma_mate(l1);
        lemma_present_value(puzzle, e, h1, l1, a, m);
        lemma_present_value(puzzle, e, h1, l2, a, m);
        lemma_present_value(puzzle, e, h2, l1, a, m);
        lemma_present_value(puzzle, e, h2, l2, a, m);
        let w1 = present(e.adjacent, h1, l1);
        let w2 = present(e.adjacent, h1, l2);
        let w3 = present(e.adjacent, h2, l1);
        let w4 = present(e.adjacent, h2, l2);
        lemma_clause_concat(w1, w2, m);
        lemma_clause_concat(w1 + w2, w3, m);
        lemma_clause_concat(w1 + w2 + w3, w4, m);
    }
}

/// A clause of two parts holds exactly when one of the parts does.
proof fn lemma_clause_concat(first: Seq<Literal>, second: Seq<Literal>, m: Assignment)
    ensures
        clause_holds(first + second, m) == (clause_holds(first, m) || clause_holds(second, m)),
{
    let both = first + second;
    if clause_holds(first, m) {
        let i = choose|i: int| 0 <= i < first.len() && (#[trigger] first[i]).value(m);
        assert(both[i].value(m));
    }
    if clause_holds(second, m) {
        let i = choose|i: int| 0 <= i < second.len() && (#[trigger] second[i]).value(m);
        assert(both[first.len() + i].value(m));
    }
}

/// Where the tables say what the destination variables say, the literal of
/// two points holds, where there is one, exactly when the points come to lie
/// across an edge from each other.
proof fn lemma_present_value<P: Puzzle>(
    puzzle: &P,
    e: Encoding,
    p: nat,
    q: nat,
    a: Assignment,
    m: Assignment,
)
    requires
        tables_say(puzzle, e, a, m),
        p < 2 * puzzle.edges(),
        q < 2 * puzzle.edges(),
    ensures
        clause_holds(present(e.adjacent, p, q), m) == across(puzzle, e.point_dest, p, q, a),
{
    let list = present(e.adjacent, p, q);
    if p != q {
        if e.adjacent[ordered(p, q)].value(m) {
            assert(list[0].value(m));
        }
    }
}

/// Where the tables say what the destination variables say, as many matching
/// literals of an edge are true as the edge touches edges.
pub proof fn lemma_match_count<P: Puzzle>(
    puzzle: &P,
    e: Encoding,
    x: nat,
    n: nat,
    a: Assignment,
    m: Assignment,
)
    requires
        puzzle.wf(),
        tables_say(puzzle, e, a, m),
        x < puzzle.edges(),
        n <= puzzle.edges(),
    ensures
        count_true(pair_vars(e.matching, x, n), m) == touch_count(puzzle, e.point_dest, x, n, a),
    decreases n,
{
    if n > 0 {
        let y = (n - 1) as nat;
        lemma_match_count(puzzle, e, x, y, a, m);
        lemma_match_is_touch(puzzle, e, x, y, a, m);
        let rest = pair_vars(e.matching, x, y);
        let key = ordered(x, y);
        if e.matching.contains_key(key) {
            assert(rest.push(e.matching[key]).drop_last() =~= rest);
        }
    }
}

impl Encoding {
    /// The state after the first six stages of the construction: all but
    /// "each edge matches exactly one other".
    pub open spec fn defined<P: Puzzle>(self, puzzle: &P) -> Encoding {
        self.point_dest_vars(puzzle, puzzle.pieces()).one_hot_point_dest(
            puzzle,
            puzzle.pieces(),
        ).one_hot_point_src(puzzle, puzzle.pieces()).point_dest_adjacent_vars(
            puzzle,
        ).point_dest_adjacent_not_same(puzzle, puzzle.edges()).edge_matching_vars(puzzle)
    }
}

/// After the literals of the pairs of points have been defined, the table
/// has one for every two different points and for no point with itself, and
/// in an assignment that satisfies the formula it is true exactly when the
/// two points come to lie across an edge from each other.
proof fn lemma_adjacent_table<P: Puzzle>(puzzle: &P, e3: Encoding, p: nat, q: nat, m: Assignment)
    requires
        puzzle.wf(),
        e3.wf(),
        e3.adjacent == Map::<(nat, nat), Literal>::empty(),
        e3.point_dest_adjacent_vars(puzzle).status == Status::Building,
        e3.point_dest_adjacent_vars(puzzle).formula.holds(m),
        p < 2 * puzzle.edges(),
        q < 2 * puzzle.edges(),
    ensures
        e3.point_dest_adjacent_vars(puzzle).adjacent.contains_key(ordered(p, q)) <==> p != q,
        p != q ==> (e3.point_dest_adjacent_vars(puzzle).adjacent[ordered(p, q)].value(m)
            <==> across(puzzle, e3.point_dest, p, q, m)),
{
    let points = 2 * puzzle.edges();
    let pairs = pairs_below(points);
    let e4 = e3.point_dest_adjacent_vars(puzzle);
    lemma_pairs_below(points);
    lemma_adjacent_vars(puzzle, e3, pairs, m);
    if p != q {
        let hi = if p < q {
            q
        } else {
            p
        };
        let lo = if p < q {
            p
        } else {
            q
        };
        lemma_pairs_below_has(points, hi, lo);
        let i = choose|i: int| 0 <= i < pairs.len() && pairs[i] == (hi, lo);
        assert(ordered(pairs[i].0, pairs[i].1) == ordered(p, q));
    } else {
        if e4.adjacent.contains_key((p, p)) {
            assert(!e3.adjacent.contains_key((p, p)));
        }
    }
}

/// After the literals of the pairs of edges have been defined, the table has
/// none for an edge with itself, and in an assignment that satisfies the
/// formula the literal of two edges is true, where there is one, exactly
/// when one of the ways to match is.
proof fn lemma_matching_table<P: Puzzle>(puzzle: &P, e5: Encoding, x: nat, y: nat, m: Assignment)
    requires
        puzzle.wf(),
        e5.wf(),
        e5.matching == Map::<(nat, nat), Literal>::empty(),
        e5.edge_matching_vars(puzzle).status == Status::Building,
        e5.edge_matching_vars(puzzle).formula.holds(m),
        x < puzzle.edges(),
        y < puzzle.edges(),
    ensures
        shapes_match(e5.edge_matching_vars(puzzle).matching, x, y, m) <==> x != y && clause_holds(
            ways_to_match(puzzle, e5.adjacent, if x < y {
                y
            } else {
                x
            }, if x < y {
                x
            } else {
                y
            }),
            m,
        ),
{
    let pairs = pairs_below(puzzle.edges());
    let e6 = e5.edge_matching_vars(puzzle);
    lemma_pairs_below(puzzle.edges());
    lemma_pairs_below_keys(puzzle.edges());
    lemma_matching_vars(puzzle, e5, pairs, m);
    if x != y {
        let hi = if x < y {
            y
        } else {
            x
        };
        let lo = if x < y {
            x
        } else {
            y
        };
        lemma_pairs_below_has(puzzle.edges(), hi, lo);
    } else {
        if e6.matching.contains_key((x, x)) {
            assert(!e5.matching.contains_key((x, x)));
        }
    }
}

/// Where nothing has gone wrong after the pairs of edges have been given
/// their literals, nothing had gone wrong before.
proof fn lemma_matching_status<P: Puzzle>(puzzle: &P, e: Encoding, pairs: Seq<(nat, nat)>)
    ensures
        e.matching_vars(puzzle, pairs).status == Status::Building ==> e.status == Status::Building,
    decreases pairs.len(),
{
    if pairs.len() > 0 {
        lemma_matching_status(puzzle, e, pairs.drop_last());
    }
}

/// Telling each piece to go to one place asks no more than that.
proof fn lemma_step_dest<P: Puzzle>(puzzle: &P, e1: Encoding, a: Assignment) -> (b: Assignment)
    requires
        e1.wf(),
        e1.formula.holds(a),
        e1.one_hot_point_dest(puzzle, puzzle.pieces()).status == Status::Building,
        forall|piece: nat|
            piece < puzzle.pieces() ==> count_true(
                row_vars(e1.point_dest, #[trigger] puzzle.anchor(piece), 2 * puzzle.edges()),
                a,
            ) == 1,
    ensures
        agree(a, b, e1.formula.num_vars),
        e1.one_hot_point_dest(puzzle, puzzle.pieces()).formula.holds(b),
        e1.leads_to(e1.one_hot_point_dest(puzzle, puzzle.pieces())),
        e1.same_tables(e1.one_hot_point_dest(puzzle, puzzle.pieces())),
{
    lemma_one_hot_point_dest(puzzle, e1, puzzle.pieces(), a);
    assert forall|piece: nat| piece < puzzle.pieces() implies #[trigger] e1.one_dest(
        puzzle,
        piece,
        a,
    ) by {}
    lemma_one_hot_point_dest_extend(puzzle, e1, puzzle.pieces(), a)
}

/// Telling each place to take one piece asks no more than that.
proof fn lemma_step_src<P: Puzzle>(
    puzzle: &P,
    e2: Encoding,
    a: Assignment,
    before: Assignment,
    n1: nat,
) -> (b: Assignment)
    requires
        e2.wf(),
        e2.formula.holds(before),
        agree(a, before, n1),
        n1 <= e2.formula.num_vars,
        table_within(e2.point_dest, n1),
        e2.one_hot_point_src(puzzle, puzzle.pieces()).status == Status::Building,
        forall|piece: nat|
            piece < puzzle.pieces() ==> count_true(
                col_vars(e2.point_dest, #[trigger] puzzle.anchor(piece), 2 * puzzle.edges()),
                a,
            ) == 1,
    ensures
        agree(a, b, n1),
        e2.one_hot_point_src(puzzle, puzzle.pieces()).formula.holds(b),
        e2.leads_to(e2.one_hot_point_src(puzzle, puzzle.pieces())),
        e2.same_tables(e2.one_hot_point_src(puzzle, puzzle.pieces())),
{
    lemma_one_hot_point_src(puzzle, e2, puzzle.pieces(), a);
    assert forall|piece: nat| piece < puzzle.pieces() implies #[trigger] e2.one_src(
        puzzle,
        piece,
        before,
    ) by {
        let col = col_vars(e2.point_dest, puzzle.anchor(piece), 2 * puzzle.edges());
        lemma_col_vars_within(e2.point_dest, puzzle.anchor(piece), 2 * puzzle.edges(), n1);
        lemma_count_true_frame(col, a, before, n1);
    }
    let b = lemma_one_hot_point_src_extend(puzzle, e2, puzzle.pieces(), before);
    b
}

/// Defining the literals of the pairs of points asks nothing.
proof fn lemma_step_adjacent<P: Puzzle>(
    puzzle: &P,
    e3: Encoding,
    a: Assignment,
    before: Assignment,
    n1: nat,
) -> (b: Assignment)
    requires
        e3.wf(),
        e3.formula.holds(before),
        agree(a, before, n1),
        n1 <= e3.formula.num_vars,
    ensures
        agree(a, b, n1),
        e3.point_dest_adjacent_vars(puzzle).formula.holds(b),
        e3.leads_to(e3.point_dest_adjacent_vars(puzzle)),
        e3.point_dest_adjacent_vars(puzzle).point_dest == e3.point_dest,
        e3.point_dest_adjacent_vars(puzzle).matching == e3.matching,
{
    let pairs = pairs_below(2 * puzzle.edges());
    lemma_adjacent_vars(puzzle, e3, pairs, a);
    let b = lemma_adjacent_vars_extend(puzzle, e3, pairs, before);
    b
}

/// Telling the seams to be cut asks no more than that.
proof fn lemma_step_cut<P: Puzzle>(puzzle: &P, e3: Encoding, a: Assignment, b: Assignment, n1: nat)
    requires
        puzzle.wf(),
        e3.wf(),
        e3.adjacent == Map::<(nat, nat), Literal>::empty(),
        table_within(e3.point_dest, n1),
        agree(a, b, n1),
        e3.point_dest_adjacent_vars(puzzle).wf(),
        e3.point_dest_adjacent_vars(puzzle).status == Status::Building,
        e3.point_dest_adjacent_vars(puzzle).formula.holds(b),
        forall|edge: nat|
            edge < puzzle.edges() ==> !across(
                puzzle,
                e3.point_dest,
                #[trigger] puzzle.edge_anchor(edge),
                puzzle.mate(puzzle.edge_anchor(edge)),
                a,
            ),
    ensures
        e3.point_dest_adjacent_vars(puzzle).point_dest_adjacent_not_same(
            puzzle,
            puzzle.edges(),
        ).formula.holds(b),
        e3.point_dest_adjacent_vars(puzzle).leads_to(
            e3.point_dest_adjacent_vars(puzzle).point_dest_adjacent_not_same(
                puzzle,
                puzzle.edges(),
            ),
        ),
        e3.point_dest_adjacent_vars(puzzle).same_tables(
            e3.point_dest_adjacent_vars(puzzle).point_dest_adjacent_not_same(
                puzzle,
                puzzle.edges(),
            ),
        ),
{
    let e4 = e3.point_dest_adjacent_vars(puzzle);
    lemma_not_same(puzzle, e4, puzzle.edges(), b);
    assert forall|edge: nat|
        edge < puzzle.edges() && e4.adjacent.contains_key(
            #[trigger] ordered(puzzle.edge_anchor(edge), puzzle.mate(puzzle.edge_anchor(edge))),
        ) implies !e4.adjacent[ordered(
        puzzle.edge_anchor(edge),
        puzzle.mate(puzzle.edge_anchor(edge)),
    )].value(b) by {
        let p = puzzle.edge_anchor(edge);
        let q = puzzle.mate(p);
        puzzle.lemma_edge_anchor(edge);
        puzzle.lemma_mate(p);
        lemma_adjacent_table(puzzle, e3, p, q, b);
    }
    lemma_not_same_extend(puzzle, e4, puzzle.edges(), b);
}

/// Defining the literals of the pairs of edges asks nothing.
proof fn lemma_step_matching<P: Puzzle>(
    puzzle: &P,
    e5: Encoding,
    a: Assignment,
    before: Assignment,
    n1: nat,
) -> (b: Assignment)
    requires
        e5.wf(),
        e5.formula.holds(before),
        agree(a, before, n1),
        n1 <= e5.formula.num_vars,
    ensures
        agree(a, b, n1),
        e5.edge_matching_vars(puzzle).formula.holds(b),
        e5.edge_matching_vars(puzzle).wf(),
        e5.formula.grows_to(e5.edge_matching_vars(puzzle).formula),
        e5.edge_matching_vars(puzzle).status == Status::Building ==> e5.status == Status::Building,
        e5.edge_matching_vars(puzzle).point_dest == e5.point_dest,
        e5.edge_matching_vars(puzzle).adjacent == e5.adjacent,
{
    let pairs = pairs_below(puzzle.edges());
    lemma_matching_vars_grow(puzzle, e5, pairs);
    lemma_matching_status(puzzle, e5, pairs);
    crate::meaning::lemma_matching_vars_tables(puzzle, e5, pairs);
    let b = lemma_matching_vars_extend(puzzle, e5, pairs, before);
    b
}

/// After the literals of the pairs of points and of edges have been defined,
/// the tables say under an assignment that satisfies the formula what the
/// destination variables say.
proof fn lemma_step_tables<P: Puzzle>(
    puzzle: &P,
    e3: Encoding,
    e6: Encoding,
    a: Assignment,
    b: Assignment,
    n1: nat,
)
    requires
        puzzle.wf(),
        e3.wf(),
        e3.adjacent == Map::<(nat, nat), Literal>::empty(),
        e3.matching == Map::<(nat, nat), Literal>::empty(),
        table_within(e3.point_dest, n1),
        agree(a, b, n1),
        e6 == e3.point_dest_adjacent_vars(puzzle).point_dest_adjacent_not_same(
            puzzle,
            puzzle.edges(),
        ).edge_matching_vars(puzzle),
        e6.status == Status::Building,
        e6.formula.holds(b),
    ensures
        tables_say(puzzle, e6, a, b),
        e6.point_dest == e3.point_dest,
{
    let points = 2 * puzzle.edges();
    let e4 = e3.point_dest_adjacent_vars(puzzle);
    let e5 = e4.point_dest_adjacent_not_same(puzzle, puzzle.edges());
    assert(e4.wf() && e4.point_dest == e3.point_dest && e4.matching == e3.matching) by {
        lemma_adjacent_vars(puzzle, e3, pairs_below(points), b);
    }
    assert(e5.wf() && e4.same_tables(e5) && e4.formula.grows_to(e5.formula) && (e5.status
        == Status::Building ==> e4.status == Status::Building)) by {
        lemma_not_same(puzzle, e4, puzzle.edges(), b);
    }
    assert(e6.wf() && e6.point_dest == e5.point_dest && e6.adjacent == e5.adjacent
        && e5.formula.grows_to(e6.formula) && e5.status == Status::Building) by {
        lemma_matching_vars_grow(puzzle, e5, pairs_below(puzzle.edges()));
        lemma_matching_status(puzzle, e5, pairs_below(puzzle.edges()));
        crate::meaning::lemma_matching_vars_tables(puzzle, e5, pairs_below(puzzle.edges()));
    }
    assert forall|p: nat, q: nat|
        #![trigger e6.adjacent.contains_key(ordered(p, q))]
        p < points && q < points implies (e6.adjacent.contains_key(ordered(p, q)) <==> p != q) && (
    p != q ==> (e6.adjacent[ordered(p, q)].value(b) <==> across(
        puzzle,
        e6.point_dest,
        p,
        q,
        a,
    ))) by {
        lemma_adjacent_table(puzzle, e3, p, q, b);
    }
    assert forall|x: nat, y: nat|
        #![trigger shapes_match(e6.matching, x, y, b)]
        x < puzzle.edges() && y < puzzle.edges() implies (shapes_match(e6.matching, x, y, b)
        <==> x != y && clause_holds(
        ways_to_match(puzzle, e6.adjacent, if x < y {
            y
        } else {
            x
        }, if x < y {
            x
        } else {
            y
        }),
        b,
    )) by {
        lemma_matching_table(puzzle, e5, x, y, b);
    }
}

/// Telling each edge to match one other asks no more than that each edge
/// touches one other.
proof fn lemma_step_match<P: Puzzle>(
    puzzle: &P,
    e6: Encoding,
    a: Assignment,
    before: Assignment,
    n1: nat,
) -> (b: Assignment)
    requires
        puzzle.wf(),
        e6.wf(),
        e6.formula.holds(before),
        agree(a, before, n1),
        n1 <= e6.formula.num_vars,
        tables_say(puzzle, e6, a, before),
        e6.one_hot_edge_matching(puzzle, puzzle.edges()).status == Status::Building,
        forall|edge: nat|
            edge < puzzle.edges() ==> #[trigger] touch_count(
                puzzle,
                e6.point_dest,
                edge,
                puzzle.edges(),
                a,
            ) == 1,
    ensures
        agree(a, b, n1),
        e6.one_hot_edge_matching(puzzle, puzzle.edges()).formula.holds(b),
{
    assert forall|edge: nat| edge < puzzle.edges() implies #[trigger] e6.one_match(
        puzzle,
        edge,
        before,
    ) by {
        lemma_match_count(puzzle, e6, edge, puzzle.edges(), a, before);
    }
    let b = lemma_one_hot_edge_matching_extend(puzzle, e6, puzzle.edges(), before);
    b
}

/// The formula asks no more than a doubling: where the construction ends
/// with nothing gone wrong, every assignment of the destination variables
/// that is a doubling agrees on them with an assignment that satisfies the
/// formula.
pub proof fn lemma_complete<P: Puzzle>(puzzle: &P, a: Assignment) -> (m: Assignment)
    requires
        puzzle.wf(),
        Encoding::start(puzzle).encoded(puzzle).status == Status::Building,
        is_doubling(puzzle, Encoding::start(puzzle).encoded(puzzle).point_dest, a),
    ensures
        agree(
            a,
            m,
            Encoding::start(puzzle).point_dest_vars(puzzle, puzzle.pieces()).formula.num_vars,
        ),
        Encoding::start(puzzle).encoded(puzzle).formula.holds(m),
{
    let e0 = Encoding::start(puzzle);
    let e1 = e0.point_dest_vars(puzzle, puzzle.pieces());
    let e2 = e1.one_hot_point_dest(puzzle, puzzle.pieces());
    let e3 = e2.one_hot_point_src(puzzle, puzzle.pieces());
    let e4 = e3.point_dest_adjacent_vars(puzzle);
    let e5 = e4.point_dest_adjacent_not_same(puzzle, puzzle.edges());
    let e6 = e5.edge_matching_vars(puzzle);
    let e7 = e6.one_hot_edge_matching(puzzle, puzzle.edges());
    let n1 = e1.formula.num_vars;
    let unused = Set::<nat>::empty();
    // what the stages leave alone, and that nothing has gone wrong at any
    assert(e1.wf() && e1.formula.clauses == e0.formula.clauses && e1.adjacent == e0.adjacent
        && e1.matching == e0.matching) by {
        lemma_point_dest_vars(puzzle, e0, puzzle.pieces());
    }
    assert(e1.leads_to(e2) && e1.same_tables(e2)) by {
        lemma_one_hot_point_dest(puzzle, e1, puzzle.pieces(), unused);
    }
    assert(e2.leads_to(e3) && e2.same_tables(e3)) by {
        lemma_one_hot_point_src(puzzle, e2, puzzle.pieces(), unused);
    }
    assert(e3.leads_to(e4) && e4.point_dest == e3.point_dest && e4.matching == e3.matching) by {
        lemma_adjacent_vars(puzzle, e3, pairs_below(2 * puzzle.edges()), unused);
    }
    assert(e4.leads_to(e5) && e4.same_tables(e5)) by {
        lemma_not_same(puzzle, e4, puzzle.edges(), unused);
    }
    assert(e6.wf() && e5.formula.grows_to(e6.formula) && (e6.status == Status::Building
        ==> e5.status == Status::Building) && e6.point_dest == e5.point_dest) by {
        lemma_matching_vars_grow(puzzle, e5, pairs_below(puzzle.edges()));
        lemma_matching_status(puzzle, e5, pairs_below(puzzle.edges()));
        crate::meaning::lemma_matching_vars_tables(puzzle, e5, pairs_below(puzzle.edges()));
    }
    assert(e6.leads_to(e7) && e6.same_tables(e7)) by {
        lemma_one_hot_edge_matching(puzzle, e6, puzzle.edges(), unused);
    }
    // the destination variables
    let b2 = lemma_step_dest(puzzle, e1, a);
    let b3 = lemma_step_src(puzzle, e2, a, b2, n1);
    let b4 = lemma_step_adjacent(puzzle, e3, a, b3, n1);
    lemma_step_cut(puzzle, e3, a, b4, n1);
    let b6 = lemma_step_matching(puzzle, e5, a, b4, n1);
    lemma_step_tables(puzzle, e3, e6, a, b6, n1);
    lemma_step_match(puzzle, e6, a, b6, n1)
}

/// The formula asks no less than a doubling: where the construction ends
/// with nothing gone wrong, the destination variables that are true under an
/// assignment that satisfies the formula are a doubling.
pub proof fn lemma_sound<P: Puzzle>(puzzle: &P, m: Assignment)
    requires
        puzzle.wf(),
        Encoding::start(puzzle).encoded(puzzle).status == Status::Building,
        Encoding::start(puzzle).encoded(puzzle).formula.holds(m),
    ensures
        is_doubling(puzzle, Encoding::start(puzzle).encoded(puzzle).point_dest, m),
{
    let e = Encoding::start(puzzle).encoded(puzzle);
    let table = e.point_dest;
    let points = 2 * puzzle.edges();
    lemma_encoded(puzzle, m);
    lemma_encoded_tables(puzzle, m);
    assert forall|piece: nat| piece < puzzle.pieces() implies count_true(
        row_vars(table, #[trigger] puzzle.anchor(piece), points),
        m,
    ) == 1 && count_true(col_vars(table, puzzle.anchor(piece), points), m) == 1 by {
        assert(e.one_dest(puzzle, piece, m));
        assert(e.one_src(puzzle, piece, m));
    }
    assert forall|edge: nat| edge < puzzle.edges() implies !across(
        puzzle,
        table,
        #[trigger] puzzle.edge_anchor(edge),
        puzzle.mate(puzzle.edge_anchor(edge)),
        m,
    ) by {
        let p = puzzle.edge_anchor(edge);
        let q = puzzle.mate(p);
        puzzle.lemma_edge_anchor(edge);
        puzzle.lemma_mate(p);
        assert(e.adjacent.contains_key(ordered(p, q)));
    }
    assert forall|edge: nat| edge < puzzle.edges() implies #[trigger] touch_count(
        puzzle,
        table,
        edge,
        puzzle.edges(),
        m,
    ) == 1 by {
        lemma_match_count(puzzle, e, edge, puzzle.edges(), m, m);
        assert(e.one_match(puzzle, edge, m));
    }
}

/// In a search that has come from the construction by ruling out doublings,
/// every assignment that satisfies the formula is a doubling on the
/// destination variables, and makes the literal of two edges true exactly
/// when the two edges touch.
pub proof fn lemma_follows_doubling<P: Puzzle>(puzzle: &P, e: Encoding, m: Assignment)
    requires
        puzzle.wf(),
        e.follows(Encoding::start(puzzle).encoded(puzzle)),
        e.status == Status::Building,
        e.formula.holds(m),
    ensures
        is_doubling(puzzle, e.point_dest, m),
        forall|x: nat, y: nat|
            x < puzzle.edges() && y < puzzle.edges() ==> #[trigger] shapes_match(
                e.matching,
                x,
                y,
                m,
            ) == touches(puzzle, e.point_dest, x, y, m),
{
    let built = Encoding::start(puzzle).encoded(puzzle);
    lemma_sound(puzzle, m);
    lemma_encoded_tables(puzzle, m);
    assert forall|x: nat, y: nat| x < puzzle.edges() && y < puzzle.edges() implies #[trigger] shapes_match(
        e.matching,
        x,
        y,
        m,
    ) == touches(puzzle, e.point_dest, x, y, m) by {
        lemma_match_is_touch(puzzle, built, x, y, m, m);
    }
}

/// The tables of the formula that was built say under an assignment that
/// satisfies it what its destination variables say.
pub proof fn lemma_encoded_tables<P: Puzzle>(puzzle: &P, m: Assignment)
    requires
        puzzle.wf(),
        Encoding::start(puzzle).encoded(puzzle).status == Status::Building,
        Encoding::start(puzzle).encoded(puzzle).formula.holds(m),
    ensures
        tables_say(puzzle, Encoding::start(puzzle).encoded(puzzle), m, m),
{
    let e0 = Encoding::start(puzzle);
    let e1 = e0.point_dest_vars(puzzle, puzzle.pieces());
    let e2 = e1.one_hot_point_dest(puzzle, puzzle.pieces());
    let e3 = e2.one_hot_point_src(puzzle, puzzle.pieces());
    let e4 = e3.point_dest_adjacent_vars(puzzle);
    let e5 = e4.point_dest_adjacent_not_same(puzzle, puzzle.edges());
    let e6 = e5.edge_matching_vars(puzzle);
    let e7 = e6.one_hot_edge_matching(puzzle, puzzle.edges());
    let n1 = e1.formula.num_vars;
    let points = 2 * puzzle.edges();
    assert(e1.wf() && e1.adjacent == e0.adjacent && e1.matching == e0.matching) by {
        lemma_point_dest_vars(puzzle, e0, puzzle.pieces());
    }
    assert(e1.leads_to(e2) && e1.same_tables(e2)) by {
        lemma_one_hot_point_dest(puzzle, e1, puzzle.pieces(), m);
    }
    assert(e2.leads_to(e3) && e2.same_tables(e3)) by {
        lemma_one_hot_point_src(puzzle, e2, puzzle.pieces(), m);
    }
    assert(e6.leads_to(e7) && e6.same_tables(e7) && (e7.formula.holds(m) ==> e6.formula.holds(
        m,
    ))) by {
        assert(e6.wf()) by {
            lemma_adjacent_vars(puzzle, e3, pairs_below(points), m);
            lemma_not_same(puzzle, e4, puzzle.edges(), m);
            lemma_matching_vars_grow(puzzle, e5, pairs_below(puzzle.edges()));
        }
        lemma_one_hot_edge_matching(puzzle, e6, puzzle.edges(), m);
    }
    lemma_step_tables(puzzle, e3, e6, m, m, n1);
}

/// As many pairs of a row are chosen as literals of the row are true, and
/// each chosen pair is an entry of the row.
pub proof fn lemma_chosen_in_row(table: Map<(nat, nat), Literal>, a: Assignment, s: nat, n: nat)
    ensures
        chosen_in_row(table, a, s, n).len() == count_true(row_vars(table, s, n), a),
        forall|i: int|
            0 <= i < chosen_in_row(table, a, s, n).len() ==> {
                &&& (#[trigger] chosen_in_row(table, a, s, n)[i]).0 == s
                &&& chosen_in_row(table, a, s, n)[i].1 < n
                &&& table.contains_key(chosen_in_row(table, a, s, n)[i])
                &&& table[chosen_in_row(table, a, s, n)[i]].value(a)
            },
    decreases n,
{
    if n > 0 {
        let d = (n - 1) as nat;
        lemma_chosen_in_row(table, a, s, d);
        let rest = row_vars(table, s, d);
        if table.contains_key((s, d)) {
            assert(rest.push(table[(s, d)]).drop_last() =~= rest);
        }
    }
}

/// Where each piece goes to exactly one place, one pair is chosen for each
/// piece, in the order of the pieces: the anchor of the piece and the point
/// that it goes to, which is a point that has a destination variable with the
/// anchor, and that variable is true.
pub proof fn lemma_chosen_dests<P: Puzzle>(puzzle: &P, e: Encoding, a: Assignment, pieces: nat)
    requires
        forall|piece: nat|
            piece < pieces ==> count_true(
                row_vars(e.point_dest, #[trigger] puzzle.anchor(piece), 2 * puzzle.edges()),
                a,
            ) == 1,
    ensures
        e.chosen_dests(puzzle, a, pieces).len() == pieces,
        forall|piece: int|
            0 <= piece < pieces ==> {
                &&& (#[trigger] e.chosen_dests(puzzle, a, pieces)[piece]).0 == puzzle.anchor(
                    piece as nat,
                )
                &&& e.chosen_dests(puzzle, a, pieces)[piece].1 < 2 * puzzle.edges()
                &&& e.point_dest.contains_key(e.chosen_dests(puzzle, a, pieces)[piece])
                &&& e.point_dest[e.chosen_dests(puzzle, a, pieces)[piece]].value(a)
            },
    decreases pieces,
{
    if pieces > 0 {
        let piece = (pieces - 1) as nat;
        lemma_chosen_dests(puzzle, e, a, piece);
        lemma_chosen_in_row(e.point_dest, a, puzzle.anchor(piece), 2 * puzzle.edges());
        let all = e.chosen_dests(puzzle, a, pieces);
        assert forall|i: int| 0 <= i < pieces implies {
            &&& (#[trigger] all[i]).0 == puzzle.anchor(i as nat)
            &&& all[i].1 < 2 * puzzle.edges()
            &&& e.point_dest.contains_key(all[i])
            &&& e.point_dest[all[i]].value(a)
        } by {}
    }
}

/// Where the construction ends with nothing gone wrong, nothing had gone
/// wrong when the destination variables were handed out, and their table is
/// the table at the end.
pub proof fn lemma_first_tables<P: Puzzle>(puzzle: &P)
    requires
        puzzle.wf(),
    ensures
        Encoding::start(puzzle).encoded(puzzle).point_dest == Encoding::start(
            puzzle,
        ).point_dest_vars(puzzle, puzzle.pieces()).point_dest,
        Encoding::start(puzzle).encoded(puzzle).status == Status::Building ==> Encoding::start(
            puzzle,
        ).point_dest_vars(puzzle, puzzle.pieces()).status == Status::Building,
{
    let unused = Set::<nat>::empty();
    let e0 = Encoding::start(puzzle);
    let e1 = e0.point_dest_vars(puzzle, puzzle.pieces());
    let e2 = e1.one_hot_point_dest(puzzle, puzzle.pieces());
    let e3 = e2.one_hot_point_src(puzzle, puzzle.pieces());
    let e4 = e3.point_dest_adjacent_vars(puzzle);
    let e5 = e4.point_dest_adjacent_not_same(puzzle, puzzle.edges());
    let e6 = e5.edge_matching_vars(puzzle);
    let e7 = e6.one_hot_edge_matching(puzzle, puzzle.edges());
    assert(e1.wf()) by {
        lemma_point_dest_vars(puzzle, e0, puzzle.pieces());
    }
    assert(e1.leads_to(e2) && e1.same_tables(e2)) by {
        lemma_one_hot_point_dest(puzzle, e1, puzzle.pieces(), unused);
    }
    assert(e2.leads_to(e3) && e2.same_tables(e3)) by {
        lemma_one_hot_point_src(puzzle, e2, puzzle.pieces(), unused);
    }
    assert(e3.leads_to(e4) && e4.point_dest == e3.point_dest) by {
        lemma_adjacent_vars(puzzle, e3, pairs_below(2 * puzzle.edges()), unused);
    }
    assert(e4.leads_to(e5) && e4.same_tables(e5)) by {
        lemma_not_same(puzzle, e4, puzzle.edges(), unused);
    }
    assert(e6.wf() && (e6.status == Status::Building ==> e5.status == Status::Building)
        && e6.point_dest == e5.point_dest) by {
        lemma_matching_vars_grow(puzzle, e5, pairs_below(puzzle.edges()));
        lemma_matching_status(puzzle, e5, pairs_below(puzzle.edges()));
        crate::meaning::lemma_matching_vars_tables(puzzle, e5, pairs_below(puzzle.edges()));
    }
    assert(e6.leads_to(e7) && e6.same_tables(e7)) by {
        lemma_one_hot_edge_matching(puzzle, e6, puzzle.edges(), unused);
    }
}

} // verus!
