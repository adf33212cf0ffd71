//! Cardinality constraints: a sequential counter that says how many literals
//! of a list are true, and the clauses that fix that number.
use vstd::prelude::*;
use crate::formula::{
    agree, all_within, clause_holds, count_true, extends, extends_with_count,
    lemma_count_true_bounds, lemma_count_true_frame, lemma_grows_trans, lemma_negations,
    lemma_with_clause, lemma_with_units, negations, without, Formula,
};
use crate::gates::{and_fold, lemma_and_var, lemma_gate_sizes, lemma_or_var, or_fold};
use crate::literal::{Assignment, Literal, MAX_VARIABLES};
use crate::sat::SatProblem;

verus! {

broadcast use vstd::array::group_array_axioms;

/// The smaller of two numbers.
pub open spec fn min_nat(a: nat, b: nat) -> nat {
    if a <= b {
        a
    } else {
        b
    }
}

/// The most variables that a counter over `len` literals hands out when it is
/// cut off after `up_to` rows: one for each row, each time a literal is taken
/// in.
pub open spec fn counter_budget(up_to: nat, len: nat) -> nat {
    min_nat(up_to, len) * len
}

/// The budget grows with the number of literals, by at least the rows that
/// one more literal makes, and never exceeds `up_to` variables for each
/// literal.
pub proof fn lemma_counter_budget(up_to: nat, len: nat)
    ensures
        counter_budget(up_to, len) + min_nat(up_to, len + 1) <= counter_budget(up_to, len + 1),
        counter_budget(up_to, len) <= up_to * len,
        forall|more: nat| len <= more ==> counter_budget(up_to, len) <= #[trigger] counter_budget(
            up_to,
            more,
        ),
{
    let low = min_nat(up_to, len);
    let high = min_nat(up_to, len + 1);
    assert(low * len + high <= high * (len + 1)) by (nonlinear_arith)
        requires
            low <= high,
    ;
    assert(low * len <= up_to * len) by (nonlinear_arith)
        requires
            low <= up_to,
    ;
    assert forall|more: nat| len <= more implies counter_budget(up_to, len)
        <= #[trigger] counter_budget(up_to, more) by {
        let top = min_nat(up_to, more);
        assert(low * len <= top * more) by (nonlinear_arith)
            requires
                low <= top,
                len <= more,
        ;
    }
}

/// What row `c` of the counter says once `var` has been taken in: more than
/// `c` literals are true when at least `c` of the earlier ones are and `var`
/// is, or when more than `c` of the earlier ones are. `prior[k]` stands for
/// "more than `k` of the earlier literals are true"; before row 0 stands "at
/// least 0", which is true, and past the last row stands what is false.
pub open spec fn counter_value(prior: Seq<Literal>, var: Literal, c: nat, a: Assignment) -> bool {
    ((c == 0 || prior[c - 1].value(a)) && var.value(a)) || (c < prior.len() && prior[c as int].value(a))
}

impl Formula {
    /// This formula with a fresh variable `r` that holds exactly when `m` and
    /// `v` both hold or `p` holds, in four clauses.
    pub open spec fn counter_gate(self, m: Literal, v: Literal, p: Literal) -> Formula {
        let r = self.fresh();
        self.with_var().with_clause(seq![r.negation(), m, p]).with_clause(
            seq![r.negation(), p, v],
        ).with_clause(seq![m.negation(), v.negation(), r]).with_clause(seq![p.negation(), r])
    }

    /// The literal of row `c`, and the formula after it has been defined.
    /// Row 0 is `var` itself where there is no earlier row and a disjunction
    /// otherwise; the row past the last earlier one is a conjunction; a row in
    /// between is a counter gate, or folded gates where a constant is among
    /// its inputs.
    pub open spec fn count_var(self, prior: Seq<Literal>, var: Literal, c: nat) -> (
        Literal,
        Formula,
    ) {
        if c == 0 {
            if prior.len() > 0 {
                self.or_var(seq![prior[0], var])
            } else {
                (var, self)
            }
        } else if c == prior.len() {
            self.and_var(seq![prior[c - 1], var])
        } else {
            let m = prior[c - 1];
            let p = prior[c as int];
            if p == Literal::True {
                (Literal::True, self)
            } else if p == Literal::False || m.is_constant() || var.is_constant() {
                let (both, with_both) = self.and_var(seq![m, var]);
                with_both.or_var(seq![both, p])
            } else {
                (self.fresh(), self.counter_gate(m, var, p))
            }
        }
    }

    /// Whether defining row `c` hands out a variable: it does not where the
    /// row is `var` itself or a gate that folds.
    pub open spec fn count_var_allocates(self, prior: Seq<Literal>, var: Literal, c: nat) -> bool {
        self.count_var(prior, var, c).1.num_vars > self.num_vars
    }

    /// The first `len` rows of the counter after `var` has been taken in, and
    /// the formula after they have been defined, row 0 first.
    pub open spec fn count_row(self, prior: Seq<Literal>, var: Literal, len: nat) -> (
        Seq<Literal>,
        Formula,
    )
        decreases len,
    {
        if len == 0 {
            (Seq::empty(), self)
        } else {
            let (rows, defined) = self.count_row(prior, var, (len - 1) as nat);
            let (row, next) = defined.count_var(prior, var, (len - 1) as nat);
            (rows.push(row), next)
        }
    }

    /// The rows of the counter over `vars`, cut off after `up_to` rows, and
    /// the formula after they have been defined. Row `c` stands for "more than
    /// `c` literals of `vars` are true".
    pub open spec fn count_up_to_vars(self, up_to: nat, vars: Seq<Literal>) -> (
        Seq<Literal>,
        Formula,
    )
        decreases vars.len(),
    {
        if up_to == 0 || vars.len() == 0 {
            (Seq::empty(), self)
        } else {
            let (prior, defined) = self.count_up_to_vars(up_to, vars.drop_last());
            defined.count_row(prior, vars.last(), min_nat(up_to, prior.len() + 1))
        }
    }

    /// The table of `threshold + 1` literals of which entry `c` stands for "at
    /// least `c` literals of `vars` are true", and the formula after they have
    /// been defined. Entry 0 is `True`; an entry past the number of literals is
    /// `False`.
    pub open spec fn count_at_least(self, threshold: nat, vars: Seq<Literal>) -> (
        Seq<Literal>,
        Formula,
    ) {
        let (rows, defined) = self.count_up_to_vars(threshold, vars);
        (
            Seq::new(
                threshold + 1,
                |c: int|
                    if c == 0 {
                        Literal::True
                    } else if c <= rows.len() {
                        rows[c - 1]
                    } else {
                        Literal::False
                    },
            ),
            defined,
        )
    }

    /// The formula after "exactly `count` literals of `vars` are true" has
    /// been added: none of them for 0, all of them for the number of literals,
    /// and else "at least `count`" as a unit clause with "not at least
    /// `count + 1`" as another.
    pub open spec fn exact_count(self, count: nat, vars: Seq<Literal>) -> Formula {
        if count == 0 {
            self.with_units(negations(vars))
        } else if count == vars.len() {
            self.with_units(vars)
        } else {
            let (table, defined) = self.count_at_least(count + 1, vars);
            defined.with_units(seq![table[count as int], table[count as int + 1].negation()])
        }
    }
}

impl Formula {
    /// Whether "exactly `count` literals of `vars` are true" can be added
    /// without a clause that folds to nothing: the count is not above the
    /// number of literals, and no unit clause comes out as `False`.
    pub open spec fn exact_count_fits(self, count: nat, vars: Seq<Literal>) -> bool {
        if count > vars.len() {
            false
        } else if count == 0 {
            !vars.contains(Literal::True)
        } else if count == vars.len() {
            !vars.contains(Literal::False)
        } else {
            let table = self.count_at_least(count + 1, vars).0;
            table[count as int] != Literal::False && table[count as int + 1] != Literal::True
        }
    }

    /// The formula after an attempt to add "exactly `count` literals of `vars`
    /// are true": with the clauses where they fit, and else as the attempt
    /// leaves it, which is with the counter where one was built.
    pub open spec fn try_exact_count(self, count: nat, vars: Seq<Literal>) -> Formula {
        if self.exact_count_fits(count, vars) {
            self.exact_count(count, vars)
        } else if 0 < count < vars.len() {
            self.count_at_least(count + 1, vars).1
        } else {
            self
        }
    }
}

/// Where the clauses of "exactly `count`" do not fit, no assignment that
/// satisfies the formula makes exactly `count` literals of `vars` true.
pub proof fn lemma_exact_count_misfit(f: Formula, count: nat, vars: Seq<Literal>, a: Assignment)
    requires
        f.wf(),
        all_within(vars, f.num_vars),
        0 < count < vars.len() ==> f.num_vars + (count + 1) * vars.len() <= MAX_VARIABLES,
        !f.exact_count_fits(count, vars),
        f.holds(a),
    ensures
        count_true(vars, a) != count,
{
    lemma_count_true_bounds(vars, a);
    if count > vars.len() {
    } else if count == 0 {
    } else if count == vars.len() {
    } else {
        lemma_counter_budget(count + 1, vars.len());
        let b = lemma_count_up_to_vars_extend(f, count + 1, vars, a);
        lemma_count_true_frame(vars, a, b, f.num_vars);
        lemma_count_at_least(f, count + 1, vars, b);
    }
}

/// A counter gate ties its fresh variable to "`m` and `v`, or `p`" and says
/// nothing else.
pub proof fn lemma_counter_gate(f: Formula, m: Literal, v: Literal, p: Literal, a: Assignment)
    requires
        f.wf(),
        f.num_vars < MAX_VARIABLES,
        m.within(f.num_vars),
        v.within(f.num_vars),
        p.within(f.num_vars),
    ensures
        f.counter_gate(m, v, p).holds(a) == (f.holds(a) && (f.fresh().value(a) == ((m.value(a)
            && v.value(a)) || p.value(a)))),
        f.counter_gate(m, v, p).wf(),
        f.grows_to(f.counter_gate(m, v, p)),
        f.counter_gate(m, v, p).num_vars == f.num_vars + 1,
{
    let r = f.fresh();
    let f1 = f.with_var();
    let c1 = seq![r.negation(), m, p];
    let c2 = seq![r.negation(), p, v];
    let c3 = seq![m.negation(), v.negation(), r];
    let c4 = seq![p.negation(), r];
    let f2 = f1.with_clause(c1);
    let f3 = f2.with_clause(c2);
    let f4 = f3.with_clause(c3);
    let f5 = f4.with_clause(c4);
    lemma_with_clause(f1, c1, a);
    lemma_with_clause(f2, c2, a);
    lemma_with_clause(f3, c3, a);
    lemma_with_clause(f4, c4, a);
    assert(clause_holds(c1, a) == (!r.value(a) || m.value(a) || p.value(a))) by {}
    assert(clause_holds(c2, a) == (!r.value(a) || p.value(a) || v.value(a))) by {}
    assert(clause_holds(c3, a) == (!m.value(a) || !v.value(a) || r.value(a))) by {}
    assert(clause_holds(c4, a) == (!p.value(a) || r.value(a))) by {}
    lemma_grows_trans(f, f2, f3);
    lemma_grows_trans(f, f3, f4);
    lemma_grows_trans(f, f4, f5);
}

/// Where there is room for the variable that row `c` hands out, if it hands
/// one out, there is room for each gate that the row is made of.
pub proof fn lemma_count_var_room(f: Formula, prior: Seq<Literal>, var: Literal, c: nat)
    requires
        c <= prior.len(),
        f.count_var_allocates(prior, var, c) ==> f.num_vars < MAX_VARIABLES,
    ensures
        c == 0 && prior.len() > 0 && or_fold(seq![prior[0], var]) is None ==> f.num_vars
            < MAX_VARIABLES,
        0 < c == prior.len() && and_fold(seq![prior[c - 1], var]) is None ==> f.num_vars
            < MAX_VARIABLES,
        0 < c < prior.len() && prior[c as int] != Literal::True ==> {
            let m = prior[c - 1];
            let p = prior[c as int];
            let (both, with_both) = f.and_var(seq![m, var]);
            if p == Literal::False || m.is_constant() || var.is_constant() {
                &&& and_fold(seq![m, var]) is None ==> f.num_vars < MAX_VARIABLES
                &&& or_fold(seq![both, p]) is None ==> with_both.num_vars < MAX_VARIABLES
            } else {
                f.num_vars < MAX_VARIABLES
            }
        },
{
    if c == 0 {
        if prior.len() > 0 {
            lemma_gate_sizes(f, without(seq![prior[0], var], Literal::False));
        }
    } else if c == prior.len() {
        lemma_gate_sizes(f, without(seq![prior[c - 1], var], Literal::True));
    } else {
        let m = prior[c - 1];
        let p = prior[c as int];
        if p == Literal::True {
        } else if p == Literal::False || m.is_constant() || var.is_constant() {
            let (both, g) = f.and_var(seq![m, var]);
            lemma_gate_sizes(f, without(seq![m, var], Literal::True));
            lemma_gate_sizes(g, without(seq![both, p], Literal::False));
            lemma_and_pair_fold(m, var);
            lemma_or_pair_fold(both, p);
        } else {
            assert(f.counter_gate(m, var, p).num_vars == f.num_vars + 1);
        }
    }
}

/// Row `c` of the counter is defined by what it stands for: the new formula
/// asks of an assignment what the old one asked, and that the row's literal
/// has the row's value. At most one variable is handed out, and it is the
/// row's literal.
pub proof fn lemma_count_var(f: Formula, prior: Seq<Literal>, var: Literal, c: nat, a: Assignment)
    requires
        f.wf(),
        f.count_var_allocates(prior, var, c) ==> f.num_vars < MAX_VARIABLES,
        all_within(prior, f.num_vars),
        var.within(f.num_vars),
        c <= prior.len(),
    ensures
        f.count_var(prior, var, c).1.holds(a) == (f.holds(a) && (f.count_var(
            prior,
            var,
            c,
        ).0.value(a) == counter_value(prior, var, c, a))),
        f.count_var(prior, var, c).1.wf(),
        f.count_var(prior, var, c).0.within(f.count_var(prior, var, c).1.num_vars),
        f.grows_to(f.count_var(prior, var, c).1),
        f.count_var(prior, var, c).1 == f || (f.count_var(prior, var, c).1.num_vars == f.num_vars
            + 1 && f.count_var(prior, var, c).0 == f.fresh()),
        f.count_var(prior, var, c).1 == f ==> f.count_var(prior, var, c).0.within(f.num_vars),
{
    assert(f.clauses.take(f.clauses.len() as int) =~= f.clauses);
    lemma_count_var_room(f, prior, var, c);
    if c == 0 {
        if prior.len() > 0 {
            lemma_or_var(f, seq![prior[0], var], a);
        }
    } else if c == prior.len() {
        lemma_and_var(f, seq![prior[c - 1], var], a);
    } else {
        let m = prior[c - 1];
        let p = prior[c as int];
        if p == Literal::True {
        } else if p == Literal::False || m.is_constant() || var.is_constant() {
            let (both, g) = f.and_var(seq![m, var]);
            lemma_and_var(f, seq![m, var], a);
            lemma_and_pair_fold(m, var);
            lemma_or_pair_fold(both, p);
            lemma_or_var(g, seq![both, p], a);
        } else {
            lemma_counter_gate(f, m, var, p, a);
        }
    }
}

/// A conjunction of two literals folds exactly when one of them is a
/// constant.
proof fn lemma_and_pair_fold(x: Literal, y: Literal)
    ensures
        and_fold(seq![x, y]) is None <==> !x.is_constant() && !y.is_constant(),
{
    reveal_with_fuel(Seq::filter, 3);
}

/// A disjunction of two literals folds exactly when one of them is a
/// constant.
proof fn lemma_or_pair_fold(x: Literal, y: Literal)
    ensures
        or_fold(seq![x, y]) is None <==> !x.is_constant() && !y.is_constant(),
        y == Literal::False && !x.is_constant() ==> or_fold(seq![x, y]) == Some(x),
{
    reveal_with_fuel(Seq::filter, 3);
}

/// Defining row `c` constrains no earlier variable: an assignment that
/// satisfies the old formula satisfies the new one once the row's variable,
/// if one was handed out, is given the row's value.
pub proof fn lemma_count_var_extend(
    f: Formula,
    prior: Seq<Literal>,
    var: Literal,
    c: nat,
    a: Assignment,
) -> (b: Assignment)
    requires
        f.wf(),
        f.count_var_allocates(prior, var, c) ==> f.num_vars < MAX_VARIABLES,
        all_within(prior, f.num_vars),
        var.within(f.num_vars),
        c <= prior.len(),
        f.holds(a),
    ensures
        agree(a, b, f.num_vars),
        f.count_var(prior, var, c).1.holds(b),
{
    let (r, g) = f.count_var(prior, var, c);
    if g == f {
        a
    } else {
        let fresh = (f.num_vars + 1) as nat;
        let b = if counter_value(prior, var, c, a) {
            a.insert(fresh)
        } else {
            a.remove(fresh)
        };
        lemma_count_var(f, prior, var, c, b);
        b
    }
}

/// The first `len` rows after `var` has been taken in: each has the value it
/// stands for in every assignment that satisfies the new formula, and at most
/// `len` variables are handed out.
pub proof fn lemma_count_row(
    f: Formula,
    prior: Seq<Literal>,
    var: Literal,
    len: nat,
    a: Assignment,
)
    requires
        f.wf(),
        f.num_vars + len <= MAX_VARIABLES,
        all_within(prior, f.num_vars),
        var.within(f.num_vars),
        len <= prior.len() + 1,
    ensures
        f.count_row(prior, var, len).0.len() == len,
        f.count_row(prior, var, len).1.wf(),
        all_within(f.count_row(prior, var, len).0, f.count_row(prior, var, len).1.num_vars),
        f.grows_to(f.count_row(prior, var, len).1),
        f.count_row(prior, var, len).1.num_vars <= f.num_vars + len,
        f.count_row(prior, var, len).1.holds(a) ==> f.holds(a) && forall|c: int|
            0 <= c < len ==> (#[trigger] f.count_row(prior, var, len).0[c]).value(a)
                == counter_value(prior, var, c as nat, a),
    decreases len,
{
    if len == 0 {
        assert(f.clauses.take(f.clauses.len() as int) =~= f.clauses);
    } else {
        let c = (len - 1) as nat;
        let (rows, g) = f.count_row(prior, var, c);
        let (row, h) = g.count_var(prior, var, c);
        lemma_count_row(f, prior, var, c, a);
        lemma_count_var(g, prior, var, c, a);
        lemma_grows_trans(f, g, h);
        let all = rows.push(row);
        assert forall|k: int| 0 <= k < all.len() implies (#[trigger] all[k]).within(
            h.num_vars,
        ) by {}
        if h.holds(a) {
            assert forall|k: int| 0 <= k < len implies (#[trigger] all[k]).value(a)
                == counter_value(prior, var, k as nat, a) by {}
        }
    }
}

/// Defining the rows constrains no earlier variable.
pub proof fn lemma_count_row_extend(
    f: Formula,
    prior: Seq<Literal>,
    var: Literal,
    len: nat,
    a: Assignment,
) -> (b: Assignment)
    requires
        f.wf(),
        f.num_vars + len <= MAX_VARIABLES,
        all_within(prior, f.num_vars),
        var.within(f.num_vars),
        len <= prior.len() + 1,
        f.holds(a),
    ensures
        agree(a, b, f.num_vars),
        f.count_row(prior, var, len).1.holds(b),
    decreases len,
{
    if len == 0 {
        a
    } else {
        let c = (len - 1) as nat;
        let (rows, g) = f.count_row(prior, var, c);
        let mid = lemma_count_row_extend(f, prior, var, c, a);
        lemma_count_row(f, prior, var, c, a);
        let b = lemma_count_var_extend(g, prior, var, c, mid);
        b
    }
}

/// The counter counts: in every assignment that satisfies the new formula,
/// row `c` is true exactly when more than `c` literals of `vars` are. There
/// are as many rows as literals, but no more than `up_to`.
pub proof fn lemma_count_up_to_vars(f: Formula, up_to: nat, vars: Seq<Literal>, a: Assignment)
    requires
        f.wf(),
        f.num_vars + counter_budget(up_to, vars.len()) <= MAX_VARIABLES,
        all_within(vars, f.num_vars),
    ensures
        f.count_up_to_vars(up_to, vars).0.len() == min_nat(up_to, vars.len()),
        f.count_up_to_vars(up_to, vars).1.wf(),
        all_within(f.count_up_to_vars(up_to, vars).0, f.count_up_to_vars(up_to, vars).1.num_vars),
        f.grows_to(f.count_up_to_vars(up_to, vars).1),
        f.count_up_to_vars(up_to, vars).1.num_vars <= f.num_vars + counter_budget(
            up_to,
            vars.len(),
        ),
        f.count_up_to_vars(up_to, vars).1.holds(a) ==> f.holds(a) && forall|c: int|
            0 <= c < min_nat(up_to, vars.len()) ==> (#[trigger] f.count_up_to_vars(
                up_to,
                vars,
            ).0[c]).value(a) == (count_true(vars, a) > c),
    decreases vars.len(),
{
    if up_to == 0 || vars.len() == 0 {
        assert(f.clauses.take(f.clauses.len() as int) =~= f.clauses);
    } else {
        let init = vars.drop_last();
        let v = vars.last();
        let (prior, g) = f.count_up_to_vars(up_to, init);
        let len = min_nat(up_to, prior.len() + 1);
        let (rows, h) = g.count_row(prior, v, len);
        lemma_counter_budget(up_to, init.len());
        assert forall|i: int| 0 <= i < init.len() implies (#[trigger] init[i]).within(
            f.num_vars,
        ) by {}
        lemma_count_up_to_vars(f, up_to, init, a);
        lemma_count_row(g, prior, v, len, a);
        lemma_grows_trans(f, g, h);
        lemma_count_true_bounds(init, a);
        if h.holds(a) {
            assert forall|c: int| 0 <= c < len implies (#[trigger] rows[c]).value(a) == (
            count_true(vars, a) > c) by {}
        }
    }
}

/// Building the counter constrains no earlier variable: every assignment that
/// satisfies the old formula agrees on the old variables with one that
/// satisfies the new formula.
pub proof fn lemma_count_up_to_vars_extend(
    f: Formula,
    up_to: nat,
    vars: Seq<Literal>,
    a: Assignment,
) -> (b: Assignment)
    requires
        f.wf(),
        f.num_vars + counter_budget(up_to, vars.len()) <= MAX_VARIABLES,
        all_within(vars, f.num_vars),
        f.holds(a),
    ensures
        agree(a, b, f.num_vars),
        f.count_up_to_vars(up_to, vars).1.holds(b),
    decreases vars.len(),
{
    if up_to == 0 || vars.len() == 0 {
        a
    } else {
        let init = vars.drop_last();
        let v = vars.last();
        let (prior, g) = f.count_up_to_vars(up_to, init);
        let len = min_nat(up_to, prior.len() + 1);
        lemma_counter_budget(up_to, init.len());
        assert forall|i: int| 0 <= i < init.len() implies (#[trigger] init[i]).within(
            f.num_vars,
        ) by {}
        let mid = lemma_count_up_to_vars_extend(f, up_to, init, a);
        lemma_count_up_to_vars(f, up_to, init, a);
        let b = lemma_count_row_extend(g, prior, v, len, mid);
        b
    }
}

/// The table counts: in every assignment that satisfies the new formula,
/// entry `c` is true exactly when at least `c` literals of `vars` are.
pub proof fn lemma_count_at_least(f: Formula, threshold: nat, vars: Seq<Literal>, a: Assignment)
    requires
        f.wf(),
        f.num_vars + counter_budget(threshold, vars.len()) <= MAX_VARIABLES,
        all_within(vars, f.num_vars),
    ensures
        f.count_at_least(threshold, vars).0.len() == threshold + 1,
        f.count_at_least(threshold, vars).1.wf(),
        all_within(f.count_at_least(threshold, vars).0, f.count_at_least(threshold, vars).1.num_vars),
        f.grows_to(f.count_at_least(threshold, vars).1),
        f.count_at_least(threshold, vars).1.holds(a) ==> f.holds(a) && forall|c: int|
            0 <= c <= threshold ==> (#[trigger] f.count_at_least(threshold, vars).0[c]).value(a)
                == (count_true(vars, a) >= c),
{
    let (rows, g) = f.count_up_to_vars(threshold, vars);
    let table = f.count_at_least(threshold, vars).0;
    lemma_count_up_to_vars(f, threshold, vars, a);
    lemma_count_true_bounds(vars, a);
    assert forall|c: int| 0 <= c < table.len() implies (#[trigger] table[c]).within(
        g.num_vars,
    ) by {}
    if g.holds(a) {
        assert forall|c: int| 0 <= c <= threshold implies (#[trigger] table[c]).value(a) == (
        count_true(vars, a) >= c) by {}
    }
}

/// The table constrains no earlier variable, and it counts whatever values
/// they have: every assignment that satisfies the old formula agrees on the
/// old variables with one that satisfies the new formula, and in that one
/// entry `c` is true exactly when at least `c` literals of `vars` are true.
pub proof fn lemma_count_at_least_extend(
    f: Formula,
    threshold: nat,
    vars: Seq<Literal>,
    a: Assignment,
) -> (b: Assignment)
    requires
        f.wf(),
        f.num_vars + counter_budget(threshold, vars.len()) <= MAX_VARIABLES,
        all_within(vars, f.num_vars),
        f.holds(a),
    ensures
        agree(a, b, f.num_vars),
        f.count_at_least(threshold, vars).1.holds(b),
        forall|c: int|
            0 <= c <= threshold ==> (#[trigger] f.count_at_least(threshold, vars).0[c]).value(b)
                == (count_true(vars, a) >= c),
{
    let b = lemma_count_up_to_vars_extend(f, threshold, vars, a);
    lemma_count_true_frame(vars, a, b, f.num_vars);
    lemma_count_at_least(f, threshold, vars, b);
    b
}

/// The clauses of "exactly `count`" allow only assignments in which exactly
/// `count` literals of `vars` are true.
pub proof fn lemma_exact_count(f: Formula, count: nat, vars: Seq<Literal>, a: Assignment)
    requires
        f.wf(),
        all_within(vars, f.num_vars),
        count <= vars.len(),
        0 < count < vars.len() ==> f.num_vars + (count + 1) * vars.len() <= MAX_VARIABLES,
    ensures
        f.exact_count(count, vars).holds(a) ==> f.holds(a) && count_true(vars, a) == count,
        f.exact_count(count, vars).wf(),
        f.grows_to(f.exact_count(count, vars)),
{
    lemma_count_true_bounds(vars, a);
    if count == 0 {
        lemma_negations(vars, f.num_vars, a);
        lemma_with_units(f, negations(vars), a);
    } else if count == vars.len() {
        lemma_with_units(f, vars, a);
    } else {
        let (table, g) = f.count_at_least(count + 1, vars);
        let units = seq![table[count as int], table[count as int + 1].negation()];
        lemma_counter_budget(count + 1, vars.len());
        lemma_count_at_least(f, count + 1, vars, a);
        lemma_with_units(g, units, a);
        lemma_grows_trans(f, g, g.with_units(units));
    }
}

/// The clauses of "exactly `count`" allow every choice of values for the
/// earlier variables in which exactly `count` literals of `vars` are true.
pub proof fn lemma_exact_count_extend(f: Formula, count: nat, vars: Seq<Literal>, a: Assignment) -> (b:
    Assignment)
    requires
        f.wf(),
        all_within(vars, f.num_vars),
        count <= vars.len(),
        0 < count < vars.len() ==> f.num_vars + (count + 1) * vars.len() <= MAX_VARIABLES,
        f.holds(a),
        count_true(vars, a) == count,
    ensures
        agree(a, b, f.num_vars),
        f.exact_count(count, vars).holds(b),
{
    lemma_count_true_bounds(vars, a);
    if count == 0 {
        lemma_with_units(f, negations(vars), a);
        a
    } else if count == vars.len() {
        lemma_with_units(f, vars, a);
        a
    } else {
        let (table, g) = f.count_at_least(count + 1, vars);
        let units = seq![table[count as int], table[count as int + 1].negation()];
        lemma_counter_budget(count + 1, vars.len());
        let b = lemma_count_up_to_vars_extend(f, count + 1, vars, a);
        lemma_count_true_frame(vars, a, b, f.num_vars);
        lemma_count_at_least(f, count + 1, vars, b);
        lemma_with_units(g, units, b);
        b
    }
}

/// Over literals that are all variables, every row of the counter is a
/// variable too: no constant comes out where none went in.
pub proof fn lemma_rows_not_constant(f: Formula, up_to: nat, vars: Seq<Literal>)
    requires
        forall|i: int| 0 <= i < vars.len() ==> !(#[trigger] vars[i]).is_constant(),
    ensures
        forall|c: int|
            0 <= c < f.count_up_to_vars(up_to, vars).0.len() ==> !(#[trigger] f.count_up_to_vars(
                up_to,
                vars,
            ).0[c]).is_constant(),
        f.count_up_to_vars(up_to, vars).0.len() == min_nat(up_to, vars.len()),
    decreases vars.len(),
{
    if up_to > 0 && vars.len() > 0 {
        let init = vars.drop_last();
        let (prior, g) = f.count_up_to_vars(up_to, init);
        assert forall|i: int| 0 <= i < init.len() implies !(#[trigger] init[i]).is_constant() by {}
        lemma_rows_not_constant(f, up_to, init);
        lemma_row_not_constant(g, prior, vars.last(), min_nat(up_to, prior.len() + 1));
    }
}

proof fn lemma_row_not_constant(f: Formula, prior: Seq<Literal>, var: Literal, len: nat)
    requires
        forall|i: int| 0 <= i < prior.len() ==> !(#[trigger] prior[i]).is_constant(),
        !var.is_constant(),
        len <= prior.len() + 1,
    ensures
        forall|c: int|
            0 <= c < len ==> !(#[trigger] f.count_row(prior, var, len).0[c]).is_constant(),
        f.count_row(prior, var, len).0.len() == len,
    decreases len,
{
    if len > 0 {
        let c = (len - 1) as nat;
        let (rows, g) = f.count_row(prior, var, c);
        lemma_row_not_constant(f, prior, var, c);
        if c == 0 {
            if prior.len() > 0 {
                lemma_or_pair_fold(prior[0], var);
            }
        } else if c == prior.len() {
            lemma_and_pair_fold(prior[c - 1], var);
        }
        let all = f.count_row(prior, var, len).0;
        assert forall|k: int| 0 <= k < len implies !(#[trigger] all[k]).is_constant() by {}
    }
}

impl SatProblem {
    /// Row `count_greater_than` of the counter after `var` has been taken in:
    /// a literal that is true exactly when more than `count_greater_than` of
    /// the literals counted so far are, given that `prior_greater_than[k]`
    /// is true exactly when more than `k` of the earlier ones are. Room for a
    /// variable is needed only where the row hands one out.
    pub fn count_var(
        &mut self,
        prior_greater_than: &[Literal],
        var: Literal,
        count_greater_than: usize,
    ) -> (result: Literal)
        requires
            old(self).wf(),
            old(self)@.count_var_allocates(prior_greater_than@, var, count_greater_than as nat)
                ==> old(self)@.num_vars < MAX_VARIABLES,
            all_within(prior_greater_than@, old(self)@.num_vars),
            var.within(old(self)@.num_vars),
            count_greater_than <= prior_greater_than@.len(),
        ensures
            final(self).wf(),
            (result, final(self)@) == old(self)@.count_var(
                prior_greater_than@,
                var,
                count_greater_than as nat,
            ),
            result.within(final(self)@.num_vars),
            old(self)@.grows_to(final(self)@),
            forall|a: Assignment| #[trigger]
                final(self)@.holds(a) == (old(self)@.holds(a) && (result.value(a) == counter_value(
                    prior_greater_than@,
                    var,
                    count_greater_than as nat,
                    a,
                ))),
    {
        let ghost before = self@;
        let ghost prior = prior_greater_than@;
        let c = count_greater_than;
        proof {
            self.lemma_view_wf();
            lemma_count_var_room(before, prior, var, c as nat);
            lemma_count_var(before, prior, var, c as nat, Set::empty());
            assert forall|a: Assignment| #[trigger]
                before.count_var(prior, var, c as nat).1.holds(a) == (before.holds(a) && (
                before.count_var(prior, var, c as nat).0.value(a) == counter_value(
                    prior,
                    var,
                    c as nat,
                    a,
                ))) by {
                lemma_count_var(before, prior, var, c as nat, a);
            }
        }
        if c == 0 {
            if prior_greater_than.len() > 0 {
                let pair = [prior_greater_than[0], var];
                return self.or_var(pair.as_slice());
            } else {
                return var;
            }
        }
        if c == prior_greater_than.len() {
            let pair = [prior_greater_than[c - 1], var];
            return self.and_var(pair.as_slice());
        }
        let m = prior_greater_than[c - 1];
        let p = prior_greater_than[c];
        if p == Literal::True {
            return Literal::True;
        }
        if p == Literal::False || m.is_const() || var.is_const() {
            let first = [m, var];
            proof {
                lemma_and_var(before, seq![m, var], Set::empty());
            }
            let both = self.and_var(first.as_slice());
            let second = [both, p];
            return self.or_var(second.as_slice());
        }
        let result = self.var();
        let c1 = [result.negate(), m, p];
        let c2 = [result.negate(), p, var];
        let c3 = [m.negate(), var.negate(), result];
        let c4 = [p.negate(), result];
        self.or_clause(c1.as_slice());
        self.or_clause(c2.as_slice());
        self.or_clause(c3.as_slice());
        self.or_clause(c4.as_slice());
        result
    }

    /// The rows of a sequential counter over `vars`, cut off after `up_to`
    /// rows: row `c` is a literal that is true exactly when more than `c`
    /// literals of `vars` are. The literals are taken in one at a time, first
    /// to last, and each makes a new row from the last.
    pub fn count_up_to_vars(&mut self, up_to: usize, vars: &[Literal]) -> (rows: Vec<Literal>)
        requires
            old(self).wf(),
            all_within(vars@, old(self)@.num_vars),
            old(self)@.num_vars + counter_budget(up_to as nat, vars@.len()) <= MAX_VARIABLES,
        ensures
            final(self).wf(),
            (rows@, final(self)@) == old(self)@.count_up_to_vars(up_to as nat, vars@),
            rows@.len() == min_nat(up_to as nat, vars@.len()),
            all_within(rows@, final(self)@.num_vars),
            old(self)@.grows_to(final(self)@),
            forall|a: Assignment| #[trigger]
                final(self)@.holds(a) ==> old(self)@.holds(a) && forall|c: int|
                    0 <= c < rows@.len() ==> (#[trigger] rows@[c]).value(a) == (count_true(
                        vars@,
                        a,
                    ) > c),
            extends(old(self)@, final(self)@),
    {
        let ghost before = self@;
        let ghost limit = up_to as nat;
        let mut prior: Vec<Literal> = Vec::new();
        proof {
            self.lemma_view_wf();
        }
        if up_to > 0 {
            let mut i: usize = 0;
            while i < vars.len()
                invariant
                    i <= vars.len(),
                    0 < up_to == limit,
                    self.wf(),
                    before.wf(),
                    all_within(vars@, before.num_vars),
                    before.num_vars + counter_budget(limit, vars@.len()) <= MAX_VARIABLES,
                    (prior@, self@) == before.count_up_to_vars(limit, vars@.take(i as int)),
                decreases vars.len() - i,
            {
                let v = vars[i];
                let ghost start = self@;
                let ghost done = vars@.take(i as int);
                proof {
                    lemma_counter_budget(limit, done.len());
                    lemma_counter_budget(limit, done.len() + 1);
                    assert(counter_budget(limit, done.len() + 1) <= counter_budget(
                        limit,
                        vars@.len(),
                    ));
                    lemma_count_up_to_vars(before, limit, done, Set::empty());
                }
                let row_len: usize = if up_to < prior.len() + 1 {
                    up_to
                } else {
                    prior.len() + 1
                };
                let mut row: Vec<Literal> = Vec::new();
                let mut c: usize = 0;
                while c < row_len
                    invariant
                        c <= row_len,
                        row_len == min_nat(limit, prior@.len() + 1),
                        self.wf(),
                        start.wf(),
                        start.num_vars + row_len <= MAX_VARIABLES,
                        all_within(prior@, start.num_vars),
                        v.within(start.num_vars),
                        (row@, self@) == start.count_row(prior@, v, c as nat),
                    decreases row_len - c,
                {
                    proof {
                        lemma_count_row(start, prior@, v, c as nat, Set::empty());
                    }
                    let r = self.count_var(prior.as_slice(), v, c);
                    row.push(r);
                    c = c + 1;
                }
                prior = row;
                proof {
                    assert(vars@.take(i + 1).drop_last() =~= done);
                }
                i = i + 1;
            }
        }
        proof {
            assert(vars@.take(vars@.len() as int) =~= vars@);
            lemma_count_up_to_vars(before, limit, vars@, Set::empty());
            assert forall|a: Assignment| #[trigger] self@.holds(a) implies before.holds(a)
                && forall|c: int|
                0 <= c < prior@.len() ==> (#[trigger] prior@[c]).value(a) == (count_true(vars@, a)
                    > c) by {
                lemma_count_up_to_vars(before, limit, vars@, a);
            }
            assert forall|a: Assignment| #[trigger] before.holds(a) implies exists|b: Assignment|
                agree(a, b, before.num_vars) && #[trigger] self@.holds(b) by {
                let b = lemma_count_up_to_vars_extend(before, limit, vars@, a);
            }
        }
        prior
    }

    /// A table of `threshold + 1` literals of which entry `c` is true exactly
    /// when at least `c` literals of `vars` are: `True`, then the rows of the
    /// counter, then `False` for each count that `vars` is too short for.
    pub fn count_at_least(&mut self, threshold: usize, vars: &[Literal]) -> (table: Vec<Literal>)
        requires
            old(self).wf(),
            all_within(vars@, old(self)@.num_vars),
            old(self)@.num_vars + counter_budget(threshold as nat, vars@.len()) <= MAX_VARIABLES,
            threshold < usize::MAX,
        ensures
            final(self).wf(),
            (table@, final(self)@) == old(self)@.count_at_least(threshold as nat, vars@),
            table@.len() == threshold + 1,
            all_within(table@, final(self)@.num_vars),
            old(self)@.grows_to(final(self)@),
            forall|a: Assignment| #[trigger]
                final(self)@.holds(a) ==> old(self)@.holds(a) && forall|c: int|
                    0 <= c <= threshold ==> (#[trigger] table@[c]).value(a) == (count_true(
                        vars@,
                        a,
                    ) >= c),
            extends(old(self)@, final(self)@),
    {
        let ghost before = self@;
        proof {
            self.lemma_view_wf();
        }
        let rows = self.count_up_to_vars(threshold, vars);
        let ghost wanted = before.count_at_least(threshold as nat, vars@).0;
        let mut table: Vec<Literal> = Vec::new();
        table.push(Literal::True);
        let mut c: usize = 1;
        while c <= threshold
            invariant
                1 <= c <= threshold + 1,
                threshold < usize::MAX,
                table@.len() == c,
                wanted.len() == threshold + 1,
                wanted == before.count_at_least(threshold as nat, vars@).0,
                rows@ == before.count_up_to_vars(threshold as nat, vars@).0,
                forall|k: int| 0 <= k < c ==> #[trigger] table@[k] == wanted[k],
            decreases threshold + 1 - c,
        {
            if c <= rows.len() {
                table.push(rows[c - 1]);
            } else {
                table.push(Literal::False);
            }
            c = c + 1;
        }
        proof {
            assert forall|a: Assignment| #[trigger] self@.holds(a) implies before.holds(a)
                && forall|c: int|
                0 <= c <= threshold ==> (#[trigger] table@[c]).value(a) == (count_true(vars@, a)
                    >= c) by {
                lemma_count_at_least(before, threshold as nat, vars@, a);
            }
        }
        table
    }

    /// Adds the clauses that say that exactly `count` literals of `vars` are
    /// true: none of them for 0, all of them for the number of literals, and
    /// else two unit clauses on the table of [`SatProblem::count_at_least`].
    /// The count must not be above the number of literals, and no unit clause
    /// may come out as `False`.
    pub fn exact_count_clause(&mut self, count: usize, vars: &[Literal])
        requires
            old(self).wf(),
            all_within(vars@, old(self)@.num_vars),
            count <= vars@.len(),
            count == 0 ==> !vars@.contains(Literal::True),
            0 < count == vars@.len() ==> !vars@.contains(Literal::False),
            0 < count < vars@.len() ==> {
                &&& old(self)@.num_vars + (count + 1) * vars@.len() <= MAX_VARIABLES
                &&& old(self)@.count_at_least((count + 1) as nat, vars@).0[count as int]
                    != Literal::False
                &&& old(self)@.count_at_least((count + 1) as nat, vars@).0[count + 1]
                    != Literal::True
            },
        ensures
            final(self).wf(),
            final(self)@ == old(self)@.exact_count(count as nat, vars@),
            old(self)@.grows_to(final(self)@),
            forall|a: Assignment| #[trigger]
                final(self)@.holds(a) ==> old(self)@.holds(a) && count_true(vars@, a) == count,
            extends_with_count(old(self)@, final(self)@, vars@, count as nat),
    {
        let ghost before = self@;
        proof {
            self.lemma_view_wf();
            lemma_exact_count(before, count as nat, vars@, Set::empty());
            assert forall|a: Assignment| #[trigger]
                before.exact_count(count as nat, vars@).holds(a) implies before.holds(a)
                && count_true(vars@, a) == count by {
                lemma_exact_count(before, count as nat, vars@, a);
            }
            assert forall|a: Assignment| #[trigger]
                before.holds(a) && count_true(vars@, a) == count implies exists|b: Assignment|
                agree(a, b, before.num_vars) && #[trigger] before.exact_count(
                    count as nat,
                    vars@,
                ).holds(b) by {
                let b = lemma_exact_count_extend(before, count as nat, vars@, a);
            }
        }
        if count == 0 {
            self.nor_clause(vars);
        } else if count == vars.len() {
            self.and_clause(vars);
        } else {
            proof {
                lemma_counter_budget((count + 1) as nat, vars@.len());
                assert(count + 1 <= (count + 1) * vars@.len()) by (nonlinear_arith)
                    requires
                        1 <= vars@.len(),
                ;
            }
            let table = self.count_at_least(count + 1, vars);
            let units = [table[count], table[count + 1].negate()];
            proof {
                assert forall|k: int| 0 <= k < units@.len() implies #[trigger] units@[k]
                    != Literal::False && units@[k].within(self@.num_vars) by {}
            }
            self.and_clause(units.as_slice());
        }
    }

    /// Adds the clauses of [`SatProblem::exact_count_clause`] where they fit,
    /// and says whether they did. Where they do not, no assignment that
    /// satisfies the formula makes exactly `count` literals of `vars` true;
    /// the formula is then left without them.
    #[verifier::loop_isolation(false)]
    pub fn try_exact_count_clause(&mut self, count: usize, vars: &[Literal]) -> (added: bool)
        requires
            old(self).wf(),
            all_within(vars@, old(self)@.num_vars),
            0 < count < vars@.len() ==> old(self)@.num_vars + (count + 1) * vars@.len()
                <= MAX_VARIABLES,
        ensures
            final(self).wf(),
            added == old(self)@.exact_count_fits(count as nat, vars@),
            final(self)@ == old(self)@.try_exact_count(count as nat, vars@),
            old(self)@.grows_to(final(self)@),
            extends(old(self)@, final(self)@) || added,
            added ==> {
                &&& forall|a: Assignment| #[trigger]
                    final(self)@.holds(a) ==> old(self)@.holds(a) && count_true(vars@, a) == count
                &&& extends_with_count(old(self)@, final(self)@, vars@, count as nat)
            },
            !added ==> forall|a: Assignment| #[trigger]
                old(self)@.holds(a) ==> count_true(vars@, a) != count,
    {
        let ghost before = self@;
        proof {
            self.lemma_view_wf();
            assert(before.clauses.take(before.clauses.len() as int) =~= before.clauses);
            if !before.exact_count_fits(count as nat, vars@) {
                assert forall|a: Assignment| #[trigger] before.holds(a) implies count_true(vars@, a)
                    != count by {
                    lemma_exact_count_misfit(before, count as nat, vars@, a);
                }
            }
        }
        if count > vars.len() {
            proof {
                assert forall|a: Assignment| #[trigger] before.holds(a) implies exists|
                    b: Assignment,
                |
                    agree(a, b, before.num_vars) && #[trigger] self@.holds(b) by {}
            }
            return false;
        }
        if count == 0 || count == vars.len() {
            let blocked = if count == 0 {
                Literal::True
            } else {
                Literal::False
            };
            let mut i: usize = 0;
            while i < vars.len()
                invariant
                    i <= vars.len(),
                    forall|k: int| 0 <= k < i ==> #[trigger] vars@[k] != blocked,
                decreases vars.len() - i,
            {
                if vars[i] == blocked {
                    proof {
                        assert forall|a: Assignment| #[trigger] before.holds(a) implies exists|
                            b: Assignment,
                        |
                            agree(a, b, before.num_vars) && #[trigger] self@.holds(b) by {}
                    }
                    return false;
                }
                i = i + 1;
            }
            self.exact_count_clause(count, vars);
            return true;
        }
        proof {
            lemma_counter_budget((count + 1) as nat, vars@.len());
            assert(count + 1 <= (count + 1) * vars@.len()) by (nonlinear_arith)
                requires
                    1 <= vars@.len(),
            ;
        }
        let table = self.count_at_least(count + 1, vars);
        if table[count] == Literal::False || table[count + 1] == Literal::True {
            return false;
        }
        let units = [table[count], table[count + 1].negate()];
        proof {
            assert forall|k: int| 0 <= k < units@.len() implies #[trigger] units@[k]
                != Literal::False && units@[k].within(self@.num_vars) by {}
            lemma_exact_count(before, count as nat, vars@, Set::empty());
            assert forall|a: Assignment| #[trigger]
                before.exact_count(count as nat, vars@).holds(a) implies before.holds(a)
                && count_true(vars@, a) == count by {
                lemma_exact_count(before, count as nat, vars@, a);
            }
            assert forall|a: Assignment| #[trigger]
                before.holds(a) && count_true(vars@, a) == count implies exists|b: Assignment|
                agree(a, b, before.num_vars) && #[trigger] before.exact_count(
                    count as nat,
                    vars@,
                ).holds(b) by {
                let b = lemma_exact_count_extend(before, count as nat, vars@, a);
            }
        }
        self.and_clause(units.as_slice());
        true
    }
}

} // verus!
