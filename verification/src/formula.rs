//! The mathematical model of a formula in conjunctive normal form, and what it
//! means for an assignment to satisfy one.
use vstd::prelude::*;
use crate::literal::{Assignment, Literal, MAX_VARIABLES};

verus! {

/// A formula: a bank of variables, numbered from 1 to `num_vars`, and the
/// clauses added so far, oldest first.
pub struct Formula {
    pub num_vars: nat,
    pub clauses: Seq<Seq<Literal>>,
}

/// Whether `a` makes some literal of the clause true.
pub open spec fn clause_holds(clause: Seq<Literal>, a: Assignment) -> bool {
    exists|i: int| 0 <= i < clause.len() && (#[trigger] clause[i]).value(a)
}

/// Whether `a` makes every literal of `lits` true.
pub open spec fn all_true(lits: Seq<Literal>, a: Assignment) -> bool {
    forall|i: int| 0 <= i < lits.len() ==> (#[trigger] lits[i]).value(a)
}

/// How many literals of `lits` are true under `a`, counted with repetition.
pub open spec fn count_true(lits: Seq<Literal>, a: Assignment) -> nat
    decreases lits.len(),
{
    if lits.len() == 0 {
        0
    } else {
        count_true(lits.drop_last(), a) + if lits.last().value(a) {
            1nat
        } else {
            0nat
        }
    }
}

/// Whether every literal of `lits` speaks only of the first `num_vars`
/// variables.
pub open spec fn all_within(lits: Seq<Literal>, num_vars: nat) -> bool {
    forall|i: int| 0 <= i < lits.len() ==> (#[trigger] lits[i]).within(num_vars)
}

/// Whether every literal of the clause is a variable among the first
/// `num_vars`: what a stored clause looks like.
pub open spec fn clause_proper(clause: Seq<Literal>, num_vars: nat) -> bool {
    forall|i: int|
        0 <= i < clause.len() ==> !(#[trigger] clause[i]).is_constant() && clause[i].within(
            num_vars,
        )
}

/// The literals of `lits` that differ from `x`, in their order.
pub open spec fn without(lits: Seq<Literal>, x: Literal) -> Seq<Literal> {
    lits.filter(|l: Literal| l != x)
}

/// The negation of each literal, in the same order.
pub open spec fn negations(lits: Seq<Literal>) -> Seq<Literal> {
    lits.map_values(|l: Literal| l.negation())
}

/// A clause is trivially true when it holds the constant `True`.
pub open spec fn trivially_true(clause: Seq<Literal>) -> bool {
    clause.contains(Literal::True)
}

/// A clause is a contradiction when nothing is left of it once the constant
/// `False` is struck out: it is empty or holds nothing but `False`.
pub open spec fn contradiction(clause: Seq<Literal>) -> bool {
    forall|i: int| 0 <= i < clause.len() ==> #[trigger] clause[i] == Literal::False
}

/// Whether `a` and `b` give the first `num_vars` variables the same values.
pub open spec fn agree(a: Assignment, b: Assignment, num_vars: nat) -> bool {
    forall|v: nat| 1 <= v <= num_vars ==> a.contains(v) == b.contains(v)
}

/// Whether `g` constrains none of `f`'s variables: every assignment that
/// satisfies `f` agrees on `f`'s variables with one that satisfies `g`.
pub open spec fn extends(f: Formula, g: Formula) -> bool {
    forall|a: Assignment| #[trigger]
        f.holds(a) ==> exists|b: Assignment| agree(a, b, f.num_vars) && #[trigger] g.holds(b)
}

/// Whether `g` constrains `f`'s variables by "exactly `count` literals of
/// `lits` are true" and by nothing more: every assignment that satisfies `f`
/// with that count agrees on `f`'s variables with one that satisfies `g`.
pub open spec fn extends_with_count(f: Formula, g: Formula, lits: Seq<Literal>, count: nat) -> bool {
    forall|a: Assignment| #[trigger]
        f.holds(a) && count_true(lits, a) == count ==> exists|b: Assignment|
            agree(a, b, f.num_vars) && #[trigger] g.holds(b)
}

impl Formula {
    /// The formula without variables or clauses.
    pub open spec fn empty() -> Formula {
        Formula { num_vars: 0, clauses: Seq::empty() }
    }

    /// The number of variables is within the bound, and every stored clause is
    /// made of variables that were handed out.
    pub open spec fn wf(self) -> bool {
        &&& self.num_vars <= MAX_VARIABLES
        &&& forall|j: int|
            0 <= j < self.clauses.len() ==> clause_proper(#[trigger] self.clauses[j], self.num_vars)
    }

    /// Whether `a` satisfies every clause.
    pub open spec fn holds(self, a: Assignment) -> bool {
        forall|j: int| 0 <= j < self.clauses.len() ==> clause_holds(#[trigger] self.clauses[j], a)
    }

    /// The literal of the next variable to be handed out.
    pub open spec fn fresh(self) -> Literal {
        Literal::Var { id: (self.num_vars + 1) as u32, negated: false }
    }

    /// This formula with one more variable.
    pub open spec fn with_var(self) -> Formula {
        Formula { num_vars: self.num_vars + 1, clauses: self.clauses }
    }

    /// This formula with the clause stored as it is.
    pub open spec fn push(self, clause: Seq<Literal>) -> Formula {
        Formula { num_vars: self.num_vars, clauses: self.clauses.push(clause) }
    }

    /// This formula after the clause has been added with its constants folded:
    /// a trivially true clause leaves the formula as it is, any other is stored
    /// without its `False` literals.
    pub open spec fn with_clause(self, clause: Seq<Literal>) -> Formula {
        if trivially_true(clause) {
            self
        } else {
            self.push(without(clause, Literal::False))
        }
    }

    /// This formula after each literal of `lits` has been added as a clause of
    /// its own, first to last.
    pub open spec fn with_units(self, lits: Seq<Literal>) -> Formula
        decreases lits.len(),
    {
        if lits.len() == 0 {
            self
        } else {
            self.with_units(lits.drop_last()).with_clause(seq![lits.last()])
        }
    }

    /// Whether `other` has this formula's clauses as its first clauses and at
    /// least its variables: formulas only grow.
    pub open spec fn grows_to(self, other: Formula) -> bool {
        &&& self.num_vars <= other.num_vars
        &&& self.clauses.len() <= other.clauses.len()
        &&& other.clauses.take(self.clauses.len() as int) == self.clauses
    }
}

/// Striking out `False` keeps the literals that are not `False`, and keeps what
/// the clause says.
pub proof fn lemma_without_false(clause: Seq<Literal>, a: Assignment)
    ensures
        clause_holds(without(clause, Literal::False), a) == clause_holds(clause, a),
        without(clause, Literal::False).len() == 0 <==> contradiction(clause),
        forall|i: int|
            0 <= i < without(clause, Literal::False).len() ==> #[trigger] without(
                clause,
                Literal::False,
            )[i] != Literal::False && clause.contains(without(clause, Literal::False)[i]),
    decreases clause.len(),
{
    reveal(Seq::filter);
    if clause.len() > 0 {
        let init = clause.drop_last();
        lemma_without_false(init, a);
        let kept_init = without(init, Literal::False);
        let kept = without(clause, Literal::False);
        if clause_holds(clause, a) {
            let i = choose|i: int| 0 <= i < clause.len() && (#[trigger] clause[i]).value(a);
            if i < init.len() {
                assert(init[i].value(a));
                let k = choose|k: int| 0 <= k < kept_init.len() && (#[trigger] kept_init[k]).value(a);
                assert(kept[k].value(a));
            } else {
                assert(kept[kept.len() - 1].value(a));
            }
        }
        if clause_holds(kept, a) {
            let k = choose|k: int| 0 <= k < kept.len() && (#[trigger] kept[k]).value(a);
            if k < kept_init.len() {
                let i = choose|i: int| 0 <= i < init.len() && (#[trigger] init[i]).value(a);
            }
        }
        if contradiction(clause) {
            assert forall|i: int| 0 <= i < init.len() implies #[trigger] init[i]
                == Literal::False by {}
        }
        if kept.len() == 0 {
            assert forall|i: int| 0 <= i < clause.len() implies #[trigger] clause[i]
                == Literal::False by {
                if i < init.len() {
                    assert(init[i] == Literal::False);
                }
            }
        }
        assert forall|i: int| 0 <= i < kept.len() implies #[trigger] kept[i] != Literal::False
            && clause.contains(kept[i]) by {}
    }
}

/// What is left when `x` is struck out of `lits`: the literals of `lits` that
/// differ from `x`.
pub proof fn lemma_without_members(lits: Seq<Literal>, x: Literal)
    ensures
        forall|l: Literal| #[trigger]
            without(lits, x).contains(l) <==> (lits.contains(l) && l != x),
        without(lits, x).len() <= lits.len(),
    decreases lits.len(),
{
    reveal(Seq::filter);
    let kept = without(lits, x);
    if lits.len() > 0 {
        let init = lits.drop_last();
        let kept_init = without(init, x);
        lemma_without_members(init, x);
        assert forall|l: Literal| #[trigger] kept.contains(l) <==> (lits.contains(l) && l != x) by {
            if kept.contains(l) {
                let k = choose|k: int| 0 <= k < kept.len() && kept[k] == l;
                if k < kept_init.len() {
                    assert(kept_init.contains(kept_init[k]));
                }
            }
        }
    }
}

/// Striking out `True` keeps what a conjunction says.
pub proof fn lemma_without_true(lits: Seq<Literal>, a: Assignment)
    ensures
        all_true(without(lits, Literal::True), a) == all_true(lits, a),
{
    let kept = without(lits, Literal::True);
    lemma_without_members(lits, Literal::True);
    if all_true(lits, a) {
        assert forall|k: int| 0 <= k < kept.len() implies (#[trigger] kept[k]).value(a) by {
            assert(kept.contains(kept[k]));
        }
    }
    if all_true(kept, a) {
        assert forall|j: int| 0 <= j < lits.len() implies (#[trigger] lits[j]).value(a) by {
            if lits[j] != Literal::True {
                assert(kept.contains(lits[j]));
            }
        }
    }
}

/// What is left of literals within `n` variables is within them too.
pub proof fn lemma_without_within(lits: Seq<Literal>, x: Literal, n: nat)
    requires
        all_within(lits, n),
    ensures
        all_within(without(lits, x), n),
{
    let kept = without(lits, x);
    lemma_without_members(lits, x);
    assert forall|k: int| 0 <= k < kept.len() implies (#[trigger] kept[k]).within(n) by {
        assert(kept.contains(kept[k]));
    }
}

/// Adding a clause with its constants folded constrains the formula by
/// exactly what the clause says, and keeps the formula well formed.
pub proof fn lemma_with_clause(f: Formula, clause: Seq<Literal>, a: Assignment)
    ensures
        f.with_clause(clause).holds(a) == (f.holds(a) && clause_holds(clause, a)),
        f.wf() && all_within(clause, f.num_vars) ==> f.with_clause(clause).wf(),
        f.grows_to(f.with_clause(clause)),
        f.with_clause(clause).num_vars == f.num_vars,
{
    lemma_without_false(clause, a);
    let kept = without(clause, Literal::False);
    let g = f.with_clause(clause);
    if trivially_true(clause) {
        let i = choose|i: int| 0 <= i < clause.len() && clause[i] == Literal::True;
    } else {
        if g.holds(a) {
            assert forall|j: int| 0 <= j < f.clauses.len() implies clause_holds(
                #[trigger] f.clauses[j],
                a,
            ) by {
                assert(g.clauses[j] == f.clauses[j]);
            }
            assert(g.clauses[f.clauses.len() as int] == kept);
        }
        if f.holds(a) && clause_holds(clause, a) {
            assert forall|j: int| 0 <= j < g.clauses.len() implies clause_holds(
                #[trigger] g.clauses[j],
                a,
            ) by {}
        }
        if f.wf() && all_within(clause, f.num_vars) {
            assert forall|j: int| 0 <= j < g.clauses.len() implies clause_proper(
                #[trigger] g.clauses[j],
                g.num_vars,
            ) by {
                if j >= f.clauses.len() {
                    assert forall|i: int| 0 <= i < kept.len() implies !(#[trigger] kept[i]).is_constant()
                        && kept[i].within(f.num_vars) by {}
                }
            }
        }
        assert(g.clauses.take(f.clauses.len() as int) =~= f.clauses);
    }
    assert(f.clauses.take(f.clauses.len() as int) =~= f.clauses);
}

/// Adding literals as clauses of their own constrains the formula by their
/// conjunction.
pub proof fn lemma_with_units(f: Formula, lits: Seq<Literal>, a: Assignment)
    ensures
        f.with_units(lits).holds(a) == (f.holds(a) && all_true(lits, a)),
        f.wf() && all_within(lits, f.num_vars) ==> f.with_units(lits).wf(),
        f.grows_to(f.with_units(lits)),
        f.with_units(lits).num_vars == f.num_vars,
    decreases lits.len(),
{
    if lits.len() == 0 {
        assert(f.clauses.take(f.clauses.len() as int) =~= f.clauses);
    } else {
        let init = lits.drop_last();
        let g = f.with_units(init);
        let unit = seq![lits.last()];
        lemma_with_units(f, init, a);
        lemma_with_clause(g, unit, a);
        lemma_grows_trans(f, g, g.with_clause(unit));
        assert(clause_holds(unit, a) == lits.last().value(a)) by {
            if lits.last().value(a) {
                assert(unit[0].value(a));
            }
        }
        if all_true(lits, a) {
            assert forall|i: int| 0 <= i < init.len() implies (#[trigger] init[i]).value(a) by {}
        }
        if all_true(init, a) && lits.last().value(a) {
            assert forall|i: int| 0 <= i < lits.len() implies (#[trigger] lits[i]).value(a) by {
                if i < init.len() {
                    assert(init[i].value(a));
                }
            }
        }
        if f.wf() && all_within(lits, f.num_vars) {
            assert forall|i: int| 0 <= i < init.len() implies (#[trigger] init[i]).within(
                f.num_vars,
            ) by {}
        }
    }
}

/// Negating every literal turns "some holds" into "not all hold" and "all
/// hold" into "none holds", and keeps the variables.
pub proof fn lemma_negations(lits: Seq<Literal>, n: nat, a: Assignment)
    ensures
        all_within(negations(lits), n) == all_within(lits, n),
        clause_holds(negations(lits), a) == !all_true(lits, a),
        all_true(negations(lits), a) == !clause_holds(lits, a),
        negations(lits).contains(Literal::False) == lits.contains(Literal::True),
        negations(lits).contains(Literal::True) == lits.contains(Literal::False),
        contradiction(negations(lits)) == !exists|i: int|
            0 <= i < lits.len() && #[trigger] lits[i] != Literal::True,
{
    let neg = negations(lits);
    assert forall|i: int| 0 <= i < lits.len() implies (#[trigger] neg[i]).value(a)
        == !lits[i].value(a) && neg[i].within(n) == lits[i].within(n) && (neg[i]
        == Literal::False <==> lits[i] == Literal::True) && (neg[i] == Literal::True <==> lits[i]
        == Literal::False) by {}
    if all_within(neg, n) {
        assert forall|i: int| 0 <= i < lits.len() implies (#[trigger] lits[i]).within(n) by {
            assert(neg[i].within(n));
        }
    }
    if !all_true(lits, a) {
        let i = choose|i: int| 0 <= i < lits.len() && !(#[trigger] lits[i]).value(a);
        assert(neg[i].value(a));
    }
    if clause_holds(lits, a) {
        let i = choose|i: int| 0 <= i < lits.len() && (#[trigger] lits[i]).value(a);
        assert(!neg[i].value(a));
    }
    if lits.contains(Literal::True) {
        let i = choose|i: int| 0 <= i < lits.len() && lits[i] == Literal::True;
        assert(neg[i] == Literal::False);
    }
    if lits.contains(Literal::False) {
        let i = choose|i: int| 0 <= i < lits.len() && lits[i] == Literal::False;
        assert(neg[i] == Literal::True);
    }
    if contradiction(neg) {
        assert forall|i: int| 0 <= i < lits.len() implies #[trigger] lits[i] == Literal::True by {
            assert(neg[i] == Literal::False);
        }
    }
}

/// Growth is transitive.
pub proof fn lemma_grows_trans(f: Formula, g: Formula, h: Formula)
    requires
        f.grows_to(g),
        g.grows_to(h),
    ensures
        f.grows_to(h),
{
    assert(h.clauses.take(f.clauses.len() as int) =~= g.clauses.take(f.clauses.len() as int)) by {
        assert forall|j: int| 0 <= j < f.clauses.len() implies h.clauses[j] == g.clauses[j] by {}
    }
}

/// A formula that has grown says at least what it said before: an assignment
/// that satisfies it satisfied the formula it grew from.
pub proof fn lemma_grows_holds(f: Formula, g: Formula, a: Assignment)
    requires
        f.grows_to(g),
    ensures
        g.holds(a) ==> f.holds(a),
{
    if g.holds(a) {
        assert forall|j: int| 0 <= j < f.clauses.len() implies clause_holds(
            #[trigger] f.clauses[j],
            a,
        ) by {}
    }
}

/// Handing out a variable changes nothing of what the formula says.
pub proof fn lemma_with_var(f: Formula, a: Assignment)
    ensures
        f.with_var().holds(a) == f.holds(a),
        f.wf() && f.num_vars < MAX_VARIABLES ==> f.with_var().wf() && f.fresh().within(
            f.with_var().num_vars,
        ) && !f.fresh().is_constant() && f.fresh().wf(),
        f.grows_to(f.with_var()),
{
    assert(f.clauses.take(f.clauses.len() as int) =~= f.clauses);
    assert(f.with_var().clauses == f.clauses);
    if f.with_var().holds(a) {
        assert forall|j: int| 0 <= j < f.clauses.len() implies clause_holds(
            #[trigger] f.clauses[j],
            a,
        ) by {}
    }
    if f.wf() && f.num_vars < MAX_VARIABLES {
        assert forall|j: int| 0 <= j < f.clauses.len() implies clause_proper(
            #[trigger] f.with_var().clauses[j],
            f.num_vars + 1,
        ) by {}
    }
}

/// A literal that speaks only of the first `n` variables has the same value
/// under assignments that agree on them.
pub proof fn lemma_literal_frame(lit: Literal, a: Assignment, b: Assignment, n: nat)
    requires
        lit.within(n),
        agree(a, b, n),
    ensures
        lit.value(a) == lit.value(b),
{
}

/// What a well-formed formula says of an assignment depends only on the values
/// of its own variables.
pub proof fn lemma_formula_frame(f: Formula, a: Assignment, b: Assignment)
    requires
        f.wf(),
        agree(a, b, f.num_vars),
    ensures
        f.holds(a) == f.holds(b),
{
    assert forall|j: int| 0 <= j < f.clauses.len() implies clause_holds(
        #[trigger] f.clauses[j],
        a,
    ) == clause_holds(f.clauses[j], b) by {}
}

/// The count of true literals lies between 0 and the number of literals; it
/// reaches the number exactly when all are true and is 0 exactly when none is.
pub proof fn lemma_count_true_bounds(lits: Seq<Literal>, a: Assignment)
    ensures
        count_true(lits, a) <= lits.len(),
        count_true(lits, a) == lits.len() <==> all_true(lits, a),
        count_true(lits, a) == 0 <==> !clause_holds(lits, a),
    decreases lits.len(),
{
    if lits.len() > 0 {
        let init = lits.drop_last();
        lemma_count_true_bounds(init, a);
        if all_true(lits, a) {
            assert forall|i: int| 0 <= i < init.len() implies (#[trigger] init[i]).value(a) by {}
        }
        if all_true(init, a) && lits.last().value(a) {
            assert forall|i: int| 0 <= i < lits.len() implies (#[trigger] lits[i]).value(a) by {
                if i < init.len() {
                    assert(init[i].value(a));
                }
            }
        }
        if clause_holds(lits, a) {
            let i = choose|i: int| 0 <= i < lits.len() && (#[trigger] lits[i]).value(a);
            if i < init.len() {
                assert(init[i].value(a));
            }
        }
    }
}

/// The count of true literals depends only on the variables the literals
/// speak of.
pub proof fn lemma_count_true_frame(lits: Seq<Literal>, a: Assignment, b: Assignment, n: nat)
    requires
        all_within(lits, n),
        agree(a, b, n),
    ensures
        count_true(lits, a) == count_true(lits, b),
        all_true(lits, a) == all_true(lits, b),
        clause_holds(lits, a) == clause_holds(lits, b),
    decreases lits.len(),
{
    if lits.len() > 0 {
        let init = lits.drop_last();
        assert forall|i: int| 0 <= i < init.len() implies (#[trigger] init[i]).within(n) by {}
        lemma_count_true_frame(init, a, b, n);
    }
}

/// A clause that is no contradiction can be satisfied: some assignment makes
/// one of its literals true.
pub proof fn lemma_clause_satisfiable(clause: Seq<Literal>) -> (a: Assignment)
    requires
        !contradiction(clause),
    ensures
        clause_holds(clause, a),
{
    let i = choose|i: int| 0 <= i < clause.len() && #[trigger] clause[i] != Literal::False;
    match clause[i] {
        Literal::Var { id, negated } => {
            let a = if negated {
                Set::<nat>::empty()
            } else {
                Set::<nat>::empty().insert(id as nat)
            };
            a
        },
        _ => {
            let a = Set::<nat>::empty();
            a
        },
    }
}

/// A formula whose only clause is no contradiction can be satisfied: some
/// assignment makes one of the clause's literals true, and with it the
/// formula holds.
pub proof fn lemma_lone_clause_satisfiable(num_vars: nat, clause: Seq<Literal>) -> (a: Assignment)
    requires
        !contradiction(clause),
    ensures
        clause_holds(clause, a),
        (Formula { num_vars, clauses: Seq::empty() }).with_clause(clause).holds(a),
{
    let a = lemma_clause_satisfiable(clause);
    lemma_with_clause(Formula { num_vars, clauses: Seq::empty() }, clause, a);
    a
}

/// No assignment satisfies a contradiction.
pub proof fn lemma_contradiction_unsatisfiable(clause: Seq<Literal>, a: Assignment)
    requires
        contradiction(clause),
    ensures
        !clause_holds(clause, a),
{
}

} // verus!
