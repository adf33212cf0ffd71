//! Gates: a literal that stands for the conjunction, disjunction, exclusive or
//! or equivalence of other literals, with the clauses that tie it to them.
//! Constants are folded away first, so that a gate over constants costs no
//! variable.
use vstd::prelude::*;
use crate::formula::{
    all_true, all_within, clause_holds, lemma_grows_trans, lemma_negations, lemma_with_clause,
    lemma_without_false, lemma_without_members, lemma_without_true, lemma_without_within,
    negations, without, Formula,
};
use crate::literal::{Assignment, Literal, MAX_VARIABLES};
use crate::sat::{fold_constants, negate_all, SatProblem};

verus! {

broadcast use vstd::array::group_array_axioms;

/// What a conjunction folds to without a new variable, if it does: `False`
/// when some input is `False`; else, with every `True` struck out, `True` when
/// nothing is left and the input itself when one is left.
pub open spec fn and_fold(vars: Seq<Literal>) -> Option<Literal> {
    let inputs = without(vars, Literal::True);
    if vars.contains(Literal::False) {
        Some(Literal::False)
    } else if inputs.len() == 0 {
        Some(Literal::True)
    } else if inputs.len() == 1 {
        Some(inputs[0])
    } else {
        None
    }
}

/// What a disjunction folds to without a new variable, if it does: the dual of
/// [`and_fold`].
pub open spec fn or_fold(vars: Seq<Literal>) -> Option<Literal> {
    let inputs = without(vars, Literal::False);
    if vars.contains(Literal::True) {
        Some(Literal::True)
    } else if inputs.len() == 0 {
        Some(Literal::False)
    } else if inputs.len() == 1 {
        Some(inputs[0])
    } else {
        None
    }
}

/// What an exclusive or folds to without a new variable, if it does: with a
/// constant on one side it is the other side or its negation.
pub open spec fn xor_fold(a: Literal, b: Literal) -> Option<Literal> {
    match (a, b) {
        (Literal::True, _) => Some(b.negation()),
        (Literal::False, _) => Some(b),
        (_, Literal::True) => Some(a.negation()),
        (_, Literal::False) => Some(a),
        _ => None,
    }
}

impl Formula {
    /// This formula with a clause "`r` implies `v`" for each `v` of `inputs`.
    pub open spec fn with_implications_from(self, r: Literal, inputs: Seq<Literal>) -> Formula
        decreases inputs.len(),
    {
        if inputs.len() == 0 {
            self
        } else {
            self.with_implications_from(r, inputs.drop_last()).with_clause(
                seq![r.negation(), inputs.last()],
            )
        }
    }

    /// This formula with a clause "`v` implies `r`" for each `v` of `inputs`.
    pub open spec fn with_implications_to(self, inputs: Seq<Literal>, r: Literal) -> Formula
        decreases inputs.len(),
    {
        if inputs.len() == 0 {
            self
        } else {
            self.with_implications_to(inputs.drop_last(), r).with_clause(
                seq![inputs.last().negation(), r],
            )
        }
    }

    /// This formula with a fresh variable `r` that stands for the conjunction
    /// of `inputs`: `r` implies each input, and the inputs together imply `r`.
    pub open spec fn and_gate(self, inputs: Seq<Literal>) -> Formula {
        let r = self.fresh();
        self.with_var().with_implications_from(r, inputs).with_clause(negations(inputs).push(r))
    }

    /// This formula with a fresh variable `r` that stands for the disjunction
    /// of `inputs`: each input implies `r`, and `r` implies that one holds.
    pub open spec fn or_gate(self, inputs: Seq<Literal>) -> Formula {
        let r = self.fresh();
        self.with_var().with_implications_to(inputs, r).with_clause(seq![r.negation()] + inputs)
    }

    /// This formula with a fresh variable `r` that holds exactly when one of
    /// `a` and `b` does, in four clauses.
    pub open spec fn xor_gate(self, a: Literal, b: Literal) -> Formula {
        let r = self.fresh();
        self.with_var().with_clause(seq![a.negation(), b.negation(), r.negation()]).with_clause(
            seq![a, b, r.negation()],
        ).with_clause(seq![a, b.negation(), r]).with_clause(seq![a.negation(), b, r])
    }

    /// The result literal and the formula after a conjunction gate over `vars`.
    pub open spec fn and_var(self, vars: Seq<Literal>) -> (Literal, Formula) {
        match and_fold(vars) {
            Some(folded) => (folded, self),
            None => (self.fresh(), self.and_gate(without(vars, Literal::True))),
        }
    }

    /// The result literal and the formula after a disjunction gate over `vars`.
    pub open spec fn or_var(self, vars: Seq<Literal>) -> (Literal, Formula) {
        match or_fold(vars) {
            Some(folded) => (folded, self),
            None => (self.fresh(), self.or_gate(without(vars, Literal::False))),
        }
    }

    /// The result literal and the formula after an exclusive-or gate.
    pub open spec fn xor_var(self, a: Literal, b: Literal) -> (Literal, Formula) {
        match xor_fold(a, b) {
            Some(folded) => (folded, self),
            None => (self.fresh(), self.xor_gate(a, b)),
        }
    }

    /// The result literal and the formula after an equivalence gate: the
    /// exclusive or of `a` and the negation of `b`.
    pub open spec fn eq_var(self, a: Literal, b: Literal) -> (Literal, Formula) {
        self.xor_var(a, b.negation())
    }
}

/// The clauses "`r` implies `v`" say that `r` implies every input.
pub proof fn lemma_implications_from(f: Formula, r: Literal, inputs: Seq<Literal>, a: Assignment)
    ensures
        f.with_implications_from(r, inputs).holds(a) == (f.holds(a) && (r.value(a) ==> all_true(
            inputs,
            a,
        ))),
        f.wf() && r.within(f.num_vars) && all_within(inputs, f.num_vars)
            ==> f.with_implications_from(r, inputs).wf(),
        f.grows_to(f.with_implications_from(r, inputs)),
        f.with_implications_from(r, inputs).num_vars == f.num_vars,
    decreases inputs.len(),
{
    if inputs.len() == 0 {
        assert(f.clauses.take(f.clauses.len() as int) =~= f.clauses);
    } else {
        let init = inputs.drop_last();
        let g = f.with_implications_from(r, init);
        let clause = seq![r.negation(), inputs.last()];
        lemma_implications_from(f, r, init, a);
        lemma_with_clause(g, clause, a);
        lemma_grows_trans(f, g, g.with_clause(clause));
        assert(clause_holds(clause, a) == (r.value(a) ==> inputs.last().value(a))) by {}
        if all_true(inputs, a) {
            assert forall|i: int| 0 <= i < init.len() implies (#[trigger] init[i]).value(a) by {}
        }
        if all_true(init, a) && inputs.last().value(a) {
            assert forall|i: int| 0 <= i < inputs.len() implies (#[trigger] inputs[i]).value(
                a,
            ) by {
                if i < init.len() {
                    assert(init[i].value(a));
                }
            }
        }
        if f.wf() && r.within(f.num_vars) && all_within(inputs, f.num_vars) {
            assert forall|i: int| 0 <= i < init.len() implies (#[trigger] init[i]).within(
                f.num_vars,
            ) by {}
        }
    }
}

/// The clauses "`v` implies `r`" say that `r` holds when some input does.
pub proof fn lemma_implications_to(f: Formula, inputs: Seq<Literal>, r: Literal, a: Assignment)
    ensures
        f.with_implications_to(inputs, r).holds(a) == (f.holds(a) && (clause_holds(inputs, a)
            ==> r.value(a))),
        f.wf() && r.within(f.num_vars) && all_within(inputs, f.num_vars)
            ==> f.with_implications_to(inputs, r).wf(),
        f.grows_to(f.with_implications_to(inputs, r)),
        f.with_implications_to(inputs, r).num_vars == f.num_vars,
    decreases inputs.len(),
{
    if inputs.len() == 0 {
        assert(f.clauses.take(f.clauses.len() as int) =~= f.clauses);
    } else {
        let init = inputs.drop_last();
        let g = f.with_implications_to(init, r);
        let clause = seq![inputs.last().negation(), r];
        lemma_implications_to(f, init, r, a);
        lemma_with_clause(g, clause, a);
        lemma_grows_trans(f, g, g.with_clause(clause));
        assert(clause_holds(clause, a) == (inputs.last().value(a) ==> r.value(a))) by {}
        if clause_holds(inputs, a) {
            let i = choose|i: int| 0 <= i < inputs.len() && (#[trigger] inputs[i]).value(a);
            if i < init.len() {
                assert(init[i].value(a));
            }
        }
        if clause_holds(init, a) {
            let i = choose|i: int| 0 <= i < init.len() && (#[trigger] init[i]).value(a);
        }
        if f.wf() && r.within(f.num_vars) && all_within(inputs, f.num_vars) {
            assert forall|i: int| 0 <= i < init.len() implies (#[trigger] init[i]).within(
                f.num_vars,
            ) by {}
        }
    }
}

/// A gate hands out one variable, whatever its inputs are.
pub proof fn lemma_gate_sizes(f: Formula, inputs: Seq<Literal>)
    ensures
        f.and_gate(inputs).num_vars == f.num_vars + 1,
        f.or_gate(inputs).num_vars == f.num_vars + 1,
{
    lemma_implications_from(f.with_var(), f.fresh(), inputs, Set::empty());
    lemma_implications_to(f.with_var(), inputs, f.fresh(), Set::empty());
}

/// A conjunction gate ties its fresh variable to the conjunction of its inputs
/// and says nothing else.
pub proof fn lemma_and_gate(f: Formula, inputs: Seq<Literal>, a: Assignment)
    requires
        f.wf(),
        f.num_vars < MAX_VARIABLES,
        all_within(inputs, f.num_vars),
    ensures
        f.and_gate(inputs).holds(a) == (f.holds(a) && (f.fresh().value(a) == all_true(inputs, a))),
        f.and_gate(inputs).wf(),
        f.grows_to(f.and_gate(inputs)),
        f.and_gate(inputs).num_vars == f.num_vars + 1,
{
    let r = f.fresh();
    let f1 = f.with_var();
    let f2 = f1.with_implications_from(r, inputs);
    let last = negations(inputs).push(r);
    lemma_implications_from(f1, r, inputs, a);
    lemma_with_clause(f2, last, a);
    lemma_negations(inputs, f1.num_vars, a);
    assert(all_within(last, f2.num_vars)) by {
        assert forall|i: int| 0 <= i < last.len() implies (#[trigger] last[i]).within(
            f2.num_vars,
        ) by {}
    }
    assert(clause_holds(last, a) == (all_true(inputs, a) ==> r.value(a))) by {
        if clause_holds(last, a) {
            let i = choose|i: int| 0 <= i < last.len() && (#[trigger] last[i]).value(a);
        }
        if r.value(a) {
            assert(last[last.len() - 1].value(a));
        }
        if !all_true(inputs, a) {
            let i = choose|i: int| 0 <= i < negations(inputs).len() && (#[trigger] negations(
                inputs,
            )[i]).value(a);
            assert(last[i].value(a));
        }
    }
    lemma_grows_trans(f, f2, f2.with_clause(last));
}

/// A disjunction gate ties its fresh variable to the disjunction of its inputs
/// and says nothing else.
pub proof fn lemma_or_gate(f: Formula, inputs: Seq<Literal>, a: Assignment)
    requires
        f.wf(),
        f.num_vars < MAX_VARIABLES,
        all_within(inputs, f.num_vars),
    ensures
        f.or_gate(inputs).holds(a) == (f.holds(a) && (f.fresh().value(a) == clause_holds(
            inputs,
            a,
        ))),
        f.or_gate(inputs).wf(),
        f.grows_to(f.or_gate(inputs)),
        f.or_gate(inputs).num_vars == f.num_vars + 1,
{
    let r = f.fresh();
    let f1 = f.with_var();
    let f2 = f1.with_implications_to(inputs, r);
    let last = seq![r.negation()] + inputs;
    lemma_implications_to(f1, inputs, r, a);
    lemma_with_clause(f2, last, a);
    assert(all_within(last, f2.num_vars)) by {
        assert forall|i: int| 0 <= i < last.len() implies (#[trigger] last[i]).within(
            f2.num_vars,
        ) by {}
    }
    assert(clause_holds(last, a) == (r.value(a) ==> clause_holds(inputs, a))) by {
        if clause_holds(last, a) {
            let i = choose|i: int| 0 <= i < last.len() && (#[trigger] last[i]).value(a);
        }
        if !r.value(a) {
            assert(last[0].value(a));
        }
        if clause_holds(inputs, a) {
            let i = choose|i: int| 0 <= i < inputs.len() && (#[trigger] inputs[i]).value(a);
            assert(last[i + 1].value(a));
        }
    }
    lemma_grows_trans(f, f2, f2.with_clause(last));
}

/// An exclusive-or gate ties its fresh variable to "exactly one of the two
/// holds" and says nothing else.
pub proof fn lemma_xor_gate(f: Formula, x: Literal, y: Literal, a: Assignment)
    requires
        f.wf(),
        f.num_vars < MAX_VARIABLES,
        x.within(f.num_vars),
        y.within(f.num_vars),
    ensures
        f.xor_gate(x, y).holds(a) == (f.holds(a) && (f.fresh().value(a) == (x.value(a) != y.value(
            a,
        )))),
        f.xor_gate(x, y).wf(),
        f.grows_to(f.xor_gate(x, y)),
        f.xor_gate(x, y).num_vars == f.num_vars + 1,
{
    let r = f.fresh();
    let f1 = f.with_var();
    let c1 = seq![x.negation(), y.negation(), r.negation()];
    let c2 = seq![x, y, r.negation()];
    let c3 = seq![x, y.negation(), r];
    let c4 = seq![x.negation(), y, r];
    let f2 = f1.with_clause(c1);
    let f3 = f2.with_clause(c2);
    let f4 = f3.with_clause(c3);
    let f5 = f4.with_clause(c4);
    lemma_with_clause(f1, c1, a);
    lemma_with_clause(f2, c2, a);
    lemma_with_clause(f3, c3, a);
    lemma_with_clause(f4, c4, a);
    assert(clause_holds(c1, a) == (!x.value(a) || !y.value(a) || !r.value(a))) by {}
    assert(clause_holds(c2, a) == (x.value(a) || y.value(a) || !r.value(a))) by {}
    assert(clause_holds(c3, a) == (x.value(a) || !y.value(a) || r.value(a))) by {}
    assert(clause_holds(c4, a) == (!x.value(a) || y.value(a) || r.value(a))) by {}
    lemma_grows_trans(f, f2, f3);
    lemma_grows_trans(f, f3, f4);
    lemma_grows_trans(f, f4, f5);
}

/// A conjunction gate matches its truth table: in every assignment that
/// satisfies the new formula the result is true exactly when all inputs are,
/// and the new formula asks nothing else. A gate that folds leaves the formula
/// as it is.
pub proof fn lemma_and_var(f: Formula, vars: Seq<Literal>, a: Assignment)
    requires
        f.wf(),
        all_within(vars, f.num_vars),
        and_fold(vars) is None ==> f.num_vars < MAX_VARIABLES,
    ensures
        f.and_var(vars).1.holds(a) == (f.holds(a) && (f.and_var(vars).0.value(a) == all_true(
            vars,
            a,
        ))),
        and_fold(vars) is Some ==> f.and_var(vars).0.value(a) == all_true(vars, a),
        f.and_var(vars).1.wf(),
        f.and_var(vars).0.within(f.and_var(vars).1.num_vars),
        f.grows_to(f.and_var(vars).1),
        f.and_var(vars).1 == f || (f.and_var(vars).1.num_vars == f.num_vars + 1 && f.and_var(
            vars,
        ).0 == f.fresh()),
{
    let inputs = without(vars, Literal::True);
    lemma_without_true(vars, a);
    lemma_without_within(vars, Literal::True, f.num_vars);
    assert(f.clauses.take(f.clauses.len() as int) =~= f.clauses);
    if vars.contains(Literal::False) {
        let i = choose|i: int| 0 <= i < vars.len() && vars[i] == Literal::False;
    } else if inputs.len() == 0 {
    } else if inputs.len() == 1 {
        if inputs[0].value(a) {
            assert forall|i: int| 0 <= i < inputs.len() implies (#[trigger] inputs[i]).value(
                a,
            ) by {}
        }
    } else {
        lemma_and_gate(f, inputs, a);
    }
}

/// A disjunction gate matches its truth table: the dual of
/// [`lemma_and_var`].
pub proof fn lemma_or_var(f: Formula, vars: Seq<Literal>, a: Assignment)
    requires
        f.wf(),
        all_within(vars, f.num_vars),
        or_fold(vars) is None ==> f.num_vars < MAX_VARIABLES,
    ensures
        f.or_var(vars).1.holds(a) == (f.holds(a) && (f.or_var(vars).0.value(a) == clause_holds(
            vars,
            a,
        ))),
        or_fold(vars) is Some ==> f.or_var(vars).0.value(a) == clause_holds(vars, a),
        f.or_var(vars).1.wf(),
        f.or_var(vars).0.within(f.or_var(vars).1.num_vars),
        f.grows_to(f.or_var(vars).1),
        f.or_var(vars).1 == f || (f.or_var(vars).1.num_vars == f.num_vars + 1 && f.or_var(
            vars,
        ).0 == f.fresh()),
{
    let inputs = without(vars, Literal::False);
    lemma_without_false(vars, a);
    assert(f.clauses.take(f.clauses.len() as int) =~= f.clauses);
    if vars.contains(Literal::True) {
    } else if inputs.len() == 0 {
    } else if inputs.len() == 1 {
    } else {
        lemma_or_gate(f, inputs, a);
    }
}

/// An exclusive-or gate matches its truth table, constants included.
pub proof fn lemma_xor_var(f: Formula, x: Literal, y: Literal, a: Assignment)
    requires
        f.wf(),
        x.within(f.num_vars),
        y.within(f.num_vars),
        xor_fold(x, y) is None ==> f.num_vars < MAX_VARIABLES,
    ensures
        f.xor_var(x, y).1.holds(a) == (f.holds(a) && (f.xor_var(x, y).0.value(a) == (x.value(a)
            != y.value(a)))),
        xor_fold(x, y) is Some ==> f.xor_var(x, y).0.value(a) == (x.value(a) != y.value(a)),
        f.xor_var(x, y).1.wf(),
        f.xor_var(x, y).0.within(f.xor_var(x, y).1.num_vars),
        f.grows_to(f.xor_var(x, y).1),
        f.xor_var(x, y).1 == f || (f.xor_var(x, y).1.num_vars == f.num_vars + 1 && f.xor_var(
            x,
            y,
        ).0 == f.fresh()),
{
    assert(f.clauses.take(f.clauses.len() as int) =~= f.clauses);
    if xor_fold(x, y) is None {
        lemma_xor_gate(f, x, y, a);
    }
}

/// An equivalence gate matches its truth table, constants included.
pub proof fn lemma_eq_var(f: Formula, x: Literal, y: Literal, a: Assignment)
    requires
        f.wf(),
        x.within(f.num_vars),
        y.within(f.num_vars),
        xor_fold(x, y.negation()) is None ==> f.num_vars < MAX_VARIABLES,
    ensures
        f.eq_var(x, y).1.holds(a) == (f.holds(a) && (f.eq_var(x, y).0.value(a) == (x.value(a)
            == y.value(a)))),
        xor_fold(x, y.negation()) is Some ==> f.eq_var(x, y).0.value(a) == (x.value(a) == y.value(
            a,
        )),
        f.eq_var(x, y).1.wf(),
        f.eq_var(x, y).0.within(f.eq_var(x, y).1.num_vars),
        f.grows_to(f.eq_var(x, y).1),
{
    lemma_xor_var(f, x, y.negation(), a);
}

/// A gate whose inputs are all constants folds to a constant: it costs no
/// variable and no clause.
pub proof fn lemma_constant_gates(f: Formula, vars: Seq<Literal>, x: Literal, y: Literal)
    ensures
        (forall|i: int| 0 <= i < vars.len() ==> (#[trigger] vars[i]).is_constant()) ==> {
            &&& f.and_var(vars).1 == f
            &&& f.and_var(vars).0.is_constant()
            &&& f.or_var(vars).1 == f
            &&& f.or_var(vars).0.is_constant()
        },
        x.is_constant() && y.is_constant() ==> {
            &&& f.xor_var(x, y).1 == f
            &&& f.xor_var(x, y).0.is_constant()
            &&& f.eq_var(x, y).1 == f
            &&& f.eq_var(x, y).0.is_constant()
        },
{
    if forall|i: int| 0 <= i < vars.len() ==> (#[trigger] vars[i]).is_constant() {
        lemma_without_members(vars, Literal::True);
        lemma_without_members(vars, Literal::False);
        let kept_and = without(vars, Literal::True);
        let kept_or = without(vars, Literal::False);
        if !vars.contains(Literal::False) && kept_and.len() > 0 {
            assert(kept_and.contains(kept_and[0]));
        }
        if !vars.contains(Literal::True) && kept_or.len() > 0 {
            assert(kept_or.contains(kept_or[0]));
        }
    }
}

impl SatProblem {
    /// A literal that is true exactly when every literal of `vars` is. Folds
    /// constants first; where nothing folds, hands out a variable and adds
    /// the clauses that tie it to the inputs.
    pub fn and_var(&mut self, vars: &[Literal]) -> (result: Literal)
        requires
            old(self).wf(),
            all_within(vars@, old(self)@.num_vars),
            and_fold(vars@) is None ==> old(self)@.num_vars < MAX_VARIABLES,
        ensures
            final(self).wf(),
            (result, final(self)@) == old(self)@.and_var(vars@),
            result.within(final(self)@.num_vars),
            old(self)@.grows_to(final(self)@),
            forall|a: Assignment| #[trigger]
                final(self)@.holds(a) == (old(self)@.holds(a) && (result.value(a) == all_true(
                    vars@,
                    a,
                ))),
    {
        let ghost before = self@;
        proof {
            self.lemma_view_wf();
            lemma_and_var(before, vars@, Set::empty());
            assert forall|a: Assignment| #[trigger]
                before.and_var(vars@).1.holds(a) == (before.holds(a) && (before.and_var(
                    vars@,
                ).0.value(a) == all_true(vars@, a))) by {
                lemma_and_var(before, vars@, a);
            }
            lemma_without_within(vars@, Literal::True, before.num_vars);
        }
        let inputs = match fold_constants(vars, Literal::True, Literal::False) {
            None => {
                return Literal::False;
            },
            Some(kept) => kept,
        };
        if inputs.len() == 0 {
            return Literal::True;
        }
        if inputs.len() == 1 {
            return inputs[0];
        }
        let result = self.var();
        let ghost with_var = self@;
        let mut i: usize = 0;
        while i < inputs.len()
            invariant
                i <= inputs.len(),
                self.wf(),
                self@ == with_var.with_implications_from(result, inputs@.take(i as int)),
                self@.num_vars == with_var.num_vars,
                with_var.wf(),
                result.within(with_var.num_vars),
                !result.is_constant(),
                all_within(inputs@, with_var.num_vars),
            decreases inputs.len() - i,
        {
            proof {
                assert(inputs@.take(i + 1).drop_last() =~= inputs@.take(i as int));
            }
            self.implies_clause(result, inputs[i]);
            i = i + 1;
        }
        let mut clause = negate_all(inputs.as_slice());
        clause.push(result);
        proof {
            assert(inputs@.take(inputs@.len() as int) =~= inputs@);
            assert(clause@[clause@.len() - 1] == result);
            assert forall|k: int| 0 <= k < clause@.len() implies (#[trigger] clause@[k]).within(
                self@.num_vars,
            ) by {}
        }
        self.or_clause(clause.as_slice());
        result
    }

    /// A literal that is true exactly when some literal of `vars` is. Folds
    /// constants first; where nothing folds, hands out a variable and adds
    /// the clauses that tie it to the inputs.
    pub fn or_var(&mut self, vars: &[Literal]) -> (result: Literal)
        requires
            old(self).wf(),
            all_within(vars@, old(self)@.num_vars),
            or_fold(vars@) is None ==> old(self)@.num_vars < MAX_VARIABLES,
        ensures
            final(self).wf(),
            (result, final(self)@) == old(self)@.or_var(vars@),
            result.within(final(self)@.num_vars),
            old(self)@.grows_to(final(self)@),
            forall|a: Assignment| #[trigger]
                final(self)@.holds(a) == (old(self)@.holds(a) && (result.value(a) == clause_holds(
                    vars@,
                    a,
                ))),
    {
        let ghost before = self@;
        proof {
            self.lemma_view_wf();
            lemma_or_var(before, vars@, Set::empty());
            assert forall|a: Assignment| #[trigger]
                before.or_var(vars@).1.holds(a) == (before.holds(a) && (before.or_var(
                    vars@,
                ).0.value(a) == clause_holds(vars@, a))) by {
                lemma_or_var(before, vars@, a);
            }
            lemma_without_within(vars@, Literal::False, before.num_vars);
        }
        let inputs = match fold_constants(vars, Literal::False, Literal::True) {
            None => {
                return Literal::True;
            },
            Some(kept) => kept,
        };
        if inputs.len() == 0 {
            return Literal::False;
        }
        if inputs.len() == 1 {
            return inputs[0];
        }
        let result = self.var();
        let ghost with_var = self@;
        let mut i: usize = 0;
        while i < inputs.len()
            invariant
                i <= inputs.len(),
                self.wf(),
                self@ == with_var.with_implications_to(inputs@.take(i as int), result),
                self@.num_vars == with_var.num_vars,
                with_var.wf(),
                result.within(with_var.num_vars),
                !result.is_constant(),
                all_within(inputs@, with_var.num_vars),
            decreases inputs.len() - i,
        {
            proof {
                assert(inputs@.take(i + 1).drop_last() =~= inputs@.take(i as int));
            }
            self.implies_clause(inputs[i], result);
            i = i + 1;
        }
        let mut clause: Vec<Literal> = Vec::new();
        clause.push(result.negate());
        let mut k: usize = 0;
        while k < inputs.len()
            invariant
                k <= inputs.len(),
                clause@ == seq![result.negation()] + inputs@.take(k as int),
            decreases inputs.len() - k,
        {
            clause.push(inputs[k]);
            k = k + 1;
        }
        proof {
            assert(inputs@.take(inputs@.len() as int) =~= inputs@);
            assert(clause@[0] == result.negation());
            assert forall|j: int| 0 <= j < clause@.len() implies (#[trigger] clause@[j]).within(
                self@.num_vars,
            ) by {}
        }
        self.or_clause(clause.as_slice());
        result
    }

    /// A literal that is true exactly when one of `a` and `b` is. With a
    /// constant on either side no variable is handed out.
    pub fn xor_var(&mut self, a: Literal, b: Literal) -> (result: Literal)
        requires
            old(self).wf(),
            a.within(old(self)@.num_vars),
            b.within(old(self)@.num_vars),
            xor_fold(a, b) is None ==> old(self)@.num_vars < MAX_VARIABLES,
        ensures
            final(self).wf(),
            (result, final(self)@) == old(self)@.xor_var(a, b),
            result.within(final(self)@.num_vars),
            old(self)@.grows_to(final(self)@),
            forall|m: Assignment| #[trigger]
                final(self)@.holds(m) == (old(self)@.holds(m) && (result.value(m) == (a.value(m)
                    != b.value(m)))),
    {
        let ghost before = self@;
        proof {
            self.lemma_view_wf();
            lemma_xor_var(before, a, b, Set::empty());
            assert forall|m: Assignment| #[trigger]
                before.xor_var(a, b).1.holds(m) == (before.holds(m) && (before.xor_var(
                    a,
                    b,
                ).0.value(m) == (a.value(m) != b.value(m)))) by {
                lemma_xor_var(before, a, b, m);
            }
        }
        match a {
            Literal::True => {
                return b.negate();
            },
            Literal::False => {
                return b;
            },
            _ => {},
        }
        match b {
            Literal::True => {
                return a.negate();
            },
            Literal::False => {
                return a;
            },
            _ => {},
        }
        let result = self.var();
        let c1 = [a.negate(), b.negate(), result.negate()];
        let c2 = [a, b, result.negate()];
        let c3 = [a, b.negate(), result];
        let c4 = [a.negate(), b, result];
        self.or_clause(c1.as_slice());
        self.or_clause(c2.as_slice());
        self.or_clause(c3.as_slice());
        self.or_clause(c4.as_slice());
        result
    }

    /// A literal that is true exactly when `a` and `b` have the same value:
    /// the exclusive or of `a` and the negation of `b`.
    pub fn eq_var(&mut self, a: Literal, b: Literal) -> (result: Literal)
        requires
            old(self).wf(),
            a.within(old(self)@.num_vars),
            b.within(old(self)@.num_vars),
            xor_fold(a, b.negation()) is None ==> old(self)@.num_vars < MAX_VARIABLES,
        ensures
            final(self).wf(),
            (result, final(self)@) == old(self)@.eq_var(a, b),
            result.within(final(self)@.num_vars),
            old(self)@.grows_to(final(self)@),
            forall|m: Assignment| #[trigger]
                final(self)@.holds(m) == (old(self)@.holds(m) && (result.value(m) == (a.value(m)
                    == b.value(m)))),
    {
        self.xor_var(a, b.negate())
    }
}

} // verus!
