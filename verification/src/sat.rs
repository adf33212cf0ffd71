//! The formula under construction and the models the solver finds for it.
use std::collections::HashSet;
use vstd::prelude::*;
use crate::formula::{
    all_true, all_within, clause_holds, clause_proper, contradiction, lemma_negations,
    lemma_with_clause, lemma_with_units, negations, without, Formula,
};
use crate::literal::{Assignment, Literal, MAX_VARIABLES};
use crate::oracle::{
    all_codes_hold, code_value, codes_hold, codes_within, model_true_vars, solver_add_clause,
    solver_clauses, solver_model, solver_model_vars, solver_new, solver_new_var, solver_plain,
    solver_solve, solver_spent, solver_var_count,
};

verus! {

broadcast use {vstd::std_specs::hash::group_hash_axioms, vstd::array::group_array_axioms};

/// The literals that a clause of DIMACS numbers stands for.
pub open spec fn decode_clause(codes: Seq<int>) -> Seq<Literal> {
    codes.map_values(|n: int| Literal::of_code(n))
}

/// The clauses that a list of DIMACS clauses stands for.
pub open spec fn decode(clauses: Seq<Seq<int>>) -> Seq<Seq<Literal>> {
    clauses.map_values(|c: Seq<int>| decode_clause(c))
}

/// Whether every number of the clause names one of the first `count`
/// variables, negated or not.
pub open spec fn ints_within(codes: Seq<int>, count: nat) -> bool {
    forall|i: int|
        0 <= i < codes.len() ==> (1 <= #[trigger] codes[i] <= count || -(count as int)
            <= codes[i] <= -1)
}

/// The variables that occur as positive literals in `lits`.
pub open spec fn positive_vars(lits: Seq<Literal>) -> Set<nat> {
    Set::new(
        |v: nat|
            exists|i: int|
                0 <= i < lits.len() && #[trigger] lits[i] == (Literal::Var {
                    id: v as u32,
                    negated: false,
                }) && v <= u32::MAX,
    )
}

/// The variables that a list of DIMACS numbers makes true: those whose own
/// number is listed. A negative number, a zero and a number past `u32::MAX`
/// add nothing.
pub open spec fn listed_vars(model: Seq<isize>) -> Set<nat> {
    Set::new(
        |v: nat|
            1 <= v <= u32::MAX && exists|i: int|
                0 <= i < model.len() && #[trigger] model[i] == v as int,
    )
}

/// A formula in conjunctive normal form that grows clause by clause, held by
/// the solver that will be asked about it. A model that the solver found is
/// kept until the next clause is added: until then it answers every query.
pub struct SatProblem {
    cnf: varisat::Solver<'static>,
    vars: u32,
    last: Option<Vec<isize>>,
}

impl View for SatProblem {
    type V = Formula;

    closed spec fn view(&self) -> Formula {
        Formula {
            num_vars: solver_var_count(self.cnf),
            clauses: decode(solver_clauses(self.cnf)),
        }
    }
}

/// A model: the variables that it makes true. Every other variable is false.
#[derive(Debug, PartialEq, Eq)]
pub struct SatSolution {
    true_vars: HashSet<u32>,
}

impl View for SatSolution {
    type V = Assignment;

    closed spec fn view(&self) -> Assignment {
        Set::new(|v: nat| v <= u32::MAX && self.true_vars@.contains(v as u32))
    }
}

proof fn lemma_decode_clause(codes: Seq<int>, count: nat, a: Assignment)
    requires
        ints_within(codes, count),
        count <= MAX_VARIABLES,
    ensures
        clause_proper(decode_clause(codes), count),
        clause_holds(decode_clause(codes), a) == codes_hold(codes, a),
{
    let lits = decode_clause(codes);
    assert forall|i: int| 0 <= i < codes.len() implies (#[trigger] lits[i]).value(a)
        == code_value(codes[i], a) && !lits[i].is_constant() && lits[i].within(count) by {}
    if codes_hold(codes, a) {
        let i = choose|i: int| 0 <= i < codes.len() && code_value(#[trigger] codes[i], a);
        assert(lits[i].value(a));
    }
}

/// The negation of each literal, in the same order.
pub fn negate_all(vars: &[Literal]) -> (not_vars: Vec<Literal>)
    ensures
        not_vars@ == negations(vars@),
{
    let mut not_vars: Vec<Literal> = Vec::new();
    let mut i: usize = 0;
    while i < vars.len()
        invariant
            i <= vars.len(),
            not_vars@ == negations(vars@.take(i as int)),
        decreases vars.len() - i,
    {
        not_vars.push(vars[i].negate());
        i = i + 1;
    }
    not_vars
}

/// Whether nothing is left of the clause once `False` is struck out.
pub fn is_contradiction(vars: &[Literal]) -> (yes: bool)
    ensures
        yes == contradiction(vars@),
{
    let mut i: usize = 0;
    while i < vars.len()
        invariant
            i <= vars.len(),
            forall|k: int| 0 <= k < i ==> #[trigger] vars@[k] == Literal::False,
        decreases vars.len() - i,
    {
        if vars[i] != Literal::False {
            return false;
        }
        i = i + 1;
    }
    true
}

/// Folds the constants of a conjunction or disjunction: `None` when `vars`
/// holds the constant that decides the whole, else the literals that are left
/// once the constant that changes nothing is struck out.
pub fn fold_constants(vars: &[Literal], neutral: Literal, absorbing: Literal) -> (kept: Option<
    Vec<Literal>,
>)
    requires
        neutral != absorbing,
    ensures
        kept is None <==> vars@.contains(absorbing),
        kept matches Some(k) ==> k@ == without(vars@, neutral),
{
    let mut kept: Vec<Literal> = Vec::new();
    let mut i: usize = 0;
    while i < vars.len()
        invariant
            i <= vars.len(),
            neutral != absorbing,
            !vars@.take(i as int).contains(absorbing),
            kept@ == without(vars@.take(i as int), neutral),
        decreases vars.len() - i,
    {
        let lit = vars[i];
        proof {
            reveal(Seq::filter);
            assert(vars@.take(i + 1).drop_last() =~= vars@.take(i as int));
        }
        if lit == absorbing {
            return None;
        }
        if lit != neutral {
            kept.push(lit);
        }
        proof {
            let next = vars@.take(i + 1);
            assert forall|k: int| 0 <= k < next.len() implies #[trigger] next[k] != absorbing by {}
        }
        i = i + 1;
    }
    proof {
        assert(vars@.take(vars@.len() as int) =~= vars@);
    }
    Some(kept)
}

impl SatProblem {
    /// The solver holds no more variables than the bound allows, and every
    /// clause in it is made of variables that it handed out. It is plain and
    /// not spent, so that it answers every query. Where it holds a model, so
    /// does the problem, and the model that the problem keeps satisfies every
    /// clause.
    pub closed spec fn wf(&self) -> bool {
        &&& solver_var_count(self.cnf) <= MAX_VARIABLES
        &&& self.vars == solver_var_count(self.cnf)
        &&& forall|j: int|
            0 <= j < solver_clauses(self.cnf).len() ==> ints_within(
                #[trigger] solver_clauses(self.cnf)[j],
                solver_var_count(self.cnf),
            )
        &&& solver_plain(self.cnf)
        &&& !solver_spent(self.cnf)
        &&& solver_model_vars(self.cnf) is Some ==> self.last is Some
        &&& self.last matches Some(m) ==> codes_within(m@, solver_var_count(self.cnf))
            && all_codes_hold(solver_clauses(self.cnf), model_true_vars(m@))
    }

    /// The model that is kept from the last query: the one that the next query
    /// returns, as long as no clause is added.
    pub closed spec fn known_model(&self) -> Option<Assignment> {
        match self.last {
            Some(m) => Some(listed_vars(m@)),
            None => None,
        }
    }

    /// The formula of a well-formed problem is well formed.
    pub proof fn lemma_view_wf(&self)
        requires
            self.wf(),
        ensures
            self@.wf(),
    {
        assert forall|j: int| 0 <= j < self@.clauses.len() implies clause_proper(
            #[trigger] self@.clauses[j],
            self@.num_vars,
        ) by {}
    }

    proof fn lemma_holds_codes(&self, a: Assignment)
        requires
            self.wf(),
        ensures
            self@.holds(a) == all_codes_hold(solver_clauses(self.cnf), a),
    {
        let codes = solver_clauses(self.cnf);
        let count = solver_var_count(self.cnf);
        assert forall|j: int| 0 <= j < codes.len() implies clause_holds(
            #[trigger] self@.clauses[j],
            a,
        ) == codes_hold(codes[j], a) by {
            lemma_decode_clause(codes[j], count, a);
        }
        if self@.holds(a) {
            assert forall|j: int| 0 <= j < codes.len() implies codes_hold(#[trigger] codes[j], a) by {
                assert(clause_holds(self@.clauses[j], a));
            }
        }
        if all_codes_hold(codes, a) {
            assert forall|j: int| 0 <= j < self@.clauses.len() implies clause_holds(
                #[trigger] self@.clauses[j],
                a,
            ) by {}
        }
    }

    /// A formula without variables or clauses.
    pub fn new() -> (problem: SatProblem)
        ensures
            problem.wf(),
            problem@ == Formula::empty(),
            problem.known_model() is None,
    {
        let problem = SatProblem { cnf: solver_new(), vars: 0, last: None };
        assert(problem@.clauses =~= Seq::empty());
        problem
    }

    /// Hands out a fresh variable, as its positive literal. Ids count up from
    /// 1; the clauses stay as they are, and so does a model that is kept: it
    /// makes the new variable false.
    pub fn var(&mut self) -> (lit: Literal)
        requires
            old(self).wf(),
            old(self)@.num_vars < MAX_VARIABLES,
        ensures
            final(self).wf(),
            lit == old(self)@.fresh(),
            final(self)@ == old(self)@.with_var(),
            final(self).known_model() == old(self).known_model(),
    {
        let number = solver_new_var(&mut self.cnf);
        self.vars = self.vars + 1;
        Literal::from_dimacs(number)
    }

    /// The number of variables handed out so far.
    pub fn num_vars(&self) -> (n: u32)
        requires
            self.wf(),
        ensures
            n == self@.num_vars,
            n <= MAX_VARIABLES,
    {
        self.vars
    }

    /// Adds the disjunction of `vars` as a clause, with its constants folded: a
    /// clause that holds `True` is dropped, and `False` is struck out of any
    /// other. What is left must not be empty. A model that is kept is given up
    /// where a clause is added.
    pub fn or_clause(&mut self, vars: &[Literal])
        requires
            old(self).wf(),
            all_within(vars@, old(self)@.num_vars),
            !contradiction(vars@),
        ensures
            final(self).wf(),
            final(self)@ == old(self)@.with_clause(vars@),
            forall|a: Assignment| #[trigger]
                final(self)@.holds(a) == (old(self)@.holds(a) && clause_holds(vars@, a)),
            final(self).known_model() == if vars@.contains(Literal::True) {
                old(self).known_model()
            } else {
                None
            },
    {
        let ghost before = self@;
        let mut codes: Vec<isize> = Vec::new();
        let mut i: usize = 0;
        while i < vars.len()
            invariant
                i <= vars.len(),
                self.wf(),
                self@ == before,
                *self == *old(self),
                all_within(vars@, before.num_vars),
                !vars@.take(i as int).contains(Literal::True),
                codes@.len() == without(vars@.take(i as int), Literal::False).len(),
                forall|k: int|
                    0 <= k < codes@.len() ==> #[trigger] codes@[k] == without(
                        vars@.take(i as int),
                        Literal::False,
                    )[k].code(),
                codes_within(codes@, before.num_vars),
            decreases vars.len() - i,
        {
            let lit = vars[i];
            proof {
                reveal(Seq::filter);
                assert(vars@.take(i + 1).drop_last() =~= vars@.take(i as int));
                if lit != Literal::True {
                    let next = vars@.take(i + 1);
                    assert forall|k: int| 0 <= k < next.len() implies #[trigger] next[k]
                        != Literal::True by {}
                }
            }
            match lit {
                Literal::True => {
                    proof {
                        assert forall|a: Assignment| #[trigger]
                            before.with_clause(vars@).holds(a) == (before.holds(a) && clause_holds(
                                vars@,
                                a,
                            )) by {}
                    }
                    return ;
                },
                Literal::False => {},
                Literal::Var { id, negated } => {
                    codes.push(lit.to_dimacs());
                },
            }
            i = i + 1;
        }
        proof {
            assert(vars@.take(vars@.len() as int) =~= vars@);
            let kept = without(vars@, Literal::False);
            assert(decode_clause(codes@.map_values(|n: isize| n as int)) =~= kept) by {
                assert forall|k: int| 0 <= k < kept.len() implies Literal::of_code(
                    codes@[k] as int,
                ) == kept[k] by {
                    let j = choose|j: int| 0 <= j < vars@.len() && vars@[j] == kept[k];
                }
            }
        }
        solver_add_clause(&mut self.cnf, &codes);
        self.last = None;
        proof {
            assert(!vars@.contains(Literal::True));
            let kept = without(vars@, Literal::False);
            assert(self@.clauses =~= before.clauses.push(kept));
            assert(self@ == before.with_clause(vars@));
            assert forall|a: Assignment| #[trigger]
                self@.holds(a) == (before.holds(a) && clause_holds(vars@, a)) by {
                lemma_with_clause(before, vars@, a);
            }
            let all = solver_clauses(self.cnf);
            assert forall|j: int| 0 <= j < all.len() implies ints_within(
                #[trigger] all[j],
                solver_var_count(self.cnf),
            ) by {
                if j == all.len() - 1 {
                    assert forall|k: int| 0 <= k < all[j].len() implies (1 <= #[trigger] all[j][k]
                        <= before.num_vars || -(before.num_vars as int) <= all[j][k] <= -1) by {}
                }
            }
        }
    }

    /// Adds the disjunction of `vars` as [`SatProblem::or_clause`] does, unless
    /// nothing is left of it once `False` is struck out: such a clause is
    /// refused, and nothing reaches the solver. No assignment satisfies a
    /// clause that is refused.
    pub fn try_or_clause(&mut self, vars: &[Literal]) -> (added: bool)
        requires
            old(self).wf(),
            all_within(vars@, old(self)@.num_vars),
        ensures
            final(self).wf(),
            added == !contradiction(vars@),
            added ==> final(self)@ == old(self)@.with_clause(vars@),
            added ==> forall|a: Assignment| #[trigger]
                final(self)@.holds(a) == (old(self)@.holds(a) && clause_holds(vars@, a)),
            !added ==> final(self)@ == old(self)@ && final(self).known_model() == old(
                self,
            ).known_model(),
            !added ==> forall|a: Assignment| !clause_holds(vars@, a),
    {
        if is_contradiction(vars) {
            return false;
        }
        self.or_clause(vars);
        true
    }

    /// Adds each literal of `vars` as a clause of its own: all of them must
    /// hold. A `True` among them adds nothing; none may be `False`.
    pub fn and_clause(&mut self, vars: &[Literal])
        requires
            old(self).wf(),
            all_within(vars@, old(self)@.num_vars),
            !vars@.contains(Literal::False),
        ensures
            final(self).wf(),
            final(self)@ == old(self)@.with_units(vars@),
            forall|a: Assignment| #[trigger]
                final(self)@.holds(a) == (old(self)@.holds(a) && all_true(vars@, a)),
    {
        let ghost before = self@;
        let mut i: usize = 0;
        while i < vars.len()
            invariant
                i <= vars.len(),
                self.wf(),
                self@ == before.with_units(vars@.take(i as int)),
                self@.num_vars == before.num_vars,
                all_within(vars@, before.num_vars),
                !vars@.contains(Literal::False),
            decreases vars.len() - i,
        {
            let unit = [vars[i]];
            proof {
                assert(unit@ =~= seq![vars@[i as int]]);
                assert(vars@.take(i + 1).drop_last() =~= vars@.take(i as int));
            }
            self.or_clause(unit.as_slice());
            i = i + 1;
        }
        proof {
            assert(vars@.take(vars@.len() as int) =~= vars@);
            assert forall|a: Assignment| #[trigger]
                self@.holds(a) == (before.holds(a) && all_true(vars@, a)) by {
                lemma_with_units(before, vars@, a);
            }
        }
    }

    /// Adds the negation of each literal of `vars` as a clause of its own:
    /// none of them may hold. None may be `True`.
    pub fn nor_clause(&mut self, vars: &[Literal])
        requires
            old(self).wf(),
            all_within(vars@, old(self)@.num_vars),
            !vars@.contains(Literal::True),
        ensures
            final(self).wf(),
            final(self)@ == old(self)@.with_units(negations(vars@)),
            forall|a: Assignment| #[trigger]
                final(self)@.holds(a) == (old(self)@.holds(a) && !clause_holds(vars@, a)),
    {
        let not_vars = negate_all(vars);
        proof {
            assert forall|a: Assignment|
                all_true(not_vars@, a) == !#[trigger] clause_holds(vars@, a) by {
                lemma_negations(vars@, self@.num_vars, a);
            }
        }
        self.and_clause(not_vars.as_slice());
    }

    /// Adds the clause of the negations of `vars`: not all of them may hold.
    /// Some literal must differ from `True`.
    pub fn nand_clause(&mut self, vars: &[Literal])
        requires
            old(self).wf(),
            all_within(vars@, old(self)@.num_vars),
            exists|i: int| 0 <= i < vars@.len() && #[trigger] vars@[i] != Literal::True,
        ensures
            final(self).wf(),
            final(self)@ == old(self)@.with_clause(negations(vars@)),
            forall|a: Assignment| #[trigger]
                final(self)@.holds(a) == (old(self)@.holds(a) && !all_true(vars@, a)),
    {
        let not_vars = negate_all(vars);
        proof {
            lemma_negations(vars@, self@.num_vars, Set::empty());
            assert forall|a: Assignment|
                #[trigger] clause_holds(not_vars@, a) == !all_true(vars@, a) by {
                lemma_negations(vars@, self@.num_vars, a);
            }
        }
        self.or_clause(not_vars.as_slice());
    }

    /// Adds the unit clause of the negation of `var`. `var` must not be
    /// `True`.
    pub fn not_clause(&mut self, var: Literal)
        requires
            old(self).wf(),
            var.within(old(self)@.num_vars),
            var != Literal::True,
        ensures
            final(self).wf(),
            final(self)@ == old(self)@.with_clause(seq![var.negation()]),
            forall|a: Assignment| #[trigger]
                final(self)@.holds(a) == (old(self)@.holds(a) && !var.value(a)),
    {
        let unit = [var.negate()];
        proof {
            assert(unit@ =~= seq![var.negation()]);
            assert forall|a: Assignment| #[trigger] clause_holds(unit@, a) == !var.value(a) by {}
        }
        self.or_clause(unit.as_slice());
    }

    /// Adds the clause that `a` implies `b`: `b` or the negation of `a`. It
    /// must not be that `a` is `True` and `b` is `False`.
    pub fn implies_clause(&mut self, a: Literal, b: Literal)
        requires
            old(self).wf(),
            a.within(old(self)@.num_vars),
            b.within(old(self)@.num_vars),
            !(a == Literal::True && b == Literal::False),
        ensures
            final(self).wf(),
            final(self)@ == old(self)@.with_clause(seq![a.negation(), b]),
            forall|m: Assignment| #[trigger]
                final(self)@.holds(m) == (old(self)@.holds(m) && (a.value(m) ==> b.value(m))),
    {
        let pair = [a.negate(), b];
        proof {
            assert forall|m: Assignment| #[trigger]
                clause_holds(pair@, m) == (a.value(m) ==> b.value(m)) by {}
        }
        self.or_clause(pair.as_slice());
    }

    /// Asks whether the formula can be satisfied. `Some(..)` carries a model,
    /// which satisfies every clause and makes true only variables that were
    /// handed out; `None` means that no assignment satisfies the formula. The
    /// formula stays as it is, and may be extended and asked about again.
    ///
    /// Where a model is kept from an earlier query, that model is the answer,
    /// and the solver is not asked. Else the solver is asked, and a model that
    /// it gives is kept.
    pub fn solve(&mut self) -> (answer: Option<SatSolution>)
        requires
            old(self).wf(),
        ensures
            final(self).wf(),
            final(self)@ == old(self)@,
            answer matches Some(solution) ==> old(self)@.holds(solution@),
            answer matches Some(solution) ==> forall|v: nat|
                solution@.contains(v) ==> 1 <= v <= old(self)@.num_vars,
            answer is None ==> forall|a: Assignment| !old(self)@.holds(a),
            old(self).known_model() matches Some(kept) ==> (answer matches Some(solution)
                && solution@ == kept),
            final(self).known_model() == match answer {
                Some(solution) => Some(solution@),
                None => None,
            },
    {
        let ghost before = *self;
        if self.last.is_none() {
            let satisfiable = match solver_solve(&mut self.cnf) {
                Ok(satisfiable) => satisfiable,
                Err(_) => unreached(),
            };
            if !satisfiable {
                proof {
                    assert forall|a: Assignment| !before@.holds(a) by {
                        self.lemma_holds_codes(a);
                    }
                }
                return None;
            }
            self.last = solver_model(&self.cnf);
        }
        match &self.last {
            Some(model) => {
                let solution = SatSolution::from_model(model.as_slice());
                proof {
                    assert(listed_vars(model@) =~= model_true_vars(model@));
                    self.lemma_holds_codes(model_true_vars(model@));
                }
                Some(solution)
            },
            None => unreached(),
        }
    }
}

impl SatSolution {
    /// The model that makes true exactly the variables that occur as positive
    /// literals in `vars`. Constants and negated variables add nothing.
    pub fn new(vars: &[Literal]) -> (solution: SatSolution)
        ensures
            solution@ == positive_vars(vars@),
    {
        let mut true_vars: HashSet<u32> = HashSet::new();
        let mut i: usize = 0;
        while i < vars.len()
            invariant
                i <= vars.len(),
                forall|v: u32|
                    true_vars@.contains(v) <==> exists|k: int|
                        0 <= k < i && #[trigger] vars@[k] == (Literal::Var {
                            id: v,
                            negated: false,
                        }),
            decreases vars.len() - i,
        {
            match vars[i] {
                Literal::Var { id, negated } => {
                    if !negated {
                        true_vars.insert(id);
                    }
                },
                _ => {},
            }
            i = i + 1;
        }
        let solution = SatSolution { true_vars };
        proof {
            assert forall|v: nat| solution@.contains(v) == positive_vars(vars@).contains(v) by {}
        }
        solution
    }

    /// The model that a list of DIMACS numbers stands for: it makes true the
    /// variables whose own number is listed, and no other.
    pub fn from_model(model: &[isize]) -> (solution: SatSolution)
        ensures
            solution@ == listed_vars(model@),
    {
        let mut true_vars: HashSet<u32> = HashSet::new();
        let mut i: usize = 0;
        while i < model.len()
            invariant
                i <= model.len(),
                forall|v: u32|
                    true_vars@.contains(v) <==> 1 <= v && exists|k: int|
                        0 <= k < i && #[trigger] model@[k] == v as int,
            decreases model.len() - i,
        {
            let n: isize = model[i];
            if 0 < n && n as u64 <= u32::MAX as u64 {
                true_vars.insert(n as u32);
            }
            i = i + 1;
        }
        let solution = SatSolution { true_vars };
        proof {
            assert forall|v: nat| solution@.contains(v) == listed_vars(model@).contains(v) by {}
        }
        solution
    }

    /// The value of a literal in this model: a variable is true when the model
    /// lists it, a negated variable when the model does not.
    pub fn get(&self, var: Literal) -> (value: bool)
        ensures
            value == var.value(self@),
    {
        match var {
            Literal::True => true,
            Literal::False => false,
            Literal::Var { id, negated } => self.true_vars.contains(&id) != negated,
        }
    }
}

} // verus!
