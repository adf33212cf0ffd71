//! The satisfiability solver, `varisat::Solver`, as the rest of the library
//! sees it. Nothing in this file is proved: each contract says what the
//! solver's source shows.
use vstd::prelude::*;
use varisat::ExtendFormula;

verus! {

/// `varisat::Solver`. Opaque: its state is known only through
/// [`solver_var_count`], [`solver_clauses`], [`solver_model_vars`],
/// [`solver_plain`] and [`solver_spent`].
#[verifier::external_type_specification]
#[verifier::external_body]
pub struct ExSolver<'a>(varisat::Solver<'a>);

/// `varisat::SolverError`, what `Solver::solve` returns when it fails.
#[verifier::external_type_specification]
#[verifier::external_body]
pub struct ExSolverError(varisat::solver::SolverError);

/// How many variables the solver has handed out.
pub uninterp spec fn solver_var_count(solver: varisat::Solver<'static>) -> nat;

/// The clauses that were handed to the solver by `add_clause`, in the order of
/// the calls, each literal as its signed DIMACS number. The solver keeps them
/// in a form of its own (sorted, simplified, some dropped); this is the list
/// of what it was given, which is what its answers are about.
pub uninterp spec fn solver_clauses(solver: varisat::Solver<'static>) -> Seq<Seq<int>>;

/// The model that the solver holds: `Some(n)` while its last answer
/// "satisfiable" stands, where `n` is the number of variables that had been
/// handed out when that answer was found, and `None` otherwise. The stored
/// model covers those `n` variables and no later one.
pub uninterp spec fn solver_model_vars(solver: varisat::Solver<'static>) -> Option<nat>;

/// Whether the solver writes no proof, checks none and hands none to a
/// processor, and has no error waiting to be reported. Those are the only
/// sources of an error, so a plain solver answers every query.
pub uninterp spec fn solver_plain(solver: varisat::Solver<'static>) -> bool;

/// Whether the solver has reported an error after which it must not be asked
/// again.
pub uninterp spec fn solver_spent(solver: varisat::Solver<'static>) -> bool;

/// The value of the literal with DIMACS number `code` under `a`.
pub open spec fn code_value(code: int, a: Set<nat>) -> bool {
    if code < 0 {
        !a.contains((-code) as nat)
    } else {
        a.contains(code as nat)
    }
}

/// Whether `a` makes some literal of `clause` true.
pub open spec fn codes_hold(clause: Seq<int>, a: Set<nat>) -> bool {
    exists|i: int| 0 <= i < clause.len() && code_value(#[trigger] clause[i], a)
}

/// Whether `a` satisfies every clause.
pub open spec fn all_codes_hold(clauses: Seq<Seq<int>>, a: Set<nat>) -> bool {
    forall|j: int| 0 <= j < clauses.len() ==> codes_hold(#[trigger] clauses[j], a)
}

/// The variables that a model lists as true: those whose positive number
/// occurs in it.
pub open spec fn model_true_vars(model: Seq<isize>) -> Set<nat> {
    Set::new(|v: nat| exists|i: int| 0 <= i < model.len() && #[trigger] model[i] == v as int)
}

/// Whether every number of `codes` names one of the first `count` variables,
/// negated or not.
pub open spec fn codes_within(codes: Seq<isize>, count: nat) -> bool {
    forall|i: int|
        0 <= i < codes.len() ==> (1 <= #[trigger] codes[i] <= count || -(count as int)
            <= codes[i] <= -1)
}

/// `Solver::new`: a solver without variables or clauses, which holds no model,
/// has no proof set up and has reported no error.
#[verifier::external_body]
pub(crate) fn solver_new() -> (solver: varisat::Solver<'static>)
    ensures
        solver_var_count(solver) == 0,
        solver_clauses(solver) == Seq::<Seq<int>>::empty(),
        solver_model_vars(solver) is None,
        solver_plain(solver),
        !solver_spent(solver),
{
    varisat::Solver::new()
}

/// `Solver::new_var` (of `ExtendFormula`): hands out the next variable. No
/// variable is ever hidden here, so the new one is the first unused index, and
/// the result is its DIMACS number. The clauses stay as they are, and so does
/// a model that the solver holds: it is not extended to the new variable.
#[verifier::external_body]
pub(crate) fn solver_new_var(solver: &mut varisat::Solver<'static>) -> (number: isize)
    requires
        solver_var_count(*old(solver)) < 0x1000_0000,
    ensures
        number == solver_var_count(*old(solver)) + 1,
        solver_var_count(*final(solver)) == solver_var_count(*old(solver)) + 1,
        solver_clauses(*final(solver)) == solver_clauses(*old(solver)),
        solver_model_vars(*final(solver)) == solver_model_vars(*old(solver)),
        solver_plain(*old(solver)) ==> solver_plain(*final(solver)),
        solver_spent(*final(solver)) == solver_spent(*old(solver)),
{
    solver.new_var().to_dimacs()
}

/// `Solver::add_clause` (of `ExtendFormula`): adds one clause, given by the
/// DIMACS numbers of its literals. Every literal must name a variable that was
/// handed out, so that none is created on the way. An answer "satisfiable"
/// stands no longer, so the solver holds no model afterwards.
#[verifier::external_body]
pub(crate) fn solver_add_clause(solver: &mut varisat::Solver<'static>, clause: &Vec<isize>)
    requires
        codes_within(clause@, solver_var_count(*old(solver))),
    ensures
        solver_var_count(*final(solver)) == solver_var_count(*old(solver)),
        solver_clauses(*final(solver)) == solver_clauses(*old(solver)).push(
            clause@.map_values(|n: isize| n as int),
        ),
        solver_model_vars(*final(solver)) is None,
        solver_plain(*old(solver)) ==> solver_plain(*final(solver)),
        solver_spent(*final(solver)) == solver_spent(*old(solver)),
{
    let lits: Vec<varisat::Lit> = clause.iter().map(|n| varisat::Lit::from_dimacs(*n)).collect();
    solver.add_clause(&lits);
}

/// `Solver::solve`: decides whether the clauses added so far can all hold.
/// `Ok(false)` means that no assignment satisfies them. After `Ok(true)` the
/// solver holds a model and after `Ok(false)` none. A model that it held
/// before the call stays as it was; one that it finds covers every variable
/// handed out. The search ends only with an answer or with an error, and an
/// error comes only from writing, checking or processing a proof: a plain
/// solver answers `Ok`, and stays plain. After an error the solver may be
/// spent, and it panics when it is asked then. Variables and clauses stay as
/// they are.
#[verifier::external_body]
pub(crate) fn solver_solve(solver: &mut varisat::Solver<'static>) -> (answer: Result<
    bool,
    varisat::solver::SolverError,
>)
    requires
        !solver_spent(*old(solver)),
    ensures
        solver_var_count(*final(solver)) == solver_var_count(*old(solver)),
        solver_clauses(*final(solver)) == solver_clauses(*old(solver)),
        answer matches Ok(sat) && !sat ==> forall|a: Set<nat>|
            !all_codes_hold(solver_clauses(*old(solver)), a),
        answer matches Ok(sat) ==> sat == (solver_model_vars(*final(solver)) is Some),
        answer is Ok ==> !solver_spent(*final(solver)),
        solver_plain(*old(solver)) ==> answer is Ok && solver_plain(*final(solver)),
        solver_model_vars(*final(solver)) matches Some(n) ==> solver_model_vars(*old(solver))
            == Some(n) || (solver_model_vars(*old(solver)) is None && n == solver_var_count(
            *old(solver),
        )),
{
    solver.solve()
}

/// `Solver::model`: `Some` exactly while the solver holds a model, and then
/// one literal for each variable handed out, by its DIMACS number. Making
/// true exactly the variables that are listed positive satisfies every
/// clause. The call panics where a variable was handed out after the model
/// was found.
#[verifier::external_body]
pub(crate) fn solver_model(solver: &varisat::Solver<'static>) -> (model: Option<Vec<isize>>)
    requires
        solver_model_vars(*solver) matches Some(n) ==> n == solver_var_count(*solver),
    ensures
        model is Some == (solver_model_vars(*solver) is Some),
        model matches Some(m) ==> codes_within(m@, solver_var_count(*solver)) && all_codes_hold(
            solver_clauses(*solver),
            model_true_vars(m@),
        ),
{
    solver.model().map(|m| m.iter().map(|lit| lit.to_dimacs()).collect())
}

} // verus!
