use jigsaw_doubler::literal::{Literal, MAX_VARIABLES};
use jigsaw_doubler::sat::{fold_constants, is_contradiction, negate_all, SatProblem, SatSolution};

/// The value that the formula forces on `lit` when `inputs` are fixed to
/// `values`: `Some` value where every model agrees, `None` where the formula
/// has no model with those inputs or leaves `lit` open.
fn forced(
    build: &dyn Fn(&mut SatProblem, &[Literal]) -> Literal,
    arity: usize,
    values: &[bool],
) -> Option<bool> {
    let mut outcome = None;
    for wanted in [false, true] {
        let mut p = SatProblem::new();
        let inputs: Vec<Literal> = (0..arity).map(|_| p.var()).collect();
        let lit = build(&mut p, &inputs);
        for (input, value) in inputs.iter().zip(values) {
            p.and_clause(&[if *value { *input } else { !*input }]);
        }
        let this = match lit {
            Literal::True => wanted,
            Literal::False => !wanted,
            _ => {
                p.and_clause(&[if wanted { lit } else { !lit }]);
                p.solve().is_some()
            }
        };
        if this {
            if outcome.is_some() {
                return None;
            }
            outcome = Some(wanted);
        }
    }
    outcome
}

fn assignments(arity: usize) -> Vec<Vec<bool>> {
    (0..1usize << arity)
        .map(|bits| (0..arity).map(|i| bits >> i & 1 == 1).collect())
        .collect()
}

#[test]
fn negation_is_an_involution() {
    let mut p = SatProblem::new();
    let a = p.var();
    for lit in [Literal::True, Literal::False, a, !a] {
        assert_eq!(!!lit, lit);
        assert_eq!(lit.negate().negate(), lit);
        assert_ne!(!lit, lit);
    }
    assert_eq!(!Literal::True, Literal::False);
    assert_eq!(!Literal::False, Literal::True);
    assert_ne!(!a, Literal::True);
    assert_ne!(!a, Literal::False);
    assert_eq!(!a, Literal::Var { id: 1, negated: true });
}

#[test]
fn literals_and_their_numbers() {
    assert_eq!(Literal::positive(7), Literal::Var { id: 7, negated: false });
    assert_eq!(Literal::positive(7).to_dimacs(), 7);
    assert_eq!((!Literal::positive(7)).to_dimacs(), -7);
    assert_eq!(Literal::from_dimacs(-3), Literal::Var { id: 3, negated: true });
    assert_eq!(Literal::from_dimacs(3), Literal::Var { id: 3, negated: false });
    assert_eq!(
        Literal::from_dimacs(MAX_VARIABLES as isize),
        Literal::Var { id: MAX_VARIABLES, negated: false }
    );
    assert!(Literal::positive(1).is_positive());
    assert!(!Literal::positive(1).is_negative());
    assert!((!Literal::positive(1)).is_negative());
    assert!(!Literal::True.is_positive());
    assert!(!Literal::False.is_negative());
    assert!(Literal::True.is_const());
    assert!(Literal::False.is_const());
    assert!(!Literal::positive(1).is_const());
}

#[test]
fn variables_count_up_from_one() {
    let mut p = SatProblem::new();
    assert_eq!(p.num_vars(), 0);
    assert_eq!(p.var(), Literal::Var { id: 1, negated: false });
    assert_eq!(p.var(), Literal::Var { id: 2, negated: false });
    assert_eq!(p.var(), Literal::Var { id: 3, negated: false });
    assert_eq!(p.num_vars(), 3);
}

#[test]
fn contradictions_are_told_apart() {
    let mut p = SatProblem::new();
    let a = p.var();
    assert!(is_contradiction(&[]));
    assert!(is_contradiction(&[Literal::False]));
    assert!(is_contradiction(&[Literal::False, Literal::False]));
    assert!(!is_contradiction(&[Literal::False, a]));
    assert!(!is_contradiction(&[Literal::True]));
    assert!(!is_contradiction(&[!a]));
}

#[test]
fn constants_fold_out_of_lists() {
    let a = Literal::positive(1);
    let b = Literal::positive(2);
    assert_eq!(
        fold_constants(&[a, Literal::True, b, Literal::True], Literal::True, Literal::False),
        Some(vec![a, b])
    );
    assert_eq!(
        fold_constants(&[a, Literal::True, Literal::False], Literal::True, Literal::False),
        None
    );
    assert_eq!(
        fold_constants(&[Literal::False, a], Literal::False, Literal::True),
        Some(vec![a])
    );
    assert_eq!(fold_constants(&[], Literal::False, Literal::True), Some(vec![]));
    assert_eq!(negate_all(&[a, !b, Literal::True]), vec![!a, b, Literal::False]);
}

#[test]
fn clause_with_true_is_dropped() {
    let mut p = SatProblem::new();
    let a = p.var();
    p.or_clause(&[!a, Literal::True]);
    // both values of a are still possible
    p.or_clause(&[a]);
    let solution = p.solve().unwrap();
    assert!(solution.get(a));
    let mut p = SatProblem::new();
    let a = p.var();
    p.or_clause(&[a, Literal::True]);
    p.or_clause(&[!a]);
    assert!(!p.solve().unwrap().get(a));
}

#[test]
fn false_is_struck_out_of_a_clause() {
    let mut p = SatProblem::new();
    let a = p.var();
    let b = p.var();
    p.or_clause(&[Literal::False, a, Literal::False]);
    p.or_clause(&[!b, Literal::False]);
    let solution = p.solve().unwrap();
    assert!(solution.get(a));
    assert!(!solution.get(b));
    assert_eq!(solution, SatSolution::new(&[a]));
}

#[test]
fn unsatisfiable_formula_has_no_model() {
    let mut p = SatProblem::new();
    let a = p.var();
    p.or_clause(&[a]);
    p.or_clause(&[!a]);
    assert_eq!(p.solve(), None);
    // and stays so
    let b = p.var();
    p.or_clause(&[b]);
    assert_eq!(p.solve(), None);
}

#[test]
fn solving_goes_on_after_more_clauses() {
    let mut p = SatProblem::new();
    let a = p.var();
    let b = p.var();
    p.or_clause(&[a, b]);
    assert!(p.solve().is_some());
    p.not_clause(a);
    let solution = p.solve().unwrap();
    assert_eq!(solution, SatSolution::new(&[b]));
    p.not_clause(b);
    assert_eq!(p.solve(), None);
}

#[test]
fn solution_resolves_negation_and_constants() {
    let a = Literal::positive(1);
    let b = Literal::positive(2);
    let c = Literal::positive(3);
    let solution = SatSolution::new(&[a, !b, Literal::True, Literal::False]);
    assert!(solution.get(a));
    assert!(!solution.get(!a));
    assert!(!solution.get(b));
    assert!(solution.get(!b));
    // a variable that the model does not list is false
    assert!(!solution.get(c));
    assert!(solution.get(!c));
    assert!(solution.get(Literal::True));
    assert!(!solution.get(Literal::False));
    assert_eq!(solution, SatSolution::new(&[a]));
    assert_ne!(solution, SatSolution::new(&[a, b]));
}

#[test]
fn gates_over_constants_hand_out_no_variable() {
    let mut p = SatProblem::new();
    let a = p.var();
    let t = Literal::True;
    let f = Literal::False;
    assert_eq!(p.and_var(&[]), t);
    assert_eq!(p.and_var(&[t, t]), t);
    assert_eq!(p.and_var(&[t, f]), f);
    assert_eq!(p.and_var(&[a, f]), f);
    assert_eq!(p.and_var(&[t, a]), a);
    assert_eq!(p.and_var(&[a]), a);
    assert_eq!(p.and_var(&[!a, t, t]), !a);
    assert_eq!(p.or_var(&[]), f);
    assert_eq!(p.or_var(&[f, f]), f);
    assert_eq!(p.or_var(&[f, t]), t);
    assert_eq!(p.or_var(&[a, t]), t);
    assert_eq!(p.or_var(&[f, a]), a);
    assert_eq!(p.or_var(&[a]), a);
    assert_eq!(p.xor_var(t, t), f);
    assert_eq!(p.xor_var(t, f), t);
    assert_eq!(p.xor_var(f, t), t);
    assert_eq!(p.xor_var(f, f), f);
    assert_eq!(p.xor_var(t, a), !a);
    assert_eq!(p.xor_var(a, t), !a);
    assert_eq!(p.xor_var(f, a), a);
    assert_eq!(p.xor_var(a, f), a);
    assert_eq!(p.eq_var(t, t), t);
    assert_eq!(p.eq_var(t, f), f);
    assert_eq!(p.eq_var(f, f), t);
    assert_eq!(p.eq_var(a, t), a);
    assert_eq!(p.eq_var(a, f), !a);
    assert_eq!(p.eq_var(t, a), a);
    assert_eq!(p.eq_var(f, a), !a);
    assert_eq!(p.num_vars(), 1);
    // and the formula is as free as before
    assert!(p.solve().is_some());
    p.and_clause(&[a]);
    assert!(p.solve().is_some());
}

#[test]
fn gates_over_variables_hand_out_one_variable() {
    let mut p = SatProblem::new();
    let a = p.var();
    let b = p.var();
    assert_eq!(p.and_var(&[a, b]), Literal::positive(3));
    assert_eq!(p.or_var(&[a, b, Literal::False]), Literal::positive(4));
    assert_eq!(p.xor_var(a, b), Literal::positive(5));
    assert_eq!(p.eq_var(a, !b), Literal::positive(6));
    assert_eq!(p.and_var(&[a, a]), Literal::positive(7));
    assert_eq!(p.num_vars(), 7);
}

#[test]
fn and_gate_matches_its_truth_table() {
    for arity in 0..=4 {
        for values in assignments(arity) {
            let wanted = values.iter().all(|v| *v);
            assert_eq!(forced(&|p, inputs| p.and_var(inputs), arity, &values), Some(wanted));
        }
    }
}

#[test]
fn or_gate_matches_its_truth_table() {
    for arity in 0..=4 {
        for values in assignments(arity) {
            let wanted = values.iter().any(|v| *v);
            assert_eq!(forced(&|p, inputs| p.or_var(inputs), arity, &values), Some(wanted));
        }
    }
}

#[test]
fn xor_and_eq_gates_match_their_truth_tables() {
    for values in assignments(2) {
        assert_eq!(
            forced(&|p, inputs| p.xor_var(inputs[0], inputs[1]), 2, &values),
            Some(values[0] != values[1])
        );
        assert_eq!(
            forced(&|p, inputs| p.eq_var(inputs[0], inputs[1]), 2, &values),
            Some(values[0] == values[1])
        );
        assert_eq!(
            forced(&|p, inputs| p.xor_var(inputs[0], !inputs[1]), 2, &values),
            Some(values[0] == values[1])
        );
    }
}

#[test]
fn gates_with_a_constant_among_the_inputs_match_their_truth_tables() {
    let t = Literal::True;
    let f = Literal::False;
    for values in assignments(2) {
        let (x, y) = (values[0], values[1]);
        assert_eq!(forced(&|p, i| p.and_var(&[i[0], t, i[1]]), 2, &values), Some(x && y));
        assert_eq!(forced(&|p, i| p.and_var(&[i[0], f, i[1]]), 2, &values), Some(false));
        assert_eq!(forced(&|p, i| p.or_var(&[i[0], f, i[1]]), 2, &values), Some(x || y));
        assert_eq!(forced(&|p, i| p.or_var(&[i[0], t, i[1]]), 2, &values), Some(true));
        assert_eq!(forced(&|p, i| p.xor_var(i[0], t), 2, &values), Some(!x));
        assert_eq!(forced(&|p, i| p.eq_var(f, i[1]), 2, &values), Some(!y));
    }
}

#[test]
fn implication_and_negation_clauses() {
    let mut p = SatProblem::new();
    let a = p.var();
    let b = p.var();
    p.implies_clause(a, b);
    p.and_clause(&[a]);
    assert!(p.solve().unwrap().get(b));
    // a constant premise or conclusion folds
    let mut p = SatProblem::new();
    let a = p.var();
    p.implies_clause(Literal::True, a);
    p.implies_clause(Literal::False, !a);
    p.implies_clause(!a, Literal::True);
    assert_eq!(p.solve().unwrap(), SatSolution::new(&[a]));
    let mut p = SatProblem::new();
    let a = p.var();
    p.implies_clause(a, Literal::False);
    p.not_clause(Literal::False);
    assert_eq!(p.solve().unwrap(), SatSolution::new(&[]));
}

#[test]
fn all_of_and_none_of_with_constants() {
    let mut p = SatProblem::new();
    let a = p.var();
    let b = p.var();
    p.and_clause(&[a, Literal::True]);
    p.nor_clause(&[b, Literal::False]);
    assert_eq!(p.solve().unwrap(), SatSolution::new(&[a]));
    let mut p = SatProblem::new();
    let a = p.var();
    let b = p.var();
    p.nand_clause(&[a, Literal::True, b]);
    p.and_clause(&[a]);
    assert_eq!(p.solve().unwrap(), SatSolution::new(&[a]));
}

fn var(id: u32) -> Literal {
    Literal::Var { id, negated: false }
}

#[test]
fn a_model_makes_true_the_variables_whose_number_is_listed() {
    let solution = SatSolution::from_model(&[1, -2, 3, -4]);
    assert_eq!(solution, SatSolution::new(&[var(1), var(3)]));
    assert!(solution.get(var(1)));
    assert!(!solution.get(var(2)));
    assert!(solution.get(!var(2)));
    assert!(solution.get(var(3)));
    assert!(!solution.get(var(4)));
    // a number that is listed twice counts once, and a zero not at all
    assert_eq!(SatSolution::from_model(&[2, 0, 2]), SatSolution::new(&[var(2)]));
    assert_eq!(SatSolution::from_model(&[]), SatSolution::new(&[]));
    assert_eq!(SatSolution::from_model(&[-1, -2]), SatSolution::new(&[]));
}

#[test]
fn a_solution_makes_true_only_variables_that_were_handed_out() {
    let mut p = SatProblem::new();
    let a = p.var();
    let b = p.var();
    p.or_clause(&[a, b]);
    let solution = p.solve().unwrap();
    assert!(solution.get(a) || solution.get(b));
    assert!(!solution.get(var(3)));
    assert!(!solution.get(var(MAX_VARIABLES)));
    // asking does not change the formula: the same question has an answer again
    assert!(p.solve().is_some());
    p.nor_clause(&[a, b]);
    assert_eq!(p.solve(), None);
}

#[test]
fn a_variable_handed_out_after_a_query_is_false_in_the_next_answer() {
    let mut p = SatProblem::new();
    assert_eq!(p.solve(), Some(SatSolution::new(&[])));
    let a = p.var();
    let solution = p.solve().unwrap();
    assert!(!solution.get(a));
    assert_eq!(solution, SatSolution::new(&[]));

    let mut p = SatProblem::new();
    let a = p.var();
    p.or_clause(&[a]);
    let first = p.solve().unwrap();
    assert_eq!(first, SatSolution::new(&[a]));
    let b = p.var();
    let c = p.var();
    let second = p.solve().unwrap();
    assert_eq!(second, first);
    assert!(second.get(a));
    assert!(!second.get(b));
    assert!(!second.get(c));
    // a clause on the new variables makes the solver look again
    p.or_clause(&[b]);
    p.or_clause(&[!c]);
    let third = p.solve().unwrap();
    assert_eq!(third, SatSolution::new(&[a, b]));
}

#[test]
fn the_answer_is_kept_until_a_clause_is_added() {
    let mut p = SatProblem::new();
    let a = p.var();
    let b = p.var();
    p.or_clause(&[a, b]);
    let first = p.solve().unwrap();
    assert_eq!(p.solve(), Some(SatSolution::from_model(&[
        if first.get(a) { 1 } else { -1 },
        if first.get(b) { 2 } else { -2 },
    ])));
    // a clause that holds `True` adds nothing, and the answer stays
    p.or_clause(&[Literal::True, !a]);
    assert_eq!(p.solve().unwrap(), first);
    // ruling the answer out gives another one, or none
    p.or_clause(&[if first.get(a) { !a } else { a }, if first.get(b) { !b } else { b }]);
    let second = p.solve().unwrap();
    assert_ne!(second, first);
    assert!(second.get(a) || second.get(b));
}

#[test]
fn an_unsatisfiable_formula_stays_unsatisfiable_after_a_new_variable() {
    let mut p = SatProblem::new();
    let a = p.var();
    p.or_clause(&[a]);
    p.or_clause(&[!a]);
    assert_eq!(p.solve(), None);
    let b = p.var();
    assert_eq!(p.solve(), None);
    p.or_clause(&[b]);
    assert_eq!(p.solve(), None);
}

#[test]
fn a_clause_that_folds_to_nothing_is_refused() {
    let mut p = SatProblem::new();
    let a = p.var();
    assert!(!p.try_or_clause(&[Literal::False]));
    assert!(!p.try_or_clause(&[]));
    assert!(!p.try_or_clause(&[Literal::False, Literal::False]));
    // nothing was added: both values of the variable are still open
    p.or_clause(&[a]);
    assert_eq!(p.solve().unwrap(), SatSolution::new(&[a]));
    let mut p = SatProblem::new();
    let a = p.var();
    assert!(!p.try_or_clause(&[Literal::False]));
    p.or_clause(&[!a]);
    assert_eq!(p.solve().unwrap(), SatSolution::new(&[]));
}

#[test]
fn a_clause_with_a_literal_left_is_added() {
    let mut p = SatProblem::new();
    let a = p.var();
    let b = p.var();
    assert!(p.try_or_clause(&[Literal::False, a]));
    assert!(p.try_or_clause(&[!b, Literal::False]));
    assert!(p.try_or_clause(&[Literal::True]));
    assert_eq!(p.solve().unwrap(), SatSolution::new(&[a]));
    assert!(p.try_or_clause(&[!a, b]));
    assert_eq!(p.solve(), None);
}
