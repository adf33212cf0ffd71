use jigsaw_doubler::literal::Literal;
use jigsaw_doubler::sat::SatProblem;

fn assignments(arity: usize) -> Vec<Vec<bool>> {
    (0..1usize << arity)
        .map(|bits| (0..arity).map(|i| bits >> i & 1 == 1).collect())
        .collect()
}

fn fix(p: &mut SatProblem, inputs: &[Literal], values: &[bool]) {
    for (input, value) in inputs.iter().zip(values) {
        p.and_clause(&[if *value { *input } else { !*input }]);
    }
}

#[test]
fn exactly_admits_the_assignments_with_that_count() {
    for len in 2..=4 {
        for k in 0..=len {
            for values in assignments(len) {
                let mut p = SatProblem::new();
                let inputs: Vec<Literal> = (0..len).map(|_| p.var()).collect();
                p.exact_count_clause(k, &inputs);
                fix(&mut p, &inputs, &values);
                let count = values.iter().filter(|v| **v).count();
                assert_eq!(
                    p.solve().is_some(),
                    count == k,
                    "exactly {k} of {len} under {values:?}"
                );
            }
        }
    }
}

#[test]
fn exactly_one_of_one() {
    let mut p = SatProblem::new();
    let a = p.var();
    p.exact_count_clause(1, &[a]);
    assert!(p.solve().unwrap().get(a));
    assert_eq!(p.num_vars(), 1);
}

#[test]
fn exactly_none_of_none() {
    let mut p = SatProblem::new();
    p.exact_count_clause(0, &[]);
    assert!(p.solve().is_some());
}

#[test]
fn count_at_least_agrees_with_counting() {
    for len in 0..=6 {
        for threshold in [0, 1, 2, len, len + 1] {
            for values in assignments(len) {
                let mut p = SatProblem::new();
                let inputs: Vec<Literal> = (0..len).map(|_| p.var()).collect();
                let table = p.count_at_least(threshold, &inputs);
                assert_eq!(table.len(), threshold + 1);
                fix(&mut p, &inputs, &values);
                let solution = p.solve().expect("the counter constrains its inputs");
                let count = values.iter().filter(|v| **v).count();
                for (c, lit) in table.iter().enumerate() {
                    assert_eq!(solution.get(*lit), count >= c, "{len} {threshold} {values:?} {c}");
                }
            }
        }
    }
}

#[test]
fn count_at_least_starts_with_true_and_ends_with_false() {
    let mut p = SatProblem::new();
    let a = p.var();
    let b = p.var();
    let table = p.count_at_least(4, &[a, b]);
    assert_eq!(table.len(), 5);
    assert_eq!(table[0], Literal::True);
    assert_eq!(table[3], Literal::False);
    assert_eq!(table[4], Literal::False);
    assert_eq!(p.count_at_least(0, &[a, b]), vec![Literal::True]);
    assert_eq!(p.count_at_least(2, &[]), vec![Literal::True, Literal::False, Literal::False]);
    assert_eq!(p.count_at_least(1, &[a]), vec![Literal::True, a]);
}

#[test]
fn counter_rows_are_cut_off() {
    let mut p = SatProblem::new();
    let inputs: Vec<Literal> = (0..5).map(|_| p.var()).collect();
    assert_eq!(p.count_up_to_vars(0, &inputs), vec![]);
    assert_eq!(p.count_up_to_vars(2, &inputs).len(), 2);
    assert_eq!(p.count_up_to_vars(5, &inputs).len(), 5);
    assert_eq!(p.count_up_to_vars(9, &inputs).len(), 5);
    assert_eq!(p.count_up_to_vars(3, &[]), vec![]);
}

#[test]
fn counter_passes_constants_through() {
    let t = Literal::True;
    let f = Literal::False;
    let mut p = SatProblem::new();
    let a = p.var();
    // one true literal and a: more than 0 is true, more than 1 is a
    assert_eq!(p.count_up_to_vars(3, &[t, a]), vec![t, a]);
    assert_eq!(p.count_up_to_vars(3, &[a, t]), vec![t, a]);
    assert_eq!(p.count_up_to_vars(3, &[f, a]), vec![a, f]);
    assert_eq!(p.count_up_to_vars(3, &[a, f, f]), vec![a, f, f]);
    assert_eq!(p.count_up_to_vars(3, &[t, t, f]), vec![t, t, f]);
    assert_eq!(p.num_vars(), 1);
}

#[test]
fn counter_row_with_a_constant_folds() {
    let t = Literal::True;
    let f = Literal::False;
    let mut p = SatProblem::new();
    let g0 = p.var();
    let g1 = p.var();
    let v = p.var();
    assert_eq!(p.count_var(&[g0, t], v, 1), t);
    assert_eq!(p.count_var(&[t, g1], v, 0), t);
    assert_eq!(p.count_var(&[f, f], v, 1), f);
    assert_eq!(p.count_var(&[t, f], v, 1), v);
    assert_eq!(p.count_var(&[g0, g1], f, 1), g1);
    assert_eq!(p.count_var(&[g0, f], t, 1), g0);
    assert_eq!(p.num_vars(), 3);
    // one variable where a disjunction is left
    assert_eq!(p.count_var(&[g0, g1], t, 1), Literal::positive(4));
    assert_eq!(p.num_vars(), 4);
}

#[test]
fn exactly_that_does_not_fit_is_not_added() {
    let mut p = SatProblem::new();
    let a = p.var();
    let b = p.var();
    // more than there are
    assert!(!p.try_exact_count_clause(3, &[a, b]));
    // none of a list with a true literal, all of a list with a false one
    assert!(!p.try_exact_count_clause(0, &[a, Literal::True]));
    assert!(!p.try_exact_count_clause(2, &[a, Literal::False]));
    // one of three of which two are true
    assert!(!p.try_exact_count_clause(1, &[a, Literal::True, Literal::True]));
    // the formula is as free as before
    for values in assignments(2) {
        let mut q = SatProblem::new();
        let a = q.var();
        let b = q.var();
        assert!(!q.try_exact_count_clause(3, &[a, b]));
        fix(&mut q, &[a, b], &values);
        assert!(q.solve().is_some());
    }
    assert!(p.try_exact_count_clause(1, &[a, b]));
    assert!(p.try_exact_count_clause(1, &[a, Literal::True, b]));
    // one of a, true, b: a and b are false
    let solution = p.solve();
    assert_eq!(solution, None);
}

#[test]
fn exactly_with_constants_counts_them() {
    for values in assignments(2) {
        let mut p = SatProblem::new();
        let a = p.var();
        let b = p.var();
        assert!(p.try_exact_count_clause(2, &[a, Literal::True, b, Literal::False]));
        fix(&mut p, &[a, b], &values);
        let count = values.iter().filter(|v| **v).count() + 1;
        assert_eq!(p.solve().is_some(), count == 2);
    }
}

#[test]
fn a_counter_with_a_large_cut_off_has_a_row_for_each_literal() {
    for values in assignments(6) {
        let mut p = SatProblem::new();
        let inputs: Vec<Literal> = (0..6).map(|_| p.var()).collect();
        let rows = p.count_up_to_vars(50_000_000, &inputs);
        assert_eq!(rows.len(), 6);
        // one variable for each row, each time a literal is taken in, at most
        assert!(p.num_vars() <= 6 + 6 * 6);
        fix(&mut p, &inputs, &values);
        let solution = p.solve().expect("every choice of inputs has a model");
        let count = values.iter().filter(|v| **v).count();
        for (c, row) in rows.iter().enumerate() {
            assert_eq!(solution.get(*row), count > c, "row {c} under {values:?}");
        }
    }
}

#[test]
fn a_table_with_a_threshold_above_the_literals_ends_in_false() {
    let mut p = SatProblem::new();
    let inputs: Vec<Literal> = (0..3).map(|_| p.var()).collect();
    let table = p.count_at_least(1000, &inputs);
    assert_eq!(table.len(), 1001);
    assert_eq!(table[0], Literal::True);
    assert!(table[4..].iter().all(|entry| *entry == Literal::False));
    assert!(p.num_vars() <= 3 + 3 * 3);
}

#[test]
fn a_row_that_folds_hands_out_no_variable() {
    let mut p = SatProblem::new();
    let a = p.var();
    let b = p.var();
    // no earlier row: row 0 is the literal itself
    assert_eq!(p.count_var(&[], a, 0), a);
    // a constant among the inputs of a gate folds it
    assert_eq!(p.count_var(&[Literal::False], a, 0), a);
    assert_eq!(p.count_var(&[Literal::True], a, 1), a);
    assert_eq!(p.count_var(&[a, Literal::True], b, 1), Literal::True);
    assert_eq!(p.num_vars(), 2);
    // no constant: one variable
    let row = p.count_var(&[a], b, 0);
    assert_eq!(p.num_vars(), 3);
    assert_eq!(row, Literal::Var { id: 3, negated: false });
}
