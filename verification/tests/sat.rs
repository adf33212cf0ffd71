use jigsaw_doubler::literal::Literal;
use jigsaw_doubler::sat::{is_contradiction, SatProblem, SatSolution};

fn next_solution(p: &mut SatProblem) -> Option<SatSolution> {
    p.solve()
}

fn assert_all_solutions(mut p: SatProblem, vars: Vec<Literal>, mut solutions: Vec<SatSolution>) {
    // whether the formula can still have a solution
    let mut open = true;
    // while expecting more solutions
    while !solutions.is_empty() {
        let solution = if open { next_solution(&mut p) } else { None };
        if let Some(solution) = solution {
            let i = solutions.iter().position(|s| s == &solution);
            // remove solutions that were expected
            if let Some(i) = i {
                solutions.swap_remove(i);

                open = exclude_solution(&mut p, &vars, &solution);
            } else {
                panic!("unexpected solution {solution:?} given vars {vars:?}");
            }
        } else {
            panic!("missing solutions {solutions:?} given vars {vars:?}");
        }
    }

    // verify no other solutions
    if open {
        if let Some(solution) = next_solution(&mut p) {
            panic!("unexpected solution {solution:?} given vars {vars:?}");
        }
    }
}

fn assert_all_solutions_ignore_hidden(
    mut p: SatProblem,
    vars: Vec<Literal>,
    mut solutions: Vec<SatSolution>,
) {
    let mut open = true;
    // while expecting more solutions
    while !solutions.is_empty() {
        let solution = if open { next_solution(&mut p) } else { None };
        if let Some(solution) = solution {
            let solution = sub_solution(&solution, &vars);
            let i = solutions.iter().position(|s| s == &solution);
            // remove solutions that were expected
            if let Some(i) = i {
                solutions.swap_remove(i);

                open = exclude_solution(&mut p, &vars, &solution);
            } else {
                panic!("unexpected solution {solution:?} given vars {vars:?}");
            }
        } else {
            panic!("missing solutions {solutions:?} given vars {vars:?}");
        }
    }

    // verify no other solutions
    if open {
        if let Some(solution) = next_solution(&mut p) {
            panic!("unexpected solution {solution:?} given vars {vars:?}");
        }
    }
}

/// Excludes the solution on `vars`. Returns false where that leaves nothing:
/// the clause that would exclude it is a contradiction, so that no other
/// solution exists.
fn exclude_solution(p: &mut SatProblem, vars: &[Literal], solution: &SatSolution) -> bool {
    let clause: Vec<Literal> = vars
        .iter()
        .copied()
        .map(|v| if solution.get(v) { !v } else { v })
        .collect();
    if is_contradiction(&clause) {
        return false;
    }
    p.or_clause(&clause);
    true
}

fn sub_solution(solution: &SatSolution, vars: &[Literal]) -> SatSolution {
    let true_vars: Vec<Literal> = vars
        .iter()
        .copied()
        .filter(|v| solution.get(*v))
        .collect();
    SatSolution::new(&true_vars)
}

#[test]
fn or_clause_1() {
    let mut p = SatProblem::new();
    let a = p.var();
    p.or_clause(&[a]);

    assert_all_solutions(p, vec![a], vec![SatSolution::new(&[a])]);
}

#[test]
fn or_clause_2() {
    let mut p = SatProblem::new();
    let a = p.var();
    let b = p.var();
    p.or_clause(&[a, b]);

    assert_all_solutions(
        p,
        vec![a, b],
        vec![
            SatSolution::new(&[a]),
            SatSolution::new(&[b]),
            SatSolution::new(&[a, b]),
        ],
    );
}

#[test]
fn or_clause_3() {
    let mut p = SatProblem::new();
    let a = p.var();
    let b = p.var();
    let c = p.var();
    p.or_clause(&[a, b, c]);

    assert_all_solutions(
        p,
        vec![a, b, c],
        vec![
            SatSolution::new(&[a]),
            SatSolution::new(&[b]),
            SatSolution::new(&[c]),
            SatSolution::new(&[a, b]),
            SatSolution::new(&[a, c]),
            SatSolution::new(&[b, c]),
            SatSolution::new(&[a, b, c]),
        ],
    );
}

#[test]
fn and_clause_0() {
    let mut p = SatProblem::new();
    p.and_clause(&[]);

    // can't use assert_all_solutions because that triggers "trivially not satisfiable"
    let expected = Some(SatSolution::new(&[]));
    let solution = p.solve();
    assert_eq!(expected, solution);
}

#[test]
fn and_clause_1() {
    let mut p = SatProblem::new();
    let a = p.var();
    p.and_clause(&[a]);

    assert_all_solutions(p, vec![a], vec![SatSolution::new(&[a])]);
}

#[test]
fn and_clause_2() {
    let mut p = SatProblem::new();
    let a = p.var();
    let b = p.var();
    p.and_clause(&[a, b]);

    assert_all_solutions(p, vec![a, b], vec![SatSolution::new(&[a, b])]);
}

#[test]
fn and_clause_3() {
    let mut p = SatProblem::new();
    let a = p.var();
    let b = p.var();
    let c = p.var();
    p.and_clause(&[a, b, c]);

    assert_all_solutions(p, vec![a, b, c], vec![SatSolution::new(&[a, b, c])]);
}

#[test]
fn nor_clause() {
    let mut p = SatProblem::new();
    let a = p.var();
    let b = p.var();
    p.nor_clause(&[a, b]);

    assert_all_solutions(p, vec![a, b], vec![SatSolution::new(&[])]);
}

#[test]
fn nand_clause() {
    let mut p = SatProblem::new();
    let a = p.var();
    let b = p.var();
    p.nand_clause(&[a, b]);

    assert_all_solutions(
        p,
        vec![a, b],
        vec![
            SatSolution::new(&[]),
            SatSolution::new(&[a]),
            SatSolution::new(&[b]),
        ],
    );
}

#[test]
fn not_clause() {
    let mut p = SatProblem::new();
    let a = p.var();
    p.not_clause(a);

    assert_all_solutions(p, vec![a], vec![SatSolution::new(&[])]);
}

#[test]
fn implies_clause() {
    let mut p = SatProblem::new();
    let a = p.var();
    let b = p.var();
    p.implies_clause(a, b);

    assert_all_solutions(
        p,
        vec![a, b],
        vec![
            SatSolution::new(&[]),
            SatSolution::new(&[b]),
            SatSolution::new(&[a, b]),
        ],
    );
}

#[test]
fn exact_count_clause_0_2() {
    let mut p = SatProblem::new();
    let a = p.var();
    let b = p.var();
    p.exact_count_clause(0, &[a, b]);

    assert_all_solutions_ignore_hidden(p, vec![a, b], vec![SatSolution::new(&[])]);
}

#[test]
fn exact_count_clause_1_2() {
    let mut p = SatProblem::new();
    let a = p.var();
    let b = p.var();
    p.exact_count_clause(1, &[a, b]);

    assert_all_solutions_ignore_hidden(
        p,
        vec![a, b],
        vec![SatSolution::new(&[a]), SatSolution::new(&[b])],
    );
}

#[test]
fn exact_count_clause_2_2() {
    let mut p = SatProblem::new();
    let a = p.var();
    let b = p.var();
    p.exact_count_clause(2, &[a, b]);

    assert_all_solutions_ignore_hidden(p, vec![a, b], vec![SatSolution::new(&[a, b])]);
}

#[test]
fn exact_count_clause_0_3() {
    let mut p = SatProblem::new();
    let a = p.var();
    let b = p.var();
    let c = p.var();
    p.exact_count_clause(0, &[a, b, c]);

    assert_all_solutions_ignore_hidden(p, vec![a, b, c], vec![SatSolution::new(&[])]);
}

#[test]
fn exact_count_clause_1_3() {
    let mut p = SatProblem::new();
    let a = p.var();
    let b = p.var();
    let c = p.var();
    p.exact_count_clause(1, &[a, b, c]);

    assert_all_solutions_ignore_hidden(
        p,
        vec![a, b, c],
        vec![
            SatSolution::new(&[a]),
            SatSolution::new(&[b]),
            SatSolution::new(&[c]),
        ],
    );
}

#[test]
fn exact_count_clause_2_3() {
    let mut p = SatProblem::new();
    let a = p.var();
    let b = p.var();
    let c = p.var();
    p.exact_count_clause(2, &[a, b, c]);

    assert_all_solutions_ignore_hidden(
        p,
        vec![a, b, c],
        vec![
            SatSolution::new(&[a, b]),
            SatSolution::new(&[a, c]),
            SatSolution::new(&[b, c]),
        ],
    );
}

#[test]
fn exact_count_clause_3_3() {
    let mut p = SatProblem::new();
    let a = p.var();
    let b = p.var();
    let c = p.var();
    p.exact_count_clause(3, &[a, b, c]);

    assert_all_solutions_ignore_hidden(p, vec![a, b, c], vec![SatSolution::new(&[a, b, c])]);
}

#[test]
fn and_var_0() {
    let mut p = SatProblem::new();
    let r = p.and_var(&[]);

    assert_all_solutions(p, vec![r], vec![SatSolution::new(&[r])]);
}

#[test]
fn and_var_1() {
    let mut p = SatProblem::new();
    let a = p.var();
    let r = p.and_var(&[a]);

    assert_all_solutions(
        p,
        vec![a, r],
        vec![SatSolution::new(&[]), SatSolution::new(&[a, r])],
    );
}

#[test]
fn and_var_2() {
    let mut p = SatProblem::new();
    let a = p.var();
    let b = p.var();
    let r = p.and_var(&[a, b]);

    assert_all_solutions(
        p,
        vec![a, b, r],
        vec![
            SatSolution::new(&[]),
            SatSolution::new(&[a]),
            SatSolution::new(&[b]),
            SatSolution::new(&[a, b, r]),
        ],
    );
}

#[test]
fn and_var_3() {
    let mut p = SatProblem::new();
    let a = p.var();
    let b = p.var();
    let c = p.var();
    let r = p.and_var(&[a, b, c]);

    assert_all_solutions(
        p,
        vec![a, b, c, r],
        vec![
            SatSolution::new(&[]),
            SatSolution::new(&[a]),
            SatSolution::new(&[b]),
            SatSolution::new(&[c]),
            SatSolution::new(&[a, b]),
            SatSolution::new(&[a, c]),
            SatSolution::new(&[b, c]),
            SatSolution::new(&[a, b, c, r]),
        ],
    );
}

#[test]
fn or_var_0() {
    let mut p = SatProblem::new();
    let r = p.or_var(&[]);

    assert_all_solutions(p, vec![r], vec![SatSolution::new(&[])]);
}

#[test]
fn or_var_1() {
    let mut p = SatProblem::new();
    let a = p.var();
    let r = p.or_var(&[a]);

    assert_all_solutions(
        p,
        vec![a, r],
        vec![SatSolution::new(&[]), SatSolution::new(&[a, r])],
    );
}

#[test]
fn or_var_2() {
    let mut p = SatProblem::new();
    let a = p.var();
    let b = p.var();
    let r = p.or_var(&[a, b]);

    assert_all_solutions(
        p,
        vec![a, b, r],
        vec![
            SatSolution::new(&[]),
            SatSolution::new(&[a, r]),
            SatSolution::new(&[b, r]),
            SatSolution::new(&[a, b, r]),
        ],
    );
}

#[test]
fn or_var_3() {
    let mut p = SatProblem::new();
    let a = p.var();
    let b = p.var();
    let c = p.var();
    let r = p.or_var(&[a, b, c]);

    assert_all_solutions(
        p,
        vec![a, b, c, r],
        vec![
            SatSolution::new(&[]),
            SatSolution::new(&[a, r]),
            SatSolution::new(&[b, r]),
            SatSolution::new(&[c, r]),
            SatSolution::new(&[a, b, r]),
            SatSolution::new(&[a, c, r]),
            SatSolution::new(&[b, c, r]),
            SatSolution::new(&[a, b, c, r]),
        ],
    );
}

#[test]
fn xor_var() {
    let mut p = SatProblem::new();
    let a = p.var();
    let b = p.var();
    let r = p.xor_var(a, b);

    assert_all_solutions(
        p,
        vec![a, b, r],
        vec![
            SatSolution::new(&[]),
            SatSolution::new(&[a, r]),
            SatSolution::new(&[b, r]),
            SatSolution::new(&[a, b]),
        ],
    );
}

#[test]
fn eq_var() {
    let mut p = SatProblem::new();
    let a = p.var();
    let b = p.var();
    let r = p.eq_var(a, b);

    assert_all_solutions(
        p,
        vec![a, b, r],
        vec![
            SatSolution::new(&[r]),
            SatSolution::new(&[a]),
            SatSolution::new(&[b]),
            SatSolution::new(&[a, b, r]),
        ],
    );
}

#[test]
fn count_var_0_0() {
    let mut p = SatProblem::new();
    let v = p.var();
    let prior = [];
    let r = p.count_var(&prior, v, 0);

    assert_all_solutions(
        p,
        vec![v, r],
        vec![SatSolution::new(&[]), SatSolution::new(&[v, r])],
    );
}

#[test]
fn count_var_1_0() {
    let mut p = SatProblem::new();
    let g0 = p.var();
    let v = p.var();
    let prior = [g0];
    let r = p.count_var(&prior, v, 0);

    assert_all_solutions(
        p,
        vec![g0, v, r],
        vec![
            SatSolution::new(&[]),
            SatSolution::new(&[g0, r]),
            SatSolution::new(&[v, r]),
            SatSolution::new(&[g0, v, r]),
        ],
    );
}

#[test]
fn count_var_1_1() {
    let mut p = SatProblem::new();
    let g0 = p.var();
    let v = p.var();
    let prior = [g0];
    let r = p.count_var(&prior, v, 1);

    assert_all_solutions(
        p,
        vec![g0, v, r],
        vec![
            SatSolution::new(&[]),
            SatSolution::new(&[g0]),
            SatSolution::new(&[v]),
            SatSolution::new(&[g0, v, r]),
        ],
    );
}

#[test]
fn count_var_2_0() {
    let mut p = SatProblem::new();
    let g0 = p.var();
    let g1 = p.var();
    let v = p.var();
    // implications are an assumption of prior
    p.implies_clause(g1, g0);
    let prior = [g0, g1];
    let r = p.count_var(&prior, v, 0);

    assert_all_solutions(
        p,
        vec![g0, g1, v, r],
        vec![
            SatSolution::new(&[]),
            SatSolution::new(&[g0, r]),
            SatSolution::new(&[g0, g1, r]),
            SatSolution::new(&[v, r]),
            SatSolution::new(&[g0, v, r]),
            SatSolution::new(&[g0, g1, v, r]),
        ],
    );
}

#[test]
fn count_var_2_1() {
    let mut p = SatProblem::new();
    let g0 = p.var();
    let g1 = p.var();
    let v = p.var();
    // implications are an assumption of prior
    p.implies_clause(g1, g0);
    let prior = [g0, g1];
    let r = p.count_var(&prior, v, 1);

    assert_all_solutions(
        p,
        vec![g0, g1, v, r],
        vec![
            SatSolution::new(&[]),
            SatSolution::new(&[g0]),
            SatSolution::new(&[g0, g1, r]),
            SatSolution::new(&[v]),
            SatSolution::new(&[g0, v, r]),
            SatSolution::new(&[g0, g1, v, r]),
        ],
    );
}

#[test]
fn count_var_2_2() {
    let mut p = SatProblem::new();
    let g0 = p.var();
    let g1 = p.var();
    let v = p.var();
    // implications are an assumption of prior
    p.implies_clause(g1, g0);
    let prior = [g0, g1];
    let r = p.count_var(&prior, v, 2);

    assert_all_solutions(
        p,
        vec![g0, g1, v, r],
        vec![
            SatSolution::new(&[]),
            SatSolution::new(&[g0]),
            SatSolution::new(&[g0, g1]),
            SatSolution::new(&[v]),
            SatSolution::new(&[g0, v]),
            SatSolution::new(&[g0, g1, v, r]),
        ],
    );
}

#[test]
fn count_up_to_vars_2_1() {
    let mut p = SatProblem::new();
    let a = p.var();
    let [g0] = p.count_up_to_vars(2, &[a]).try_into().unwrap();

    assert_all_solutions(
        p,
        vec![a, g0],
        vec![SatSolution::new(&[]), SatSolution::new(&[a, g0])],
    );
}

#[test]
fn count_up_to_vars_2_2() {
    let mut p = SatProblem::new();
    let a = p.var();
    let b = p.var();
    let [g0, g1] = p.count_up_to_vars(2, &[a, b]).try_into().unwrap();

    assert_all_solutions(
        p,
        vec![a, b, g0, g1],
        vec![
            SatSolution::new(&[]),
            SatSolution::new(&[a, g0]),
            SatSolution::new(&[b, g0]),
            SatSolution::new(&[a, b, g0, g1]),
        ],
    );
}

#[test]
fn count_up_to_vars_2_3() {
    let mut p = SatProblem::new();
    let a = p.var();
    let b = p.var();
    let c = p.var();
    let [g0, g1] = p.count_up_to_vars(2, &[a, b, c]).try_into().unwrap();

    assert_all_solutions_ignore_hidden(
        p,
        vec![a, b, c, g0, g1],
        vec![
            SatSolution::new(&[]),
            SatSolution::new(&[a, g0]),
            SatSolution::new(&[b, g0]),
            SatSolution::new(&[c, g0]),
            SatSolution::new(&[a, b, g0, g1]),
            SatSolution::new(&[a, c, g0, g1]),
            SatSolution::new(&[b, c, g0, g1]),
            SatSolution::new(&[a, b, c, g0, g1]),
        ],
    );
}

#[test]
fn count_up_to_vars_3_2() {
    let mut p = SatProblem::new();
    let a = p.var();
    let b = p.var();
    let [g0, g1] = p.count_up_to_vars(3, &[a, b]).try_into().unwrap();

    assert_all_solutions(
        p,
        vec![a, b, g0, g1],
        vec![
            SatSolution::new(&[]),
            SatSolution::new(&[a, g0]),
            SatSolution::new(&[b, g0]),
            SatSolution::new(&[a, b, g0, g1]),
        ],
    );
}

#[test]
fn count_up_to_vars_3_3() {
    let mut p = SatProblem::new();
    let a = p.var();
    let b = p.var();
    let c = p.var();
    let [g0, g1, g2] = p.count_up_to_vars(3, &[a, b, c]).try_into().unwrap();

    assert_all_solutions_ignore_hidden(
        p,
        vec![a, b, c, g0, g1, g2],
        vec![
            SatSolution::new(&[]),
            SatSolution::new(&[a, g0]),
            SatSolution::new(&[b, g0]),
            SatSolution::new(&[c, g0]),
            SatSolution::new(&[a, b, g0, g1]),
            SatSolution::new(&[a, c, g0, g1]),
            SatSolution::new(&[b, c, g0, g1]),
            SatSolution::new(&[a, b, c, g0, g1, g2]),
        ],
    );
}

#[test]
fn count_up_to_vars_3_4() {
    let mut p = SatProblem::new();
    let a = p.var();
    let b = p.var();
    let c = p.var();
    let d = p.var();
    let [g0, g1, g2] = p.count_up_to_vars(3, &[a, b, c, d]).try_into().unwrap();

    assert_all_solutions_ignore_hidden(
        p,
        vec![a, b, c, d, g0, g1, g2],
        // g1 d g0 b c
        vec![
            SatSolution::new(&[]),
            SatSolution::new(&[a, g0]),
            SatSolution::new(&[b, g0]),
            SatSolution::new(&[c, g0]),
            SatSolution::new(&[d, g0]),
            SatSolution::new(&[a, b, g0, g1]),
            SatSolution::new(&[a, c, g0, g1]),
            SatSolution::new(&[a, d, g0, g1]),
            SatSolution::new(&[b, c, g0, g1]),
            SatSolution::new(&[b, d, g0, g1]),
            SatSolution::new(&[c, d, g0, g1]),
            SatSolution::new(&[a, b, c, g0, g1, g2]),
            SatSolution::new(&[a, b, d, g0, g1, g2]),
            SatSolution::new(&[a, c, d, g0, g1, g2]),
            SatSolution::new(&[b, c, d, g0, g1, g2]),
            SatSolution::new(&[a, b, c, d, g0, g1, g2]),
        ],
    );
}
