use lp_model::expr::{Expr, LpError, Variable};
use lp_model::num::Num;
use lp_model::problem::{Problem, Sense};

fn n(i: i64) -> Num {
    Num::from_int(i).unwrap()
}

fn build_example() -> Problem {
    let a = Variable::integer("a");
    let b = Variable::integer("b");
    let mut problem = Problem::new("Problem".to_string(), Sense::Maximize);
    let obj = Expr::term(a.clone(), n(10)).add(Expr::term(b.clone(), n(20)));
    problem.add_to_objective(&obj).unwrap();
    let c1 = Expr::var(a.clone())
        .sub(Expr::var(b.clone()))
        .scale(n(300))
        .unwrap()
        .ge(Expr::constant(n(100)))
        .unwrap();
    problem.add_constraint(c1).unwrap();
    let c2 = Expr::var(a.clone())
        .neg()
        .add(Expr::var(b.clone()))
        .scale(n(300))
        .unwrap()
        .le(Expr::constant(n(100)))
        .unwrap();
    problem.add_constraint(c2).unwrap();
    let c3 = Expr::var(a.clone())
        .add(Expr::var(b.clone()))
        .le(Expr::constant(n(10)))
        .unwrap();
    problem.add_constraint(c3).unwrap();
    let parts = vec![
        Expr::var(a.clone()).scale(n(3)).unwrap(),
        Expr::var(b.clone()).scale(n(3)).unwrap(),
    ];
    let c4 = Expr::sum(parts).equal(Expr::constant(n(10))).unwrap();
    problem.add_constraint(c4).unwrap();
    problem
}

#[test]
fn end_to_end_model_text() {
    // Maximize 10a + 20b under the four constraints, emitted in
    // insertion order with the objective first.
    let problem = build_example();
    let text = problem.to_lp_string();
    let expected = "\\ Problem\n\n\
Maximize\n\
\x20 obj: 10 a + 20 b\n\n\
Subject To\n\
\x20 c1: 300 a - 300 b >= 100\n\
\x20 c2: -300 a + 300 b <= 100\n\
\x20 c3: 1 a + 1 b <= 10\n\
\x20 c4: 3 a + 3 b = 10\n\n\
Generals\n\
\x20 a\n\
\x20 b\n";
    assert_eq!(text, expected);
}

#[test]
fn writing_twice_is_byte_identical() {
    let problem = build_example();
    let first = problem.to_lp_string();
    let second = problem.to_lp_string();
    assert_eq!(first.into_bytes(), second.into_bytes());
}

#[test]
fn fractional_coefficients_render_fixed() {
    let x = Variable::continuous("x");
    let mut problem = Problem::new("frac".to_string(), Sense::Minimize);
    let obj = Expr::term(x.clone(), Num::from_units(2_500_000));
    problem.add_to_objective(&obj).unwrap();
    let c = Expr::term(x.clone(), Num::from_units(-1_500_000))
        .le(Expr::constant(Num::from_units(750_000)))
        .unwrap();
    problem.add_constraint(c).unwrap();
    let text = problem.to_lp_string();
    let expected = "\\ frac\n\nMinimize\n  obj: 2.5 x\n\nSubject To\n  c1: -1.5 x <= 0.75\n";
    assert_eq!(text, expected);
}

#[test]
fn binaries_block_lists_binary_variables() {
    let y = Variable::binary("y");
    let mut problem = Problem::new("bin".to_string(), Sense::Minimize);
    problem.add_to_objective(&Expr::var(y.clone())).unwrap();
    let text = problem.to_lp_string();
    assert!(text.ends_with("Binaries\n  y\n"));
    assert!(!text.contains("Generals"));
}

#[test]
fn duplicate_variable_kind_is_rejected() {
    let x1 = Variable::integer("x");
    let x2 = Variable::binary("x");
    let mut problem = Problem::new("dup".to_string(), Sense::Minimize);
    problem.add_to_objective(&Expr::var(x1)).unwrap();
    let c = Expr::var(x2).le(Expr::constant(n(1))).unwrap();
    match problem.add_constraint(c) {
        Err(LpError::DuplicateVariableKind(name)) => assert_eq!(name, "x"),
        other => panic!("expected a duplicate-kind error, got {:?}", other),
    }
    // Nothing was recorded by the failed call.
    assert_eq!(problem.constraints.len(), 0);
    assert_eq!(problem.variables.len(), 1);
}

#[test]
fn unique_name_has_fresh_suffix() {
    let p = Problem::new("abc".to_string(), Sense::Minimize);
    assert_eq!(p.unique_name.len(), "abc".len() + 37);
    assert!(p.unique_name.starts_with("abc_"));
    assert!(p.model_file_name().ends_with(".lp"));
    let q = Problem::new("abc".to_string(), Sense::Minimize);
    assert_ne!(p.unique_name, q.unique_name);
}
