use lp_model::expr::{Expr, LpError, Variable, VarKind};
use lp_model::num::Num;

fn n(i: i64) -> Num {
    Num::from_int(i).unwrap()
}

#[test]
fn normalization_merges_across_nesting() {
    // (2*a + 3*b) + (-(a) + 5) flattens to {a: 1, b: 3} with constant 5.
    let a = Variable::continuous("a");
    let b = Variable::continuous("b");
    let left = Expr::term(a.clone(), n(2)).add(Expr::term(b.clone(), n(3)));
    let right = Expr::var(a.clone()).neg().add(Expr::constant(n(5)));
    let e = left.add(right);
    let f = e.normalize().unwrap();
    assert_eq!(f.terms.len(), 2);
    assert_eq!(f.terms[0].0.name, "a");
    assert_eq!(f.terms[0].1, Num::from_units(1_000_000));
    assert_eq!(f.terms[1].0.name, "b");
    assert_eq!(f.terms[1].1, Num::from_units(3_000_000));
    assert_eq!(f.constant, Num::from_units(5_000_000));
}

#[test]
fn normalization_is_order_independent() {
    let a = Variable::continuous("a");
    let b = Variable::continuous("b");
    let e1 = Expr::term(a.clone(), n(2)).add(Expr::term(b.clone(), n(3)));
    let e2 = Expr::term(b.clone(), n(3)).add(Expr::term(a.clone(), n(2)));
    let f1 = e1.normalize().unwrap();
    let f2 = e2.normalize().unwrap();
    // Same coefficient per variable, independent of construction order.
    for (v, c) in &f1.terms {
        let found = f2.terms.iter().find(|(w, _)| w.name == v.name).unwrap();
        assert_eq!(found.1, *c);
    }
    assert_eq!(f1.terms.len(), f2.terms.len());
}

#[test]
fn self_difference_elides_to_empty() {
    // a - a normalizes to no terms and constant zero.
    let a = Variable::continuous("a");
    let e = Expr::var(a.clone()).sub(Expr::var(a.clone()));
    let f = e.normalize().unwrap();
    assert_eq!(f.terms.len(), 0);
    assert_eq!(f.constant, Num::from_units(0));
}

#[test]
fn scale_distributes_exactly() {
    let a = Variable::continuous("a");
    let b = Variable::continuous("b");
    let e = Expr::var(a.clone()).sub(Expr::var(b.clone()));
    let s = e.scale(n(300)).unwrap();
    let f = s.normalize().unwrap();
    assert_eq!(f.terms[0].1, Num::from_units(300_000_000));
    assert_eq!(f.terms[1].1, Num::from_units(-300_000_000));
}

#[test]
fn empty_sum_is_additive_identity() {
    let e = Expr::sum(Vec::new());
    let f = e.normalize().unwrap();
    assert_eq!(f.terms.len(), 0);
    assert_eq!(f.constant, Num::from_units(0));
}

#[test]
fn normalize_overflow_is_reported() {
    let a = Variable::continuous("a");
    let big = Expr::term(a.clone(), Num::from_units(i64::MAX));
    let e = big.add(Expr::term(a.clone(), Num::from_units(i64::MAX)));
    assert_eq!(e.normalize().unwrap_err(), LpError::NumericOverflow);
}

#[test]
fn exact_mul_rejects_off_grid_products() {
    // 0.000001 * 0.5 falls off the millionth grid.
    let tiny = Num::from_units(1);
    let half = Num::from_units(500_000);
    assert!(tiny.exact_mul(half).is_none());
    // 2.5 * 3.3 lands exactly on it.
    let got = Num::from_units(2_500_000).exact_mul(Num::from_units(3_300_000)).unwrap();
    assert_eq!(got, Num::from_units(8_250_000));
}

#[test]
fn variable_kinds_are_kept() {
    assert_eq!(Variable::integer("x").kind, VarKind::Integer);
    assert_eq!(Variable::binary("y").kind, VarKind::Binary);
    assert_eq!(Variable::continuous("z").kind, VarKind::Continuous);
}

#[test]
fn num_constructors_and_checked_ops() {
    assert!(Num::from_int(i64::MAX).is_none());
    assert_eq!(Num::from_int(7).unwrap(), Num::from_units(7_000_000));
    assert!(Num::from_units(i64::MAX).checked_add(Num::from_units(1)).is_none());
    assert!(Num::from_units(i64::MIN).checked_neg().is_none());
    assert_eq!(
        Num::from_units(-3).checked_neg().unwrap(),
        Num::from_units(3)
    );
}
