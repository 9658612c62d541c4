use zokrates_core::expression::{FlatVariable, LinComb, QuadComb};
use zokrates_core::field::Bn128Field;

fn var(n: usize) -> LinComb {
    LinComb::from_variable(FlatVariable::new(n))
}

fn f(n: i64) -> Bn128Field {
    Bn128Field::from_i64(n)
}

#[test]
fn add_zero() {
    let a = LinComb::zero();
    let b = var(42);
    let c = a.add(b.clone());
    assert_eq!(c, b);
}

#[test]
fn add() {
    let a = var(42);
    let b = var(42);
    let c = a.add(b);
    let expected_vec = vec![(FlatVariable::new(42), f(1)), (FlatVariable::new(42), f(1))];
    assert_eq!(c, LinComb(expected_vec));
}

#[test]
fn sub() {
    let a = var(42);
    let b = var(42);
    let c = a.sub(b);
    let expected_vec = vec![(FlatVariable::new(42), f(1)), (FlatVariable::new(42), f(-1))];
    assert_eq!(c, LinComb(expected_vec));
}

#[test]
fn display() {
    let a = var(42).add(LinComb::summand(f(3), FlatVariable::new(21)));
    assert_eq!(&a.to_string(), "3 * _21 + 1 * _42");
    let zero = LinComb::zero();
    assert_eq!(&zero.to_string(), "0");
}

#[test]
fn from_linear() {
    let a = LinComb::summand(f(3), FlatVariable::new(42))
        .add(LinComb::summand(f(4), FlatVariable::new(33)));
    let expected = QuadComb { left: LinComb::one(), right: a.clone() };
    assert_eq!(QuadComb::from_lin_comb(a), expected);
}

#[test]
fn zero() {
    let a = LinComb::zero();
    let expected = QuadComb { left: LinComb::one(), right: LinComb::zero() };
    assert_eq!(QuadComb::from_lin_comb(a), expected);
}

#[test]
fn expression_display() {
    let a = QuadComb {
        left: LinComb::summand(f(3), FlatVariable::new(42))
            .add(LinComb::summand(f(4), FlatVariable::new(33))),
        right: LinComb::summand(f(1), FlatVariable::new(21)),
    };
    assert_eq!(&a.to_string(), "(4 * _33 + 3 * _42) * (1 * _21)");
    let a = QuadComb { left: LinComb::zero(), right: LinComb::summand(f(1), FlatVariable::new(21)) };
    assert_eq!(&a.to_string(), "(0) * (1 * _21)");
}

#[test]
fn try_summand() {
    let summand = LinComb(vec![
        (FlatVariable::new(42), f(1)),
        (FlatVariable::new(42), f(2)),
        (FlatVariable::new(42), f(3)),
    ]);
    assert_eq!(summand.try_summand(), Ok((FlatVariable::new(42), f(6))));

    let not_summand = LinComb(vec![
        (FlatVariable::new(41), f(1)),
        (FlatVariable::new(42), f(2)),
        (FlatVariable::new(42), f(3)),
    ]);
    assert!(not_summand.try_summand().is_err());

    let empty = LinComb(vec![]);
    assert!(empty.try_summand().is_err());
}

#[test]
fn canonicalization_collapse() {
    let l = LinComb(vec![
        (FlatVariable::new(42), f(1)),
        (FlatVariable::new(42), f(-1)),
        (FlatVariable::new(7), f(3)),
    ]);
    let r = l.clone().reduce();
    assert_eq!(r.0, vec![(FlatVariable::new(7), f(3))]);
    assert_eq!(&l.to_string(), "3 * _7");
}

#[test]
fn canonical_sorts_and_sums() {
    let l = LinComb(vec![
        (FlatVariable::new(5), f(2)),
        (FlatVariable::one(), f(4)),
        (FlatVariable::new(5), f(3)),
        (FlatVariable::new(1), f(0)),
    ]);
    let c = l.into_canonical();
    assert_eq!(c.0, vec![(FlatVariable::one(), f(4)), (FlatVariable::new(5), f(5))]);
}

#[test]
fn canonical_idempotent_on_example() {
    let l = var(3).add(var(1)).add(var(3)).sub(var(1));
    let once = l.clone().reduce();
    let twice = once.clone().reduce();
    assert_eq!(once.0, twice.0);
    assert_eq!(once.0, vec![(FlatVariable::new(3), f(2))]);
}

#[test]
fn equality_is_canonical() {
    let a = var(1).add(var(2));
    let b = var(2).add(var(1));
    assert_eq!(a, b);
    let c = var(1).add(var(1));
    let d = LinComb::summand(f(2), FlatVariable::new(1));
    assert_eq!(c, d);
    assert_ne!(var(1), var(2));
}

#[test]
fn add_normalizes_through_canonical() {
    let a = var(1).add(var(2)).add(var(1));
    let b = var(2).sub(var(1));
    let direct = a.clone().add(b.clone()).reduce();
    let via = a.reduce().add(b.reduce()).reduce();
    assert_eq!(direct.0, via.0);
    assert_eq!(direct.0, vec![(FlatVariable::new(1), f(1)), (FlatVariable::new(2), f(2))]);
}

#[test]
fn sub_self_is_zero() {
    let l = var(4).add(LinComb::summand(f(9), FlatVariable::new(2)));
    let d = l.clone().sub(l).reduce();
    assert!(d.is_zero());
}

#[test]
fn scalar_one_is_identity() {
    let l = LinComb(vec![(FlatVariable::new(3), f(5)), (FlatVariable::new(3), f(7))]);
    let m = l.clone().mul(&Bn128Field::one());
    assert_eq!(m.0, l.0);
    let k = l.clone().mul(&f(2));
    assert_eq!(k.0, vec![(FlatVariable::new(3), f(10)), (FlatVariable::new(3), f(14))]);
}

#[test]
fn div_by_scalar() {
    let l = LinComb::summand(f(6), FlatVariable::new(1));
    let d = l.div(&f(3));
    assert_eq!(d.0, vec![(FlatVariable::new(1), f(2))]);
}

#[test]
fn try_constant_cases() {
    assert_eq!(LinComb::zero().try_constant(), Ok(f(0)));
    let k = LinComb(vec![(FlatVariable::one(), f(2)), (FlatVariable::one(), f(5))]);
    assert_eq!(k.try_constant(), Ok(f(7)));
    let not_constant = LinComb(vec![(FlatVariable::one(), f(2)), (FlatVariable::new(0), f(5))]);
    assert!(not_constant.try_constant().is_err());
}

#[test]
fn try_linear_cases() {
    let q = QuadComb::from_linear_combinations(LinComb::zero(), var(1));
    assert!(q.try_linear().unwrap().is_zero());
    let q = QuadComb::from_linear_combinations(LinComb::from_field(f(3)), var(1));
    assert_eq!(q.try_linear().unwrap().0, vec![(FlatVariable::new(1), f(3))]);
    let q = QuadComb::from_linear_combinations(var(2), LinComb::from_field(f(4)));
    assert_eq!(q.try_linear().unwrap().0, vec![(FlatVariable::new(2), f(4))]);
    let q = QuadComb::from_linear_combinations(var(2), var(1));
    let back = q.try_linear().unwrap_err();
    assert_eq!(back.left.0, vec![(FlatVariable::new(2), f(1))]);
    assert_eq!(back.right.0, vec![(FlatVariable::new(1), f(1))]);
}

#[test]
fn negative_coefficient_display() {
    let l = LinComb::summand(f(-2), FlatVariable::one());
    assert_eq!(&l.to_string(), "(-2) * ~one");
}

#[test]
fn try_constant_value_under_witness() {
    let mut w = std::collections::BTreeMap::new();
    w.insert(FlatVariable::one().id, Bn128Field::one());
    w.insert(FlatVariable::new(0).id, f(9));
    let k = LinComb(vec![(FlatVariable::one(), f(2)), (FlatVariable::one(), f(5))]);
    let v = k.evaluate(&w).unwrap();
    assert_eq!(k.try_constant(), Ok(v));
}

#[test]
fn try_linear_value_under_witness() {
    let mut w = std::collections::BTreeMap::new();
    w.insert(FlatVariable::one().id, Bn128Field::one());
    w.insert(FlatVariable::new(0).id, f(9));
    w.insert(FlatVariable::new(1).id, f(-4));
    let right = var(0).add(LinComb::summand(f(3), FlatVariable::new(1)));
    let q = QuadComb::from_linear_combinations(LinComb::from_field(f(6)), right);
    let product = q.evaluate(&w).unwrap();
    let m = q.try_linear().unwrap();
    assert_eq!(m.evaluate(&w).unwrap(), product);
    assert_eq!(product, f(6 * (9 - 12)));
}
