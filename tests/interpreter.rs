use zokrates_core::expression::{FlatVariable, LinComb, QuadComb};
use zokrates_core::field::Bn128Field;
use zokrates_core::interpreter::{Directive, Error, Interpreter, Prog, Statement};
use zokrates_core::solvers::Solver;

fn f(n: i64) -> Bn128Field {
    Bn128Field::from_i64(n)
}

#[test]
fn execute() {
    let cond_eq = Solver::ConditionEq;
    let inputs = vec![0];
    let interpreter = Interpreter::default();
    let r = interpreter
        .execute_solver(&cond_eq, &inputs.iter().map(|&i| Bn128Field::from_u64(i)).collect())
        .unwrap();
    let res: Vec<Bn128Field> = vec![0, 1].iter().map(|&i| Bn128Field::from_u64(i)).collect();
    assert_eq!(r, &res[..]);
}

#[test]
fn execute_non_eq() {
    let cond_eq = Solver::ConditionEq;
    let inputs = vec![1];
    let interpreter = Interpreter::default();
    let r = interpreter
        .execute_solver(&cond_eq, &inputs.iter().map(|&i| Bn128Field::from_u64(i)).collect())
        .unwrap();
    let res: Vec<Bn128Field> = vec![1, 1].iter().map(|&i| Bn128Field::from_u64(i)).collect();
    assert_eq!(r, &res[..]);
}

#[test]
fn bits_of_one() {
    let inputs = vec![Bn128Field::from_u64(1)];
    let interpreter = Interpreter::default();
    let res = interpreter
        .execute_solver(&Solver::Bits(Bn128Field::get_required_bits()), &inputs)
        .unwrap();
    assert_eq!(res[253], Bn128Field::from_u64(1));
    for i in 0..253 {
        assert_eq!(res[i], Bn128Field::from_u64(0));
    }
}

#[test]
fn bits_of_42() {
    let inputs = vec![Bn128Field::from_u64(42)];
    let interpreter = Interpreter::default();
    let res = interpreter
        .execute_solver(&Solver::Bits(Bn128Field::get_required_bits()), &inputs)
        .unwrap();
    assert_eq!(res[253], Bn128Field::from_u64(0));
    assert_eq!(res[252], Bn128Field::from_u64(1));
    assert_eq!(res[251], Bn128Field::from_u64(0));
    assert_eq!(res[250], Bn128Field::from_u64(1));
    assert_eq!(res[249], Bn128Field::from_u64(0));
    assert_eq!(res[248], Bn128Field::from_u64(1));
    assert_eq!(res[247], Bn128Field::from_u64(0));
}

#[test]
fn condition_eq_inverse() {
    let r = Interpreter::default().execute_solver(&Solver::ConditionEq, &vec![f(4)]).unwrap();
    assert_eq!(r[0], f(1));
    assert_eq!(r[1].mul(&f(4)), f(1));
}

#[test]
fn bits_of_small_width() {
    let r = Interpreter::default().execute_solver(&Solver::Bits(4), &vec![f(11)]).unwrap();
    assert_eq!(r, vec![f(1), f(0), f(1), f(1)]);
    assert!(Interpreter::default().execute_solver(&Solver::Bits(3), &vec![f(11)]).is_err());
}

#[test]
fn boolean_solvers() {
    let i = Interpreter::default();
    for (x, y) in [(0i64, 0i64), (0, 1), (1, 0), (1, 1)] {
        let xor = i.execute_solver(&Solver::Xor, &vec![f(x), f(y)]).unwrap();
        assert_eq!(xor, vec![f(x ^ y)]);
        let or = i.execute_solver(&Solver::Or, &vec![f(x), f(y)]).unwrap();
        assert_eq!(or, vec![f(x | y)]);
    }
    let ch = i.execute_solver(&Solver::ShaCh, &vec![f(3), f(5), f(2)]).unwrap();
    assert_eq!(ch, vec![f(3 * (5 - 2) + 2)]);
    let maj = i.execute_solver(&Solver::ShaAndXorAndXorAnd, &vec![f(1), f(0), f(1)]).unwrap();
    assert_eq!(maj, vec![f(0 * 1 - (2 * 0 * 1 - 0 - 1) * 1)]);
}

#[test]
fn division_solver() {
    let i = Interpreter::default();
    assert_eq!(i.execute_solver(&Solver::Div, &vec![f(21), f(7)]).unwrap(), vec![f(3)]);
    assert!(i.execute_solver(&Solver::Div, &vec![f(21), f(0)]).is_err());
    assert_eq!(Solver::Div.get_signature(), (2, 1));
    assert_eq!(Solver::Bits(8).get_signature(), (1, 8));
}

#[test]
fn assigning_constraint() {
    let a = FlatVariable::new(0);
    let b = FlatVariable::new(1);
    let prog = Prog {
        arguments: vec![a],
        statements: vec![Statement::Constraint(
            QuadComb::from_linear_combinations(LinComb::one(), LinComb::summand(f(7), a)),
            LinComb::from_variable(b),
        )],
    };
    let w = Interpreter::default().execute(&prog, &vec![f(3)]).unwrap();
    assert_eq!(w.0.get(&b.id), Some(&f(21)));
    assert_eq!(w.0.get(&FlatVariable::one().id), Some(&f(1)));
    assert_eq!(w.0.get(&a.id), Some(&f(3)));
}

#[test]
fn unsatisfied_constraint() {
    let a = FlatVariable::new(0);
    let prog = Prog {
        arguments: vec![a],
        statements: vec![Statement::Constraint(
            QuadComb::from_linear_combinations(LinComb::one(), LinComb::summand(f(2), a)),
            LinComb::one(),
        )],
    };
    let e = Interpreter::default().execute(&prog, &vec![f(3)]).unwrap_err();
    assert_eq!(
        e,
        Error::UnsatisfiedConstraint { left: String::from("6"), right: String::from("1") }
    );
    assert_eq!(e.to_string(), "Expected 6 to equal 1");
}

#[test]
fn wrong_input_count() {
    let prog = Prog { arguments: vec![FlatVariable::new(0), FlatVariable::new(1)], statements: vec![] };
    let e = Interpreter::default().execute(&prog, &vec![f(1)]).unwrap_err();
    assert_eq!(e, Error::WrongInputCount { expected: 2, received: 1 });
    assert_eq!(e.to_string(), "Program takes 2 inputs but was passed 1 value");
    let one = Error::WrongInputCount { expected: 1, received: 2 };
    assert_eq!(one.to_string(), "Program takes 1 input but was passed 2 values");
}

#[test]
fn directive_then_check() {
    let x = FlatVariable::new(0);
    let bits: Vec<FlatVariable> = (1..4).map(FlatVariable::new).collect();
    let mut sum = LinComb::zero();
    for (i, b) in bits.iter().enumerate() {
        sum = sum.add(LinComb::summand(f(1 << (2 - i)), *b));
    }
    let prog = Prog {
        arguments: vec![x],
        statements: vec![
            Statement::Directive(Directive {
                inputs: vec![QuadComb::from_variable(x)],
                outputs: bits.clone(),
                solver: Solver::Bits(3),
            }),
            Statement::Constraint(QuadComb::from_lin_comb(sum), LinComb::from_variable(x)),
        ],
    };
    let w = Interpreter::default().execute(&prog, &vec![f(6)]).unwrap();
    assert_eq!(w.0.get(&bits[0].id), Some(&f(1)));
    assert_eq!(w.0.get(&bits[1].id), Some(&f(1)));
    assert_eq!(w.0.get(&bits[2].id), Some(&f(0)));
    let e = Interpreter::default().execute(&prog, &vec![f(9)]).unwrap_err();
    assert_eq!(e, Error::Solver);
}

#[test]
fn out_of_range_bits_when_asked() {
    let x = FlatVariable::new(0);
    let y = FlatVariable::new(1);
    let bits: Vec<FlatVariable> = (2..256).map(FlatVariable::new).collect();
    let input = QuadComb::from_lin_comb(LinComb::from_variable(x).add(LinComb::from_variable(y)));
    let prog = Prog {
        arguments: vec![x, y],
        statements: vec![Statement::Directive(Directive {
            inputs: vec![input],
            outputs: bits.clone(),
            solver: Solver::Bits(254),
        })],
    };
    let plain = Interpreter::default().execute(&prog, &vec![f(1), f(2)]).unwrap();
    let shifted = Interpreter::try_out_of_range().execute(&prog, &vec![f(1), f(2)]).unwrap();
    // 3 + p in binary ends in ...0100 since p ends in ...0001
    assert_eq!(plain.0.get(&bits[253].id), Some(&f(1)));
    assert_eq!(plain.0.get(&bits[252].id), Some(&f(1)));
    assert_eq!(shifted.0.get(&bits[253].id), Some(&f(0)));
    assert_eq!(shifted.0.get(&bits[252].id), Some(&f(0)));
    assert_eq!(shifted.0.get(&bits[251].id), Some(&f(1)));
}

#[test]
fn schedule_check() {
    let a = FlatVariable::new(0);
    let b = FlatVariable::new(1);
    let c = FlatVariable::new(2);
    let good = Prog {
        arguments: vec![a],
        statements: vec![
            Statement::Constraint(QuadComb::from_variable(a), LinComb::from_variable(b)),
            Statement::Constraint(QuadComb::from_variable(b), LinComb::from_variable(a)),
        ],
    };
    assert!(good.is_well_scheduled());
    let reads_unbound = Prog {
        arguments: vec![a],
        statements: vec![Statement::Constraint(
            QuadComb::from_variable(c),
            LinComb::from_variable(b),
        )],
    };
    assert!(!reads_unbound.is_well_scheduled());
    let rebinds = Prog {
        arguments: vec![a],
        statements: vec![Statement::Directive(Directive {
            inputs: vec![QuadComb::from_variable(a)],
            outputs: vec![a],
            solver: Solver::Bits(1),
        })],
    };
    assert!(!rebinds.is_well_scheduled());
    let wrong_arity = Prog {
        arguments: vec![a],
        statements: vec![Statement::Directive(Directive {
            inputs: vec![QuadComb::from_variable(a)],
            outputs: vec![b],
            solver: Solver::Xor,
        })],
    };
    assert!(!wrong_arity.is_well_scheduled());
}

#[test]
fn round_trip_on_witness() {
    let a = FlatVariable::new(0);
    let b = FlatVariable::new(1);
    let c = FlatVariable::new(2);
    let prog = Prog {
        arguments: vec![a, b],
        statements: vec![
            Statement::Constraint(
                QuadComb::from_linear_combinations(LinComb::from_variable(a), LinComb::from_variable(b)),
                LinComb::from_variable(c),
            ),
            Statement::Constraint(
                QuadComb::from_linear_combinations(LinComb::from_variable(b), LinComb::from_variable(a)),
                LinComb::from_variable(c),
            ),
        ],
    };
    assert!(prog.is_well_scheduled());
    let w = Interpreter::default().execute(&prog, &vec![f(5), f(-2)]).unwrap();
    assert_eq!(w.0.get(&c.id), Some(&f(-10)));
    for s in prog.statements.iter() {
        if let Statement::Constraint(q, l) = s {
            assert_eq!(q.evaluate(&w.0), l.evaluate(&w.0));
        }
    }
    assert_eq!(w.0.len(), 4);
}

#[test]
fn solver_error_text() {
    assert_eq!(Error::Solver.to_string(), "Solver failed");
}

#[test]
fn field_limbs_and_text() {
    let m = Bn128Field::max_value();
    assert_eq!(
        m.to_dec_string(),
        "21888242871839275222246405745257275088548364400416034343698204186575808495616"
    );
    assert_eq!(m.to_compact_dec_string(), "(-1)");
    assert_eq!(m.add(&f(1)), f(0));
    let (lo, hi) = f(12345).limbs();
    assert_eq!((lo, hi), (12345u128, 0u128));
    assert_eq!(Bn128Field::from_limbs(lo, hi), Some(f(12345)));
    let (plo, phi) = m.limbs();
    assert!(Bn128Field::from_limbs(plo + 1, phi).is_none());
    assert_eq!(f(3).inverse_mul().unwrap().mul(&f(3)), f(1));
    assert!(f(0).inverse_mul().is_none());
}
