//! Tests of the built-in type system and its registry.

use aflak_cake::dst::EvalResult;
use aflak_cake::dst::Input;
use aflak_cake::dst::Output;
use aflak_cake::dst::DST;
use aflak_cake::serial::from_serial;
use aflak_cake::serial::to_serial;
use aflak_cake::transform::Invoke;
use aflak_cake::transform::NamedAlgorithms;
use aflak_cake::transform::Transformation;
use aflak_cake::transform::TypeContent;
use aflak_cake::values::PrimErr;
use aflak_cake::values::PrimFun;
use aflak_cake::values::PrimType;
use aflak_cake::values::PrimVal;

#[test]
fn builtin_values_report_their_types() {
    assert_eq!(PrimVal::Integer(3).get_type(), PrimType::Integer);
    assert_eq!(PrimVal::Boolean(true).get_type(), PrimType::Boolean);
    assert!(PrimVal::same_type(&PrimType::Integer, &PrimType::Integer));
    assert!(!PrimVal::same_type(&PrimType::Integer, &PrimType::Boolean));
}

#[test]
fn builtin_add_computes_and_overflows() {
    let out = PrimFun::Add.invoke(vec![PrimVal::Integer(40), PrimVal::Integer(2)]);
    assert_eq!(out, vec![Ok(PrimVal::Integer(42))]);
    let out = PrimFun::Add.invoke(vec![PrimVal::Integer(i64::MAX), PrimVal::Integer(1)]);
    assert_eq!(out, vec![Err(PrimErr::Overflow)]);
    let out = PrimFun::Add.invoke(vec![PrimVal::Integer(1), PrimVal::Boolean(false)]);
    assert_eq!(out, vec![Err(PrimErr::BadArguments)]);
}

#[test]
fn builtin_negate_computes_and_overflows() {
    let out = PrimFun::Negate.invoke(vec![PrimVal::Integer(7)]);
    assert_eq!(out, vec![Ok(PrimVal::Integer(-7))]);
    let out = PrimFun::Negate.invoke(vec![PrimVal::Integer(i64::MIN)]);
    assert_eq!(out, vec![Err(PrimErr::Overflow)]);
    let out = PrimFun::Negate.invoke(vec![]);
    assert_eq!(out, vec![Err(PrimErr::BadArguments)]);
}

#[test]
fn builtin_registry_resolves_names() {
    let add = PrimVal::get_transform("add").unwrap();
    assert_eq!(add.name, "add");
    assert_eq!(add.input, vec![PrimType::Integer, PrimType::Integer]);
    assert_eq!(add.output, vec![PrimType::Integer]);
    let neg = PrimVal::get_transform("negate").unwrap();
    assert_eq!(neg.input, vec![PrimType::Integer]);
    assert!(PrimVal::get_transform("frobnicate").is_none());
}

#[test]
fn builtin_graph_evaluates_through_registry() {
    let mut d: DST<PrimVal> = DST::new();
    let c1 = d.add_owned_transform(Transformation::new_constant(PrimVal::Integer(40)));
    let c2 = d.add_owned_transform(Transformation::new_constant(PrimVal::Integer(2)));
    let add = d.add_transform("add").unwrap();
    let neg = d.add_transform("negate").unwrap();
    d.connect(Output { node: c1, index: 0 }, Input { node: add, index: 0 }).unwrap();
    d.connect(Output { node: c2, index: 0 }, Input { node: add, index: 1 }).unwrap();
    d.connect(Output { node: add, index: 0 }, Input { node: neg, index: 0 }).unwrap();
    let sink = Output { node: neg, index: 0 };
    d.attach_output(sink).unwrap();
    assert!(matches!(d.compute(sink), EvalResult::Value(PrimVal::Integer(-42))));
    // an overflow in the middle short-circuits to the sink
    d.update_constant(c1, PrimVal::Integer(i64::MAX)).unwrap();
    d.update_constant(c2, PrimVal::Integer(1)).unwrap();
    assert!(matches!(d.compute(sink), EvalResult::AlgoError(PrimErr::Overflow)));
}

#[test]
fn builtin_graph_round_trips() {
    let mut d: DST<PrimVal> = DST::new();
    let c = d.add_owned_transform(Transformation::new_constant(PrimVal::Integer(5)));
    let neg = d.add_transform("negate").unwrap();
    d.connect(Output { node: c, index: 0 }, Input { node: neg, index: 0 }).unwrap();
    let sink = Output { node: neg, index: 0 };
    d.attach_output(sink).unwrap();
    let s = to_serial(&d);
    let mut d2 = from_serial::<PrimVal>(&s).unwrap();
    assert!(matches!(d2.compute(sink), EvalResult::Value(PrimVal::Integer(-5))));
}
