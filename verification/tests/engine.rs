//! End-to-end tests of the graph engine over a small concrete type system
//! with integers and floats.

use std::cell::Cell;
use std::rc::Rc;

use aflak_cake::dst::ComputationState;
use aflak_cake::dst::DSTError;
use aflak_cake::dst::EvalResult;
use aflak_cake::dst::Input;
use aflak_cake::dst::Output;
use aflak_cake::dst::DST;
use aflak_cake::transform::Algorithm;
use aflak_cake::transform::Invoke;
use aflak_cake::transform::Transformation;
use aflak_cake::transform::TypeContent;

#[derive(Clone, Debug, PartialEq)]
pub enum Val {
    Integer(i64),
    Float(f64),
}

#[derive(Clone, Copy, Debug, PartialEq, Eq)]
pub enum ValType {
    Integer,
    Float,
}

#[derive(Clone, Debug, PartialEq)]
pub enum ValErr {
    DivByZero,
}

#[derive(Clone)]
pub enum FunKind {
    Add,
    Divide,
    Double,
}

/// A callable handle; it counts its invocations through a shared cell so
/// tests can observe how often algorithms actually ran.
#[derive(Clone)]
pub struct Fun {
    pub kind: FunKind,
    pub counter: Rc<Cell<u64>>,
}

impl Fun {
    pub fn new(kind: FunKind) -> (Fun, Rc<Cell<u64>>) {
        let counter = Rc::new(Cell::new(0));
        (Fun { kind, counter: counter.clone() }, counter)
    }
}

impl TypeContent for Val {
    type Type = ValType;
    type Err = ValErr;
    type Fun = Fun;

    fn spec_type(&self) -> ValType {
        panic!("specification-only item")
    }

    fn get_type(&self) -> ValType {
        match self {
            Val::Integer(_) => ValType::Integer,
            Val::Float(_) => ValType::Float,
        }
    }

    fn duplicate(&self) -> Val {
        self.clone()
    }

    fn duplicate_err(e: &ValErr) -> ValErr {
        e.clone()
    }

    fn same_type(a: &ValType, b: &ValType) -> bool {
        a == b
    }
}

impl Invoke<Val, ValErr> for Fun {
    fn spec_invoke(&self, _args: vstd::prelude::Seq<Val>) -> vstd::prelude::Seq<Result<Val, ValErr>> {
        panic!("specification-only item")
    }

    fn invoke(&self, args: Vec<Val>) -> Vec<Result<Val, ValErr>> {
        self.counter.set(self.counter.get() + 1);
        match self.kind {
            FunKind::Add => {
                let a = match &args[0] {
                    Val::Integer(a) => *a,
                    _ => panic!("add expects integers"),
                };
                let b = match &args[1] {
                    Val::Integer(b) => *b,
                    _ => panic!("add expects integers"),
                };
                vec![Ok(Val::Integer(a + b))]
            }
            FunKind::Divide => {
                let a = match &args[0] {
                    Val::Float(a) => *a,
                    _ => panic!("divide expects floats"),
                };
                let b = match &args[1] {
                    Val::Float(b) => *b,
                    _ => panic!("divide expects floats"),
                };
                if b == 0.0 {
                    vec![Err(ValErr::DivByZero)]
                } else {
                    vec![Ok(Val::Float(a / b))]
                }
            }
            FunKind::Double => {
                let a = match &args[0] {
                    Val::Float(a) => *a,
                    _ => panic!("double expects a float"),
                };
                vec![Ok(Val::Float(a * 2.0))]
            }
        }
    }

    fn duplicate(&self) -> Fun {
        self.clone()
    }
}

pub fn add_transformation() -> (Transformation<Val>, Rc<Cell<u64>>) {
    let (fun, counter) = Fun::new(FunKind::Add);
    (
        Transformation {
            name: "add".to_string(),
            input: vec![ValType::Integer, ValType::Integer],
            output: vec![ValType::Integer],
            algorithm: Algorithm::Function(fun),
        },
        counter,
    )
}

pub fn divide_transformation() -> (Transformation<Val>, Rc<Cell<u64>>) {
    let (fun, counter) = Fun::new(FunKind::Divide);
    (
        Transformation {
            name: "divide".to_string(),
            input: vec![ValType::Float, ValType::Float],
            output: vec![ValType::Float],
            algorithm: Algorithm::Function(fun),
        },
        counter,
    )
}

pub fn double_transformation() -> (Transformation<Val>, Rc<Cell<u64>>) {
    let (fun, counter) = Fun::new(FunKind::Double);
    (
        Transformation {
            name: "double".to_string(),
            input: vec![ValType::Float],
            output: vec![ValType::Float],
            algorithm: Algorithm::Function(fun),
        },
        counter,
    )
}

#[test]
fn feed_and_call_yields_one_result_per_output() {
    let (t, _counter) = add_transformation();
    let mut session = t.start();
    session.feed(Val::Integer(3));
    session.feed(Val::Integer(4));
    let mut result = session.call();
    assert_eq!(result.len(), 1);
    assert_eq!(result.next(), Some(Ok(Val::Integer(7))));
    assert_eq!(result.next(), None);
}

#[test]
fn constant_call_yields_constants_in_order() {
    let t = Transformation {
        name: "pair".to_string(),
        input: vec![],
        output: vec![ValType::Integer, ValType::Float],
        algorithm: Algorithm::Constant(vec![Val::Integer(1), Val::Float(2.5)]),
    };
    let session = t.start();
    let mut result = session.call();
    assert_eq!(result.len(), 2);
    assert_eq!(result.next(), Some(Ok(Val::Integer(1))));
    assert_eq!(result.next(), Some(Ok(Val::Float(2.5))));
    assert_eq!(result.next(), None);
}

#[test]
fn feed_ref_matches_feed() {
    let (t, _counter) = add_transformation();
    let mut session = t.start();
    let a = Val::Integer(20);
    session.feed_ref(&a);
    session.feed(Val::Integer(22));
    let mut result = session.call();
    assert_eq!(result.next(), Some(Ok(Val::Integer(42))));
}

#[test]
fn new_constant_has_sentinel_name_and_derived_type() {
    let t = Transformation::new_constant(Val::Integer(5));
    assert_eq!(t.name, "const");
    assert!(t.input.is_empty());
    assert_eq!(t.output, vec![ValType::Integer]);
    assert!(matches!(&t.algorithm, Algorithm::Constant(c) if c == &vec![Val::Integer(5)]));
}

#[test]
fn set_constant_discards_prior_arity() {
    let (mut t, _counter) = add_transformation();
    t.set_constant(Val::Float(1.5));
    assert_eq!(t.name, "const");
    assert!(t.input.is_empty());
    assert_eq!(t.output, vec![ValType::Float]);
}

#[test]
fn port_bounds_checks() {
    let (t, _counter) = add_transformation();
    assert!(t.input_exists(0));
    assert!(t.input_exists(1));
    assert!(!t.input_exists(2));
    assert!(t.output_exists(0));
    assert!(!t.output_exists(1));
    assert_eq!(*t.nth_input_type(0), ValType::Integer);
    assert_eq!(*t.nth_output_type(0), ValType::Integer);
}

/// Build the graph `add(const 3, const 4)` and return the graph, the sink
/// output, the identifier of the first constant, the identifier of the add
/// node, and add's invocation counter.
fn add_graph() -> (DST<Val>, Output, aflak_cake::dst::NodeId, aflak_cake::dst::NodeId, Rc<Cell<u64>>) {
    let mut d: DST<Val> = DST::new();
    let c1 = d.add_owned_transform(Transformation::new_constant(Val::Integer(3)));
    let c2 = d.add_owned_transform(Transformation::new_constant(Val::Integer(4)));
    let (add_t, counter) = add_transformation();
    let add = d.add_owned_transform(add_t);
    d.connect(Output { node: c1, index: 0 }, Input { node: add, index: 0 }).unwrap();
    d.connect(Output { node: c2, index: 0 }, Input { node: add, index: 1 }).unwrap();
    let sink = Output { node: add, index: 0 };
    d.attach_output(sink).unwrap();
    (d, sink, c1, add, counter)
}

#[test]
fn connect_incompatible_types_fails_without_mutation() {
    let mut d: DST<Val> = DST::new();
    let c = d.add_owned_transform(Transformation::new_constant(Val::Integer(3)));
    let (div_t, _counter) = divide_transformation();
    let div = d.add_owned_transform(div_t);
    let edges_before = d.edges.len();
    let r = d.connect(Output { node: c, index: 0 }, Input { node: div, index: 0 });
    assert_eq!(r, Err(DSTError::IncompatibleTypes));
    assert_eq!(d.edges.len(), edges_before);
}

#[test]
fn connect_invalid_port_fails() {
    let mut d: DST<Val> = DST::new();
    let c = d.add_owned_transform(Transformation::new_constant(Val::Integer(3)));
    let (add_t, _counter) = add_transformation();
    let add = d.add_owned_transform(add_t);
    let r = d.connect(Output { node: c, index: 1 }, Input { node: add, index: 0 });
    assert_eq!(r, Err(DSTError::InvalidPort));
    let r = d.connect(Output { node: c, index: 0 }, Input { node: add, index: 5 });
    assert_eq!(r, Err(DSTError::InvalidPort));
    assert!(d.edges.is_empty());
}

#[test]
fn connect_cycle_fails_without_partial_edge() {
    let mut d: DST<Val> = DST::new();
    let (double_a, _ca) = double_transformation();
    let (double_b, _cb) = double_transformation();
    let a = d.add_owned_transform(double_a);
    let b = d.add_owned_transform(double_b);
    d.connect(Output { node: a, index: 0 }, Input { node: b, index: 0 }).unwrap();
    let r = d.connect(Output { node: b, index: 0 }, Input { node: a, index: 0 });
    assert_eq!(r, Err(DSTError::CycleDetected));
    assert_eq!(d.edges.len(), 1);
    // a self-loop is the smallest cycle
    let (double_c, _cc) = double_transformation();
    let c = d.add_owned_transform(double_c);
    let r = d.connect(Output { node: c, index: 0 }, Input { node: c, index: 0 });
    assert_eq!(r, Err(DSTError::CycleDetected));
}

#[test]
fn connect_replaces_prior_edge_into_same_input() {
    let mut d: DST<Val> = DST::new();
    let c1 = d.add_owned_transform(Transformation::new_constant(Val::Integer(3)));
    let c2 = d.add_owned_transform(Transformation::new_constant(Val::Integer(9)));
    let (add_t, _ac) = add_transformation();
    let add = d.add_owned_transform(add_t);
    let b_input = Input { node: add, index: 1 };
    d.connect(Output { node: c1, index: 0 }, Input { node: add, index: 0 }).unwrap();
    d.connect(Output { node: c1, index: 0 }, b_input).unwrap();
    d.connect(Output { node: c2, index: 0 }, b_input).unwrap();
    let into_b: Vec<_> = d.edges.iter().filter(|e| e.input == b_input).collect();
    assert_eq!(into_b.len(), 1);
    assert_eq!(into_b[0].output, Output { node: c2, index: 0 });
    assert_eq!(d.edges.len(), 2);
}

#[test]
fn cache_hit_does_not_reinvoke() {
    let (mut d, sink, _c1, _add, counter) = add_graph();
    let r1 = d.compute(sink);
    assert!(matches!(r1, EvalResult::Value(Val::Integer(7))));
    assert_eq!(counter.get(), 1);
    let r2 = d.compute(sink);
    assert!(matches!(r2, EvalResult::Value(Val::Integer(7))));
    assert_eq!(counter.get(), 1);
}

#[test]
fn constant_change_invalidates_and_recomputes() {
    let (mut d, sink, c1, _add, counter) = add_graph();
    let r1 = d.compute(sink);
    assert!(matches!(r1, EvalResult::Value(Val::Integer(7))));
    assert_eq!(counter.get(), 1);
    d.update_constant(c1, Val::Integer(10)).unwrap();
    assert_eq!(d.status(sink), ComputationState::Stale);
    let r2 = d.compute(sink);
    assert!(matches!(r2, EvalResult::Value(Val::Integer(14))));
    assert_eq!(counter.get(), 2);
}

#[test]
fn scenario_add_then_unconnected_input() {
    let (mut d, sink, _c1, add, _counter) = add_graph();
    let r = d.compute(sink);
    assert!(matches!(r, EvalResult::Value(Val::Integer(7))));
    let b_input = Input { node: add, index: 1 };
    d.disconnect(b_input).unwrap();
    let r = d.compute(sink);
    assert!(matches!(r, EvalResult::Unconnected(i) if i == b_input));
}

#[test]
fn scenario_divide_by_zero_short_circuits_downstream() {
    let mut d: DST<Val> = DST::new();
    let a = d.add_owned_transform(Transformation::new_constant(Val::Float(10.0)));
    let b = d.add_owned_transform(Transformation::new_constant(Val::Float(0.0)));
    let (div_t, div_counter) = divide_transformation();
    let div = d.add_owned_transform(div_t);
    let (double_t, double_counter) = double_transformation();
    let double = d.add_owned_transform(double_t);
    d.connect(Output { node: a, index: 0 }, Input { node: div, index: 0 }).unwrap();
    d.connect(Output { node: b, index: 0 }, Input { node: div, index: 1 }).unwrap();
    d.connect(Output { node: div, index: 0 }, Input { node: double, index: 0 }).unwrap();
    let sink = Output { node: double, index: 0 };
    d.attach_output(sink).unwrap();
    let r = d.compute(sink);
    assert!(matches!(r, EvalResult::AlgoError(ValErr::DivByZero)));
    assert_eq!(div_counter.get(), 1);
    assert_eq!(double_counter.get(), 0);
}

#[test]
fn status_reports_lifecycle() {
    let (mut d, sink, c1, _add, _counter) = add_graph();
    assert_eq!(d.status(sink), ComputationState::NothingDone);
    d.compute(sink);
    assert_eq!(d.status(sink), ComputationState::Cached);
    d.update_constant(c1, Val::Integer(1)).unwrap();
    assert_eq!(d.status(sink), ComputationState::Stale);
    assert!(matches!(
        d.cached_result(sink),
        Some(EvalResult::Value(Val::Integer(7)))
    ));
}

#[test]
fn remove_node_requires_disconnection() {
    let (mut d, sink, c1, add, _counter) = add_graph();
    assert_eq!(d.remove_node(c1), Err(DSTError::NodeInUse));
    d.disconnect(Input { node: add, index: 0 }).unwrap();
    assert_eq!(d.remove_node(c1), Ok(()));
    assert_eq!(d.remove_node(c1), Err(DSTError::InvalidPort));
    // the sink still references the add node, so removing it is refused
    assert_eq!(d.remove_node(add), Err(DSTError::NodeInUse));
    d.detach_output(sink);
    d.disconnect(Input { node: add, index: 1 }).unwrap();
    assert_eq!(d.remove_node(add), Ok(()));
}

#[test]
fn attach_and_detach_sinks() {
    let mut d: DST<Val> = DST::new();
    let c = d.add_owned_transform(Transformation::new_constant(Val::Integer(3)));
    let sink = Output { node: c, index: 0 };
    assert_eq!(
        d.attach_output(Output { node: c, index: 3 }),
        Err(DSTError::InvalidPort)
    );
    d.attach_output(sink).unwrap();
    d.attach_output(sink).unwrap();
    assert_eq!(d.sinks.len(), 1);
    let r = d.compute(sink);
    assert!(matches!(r, EvalResult::Value(Val::Integer(3))));
    d.detach_output(sink);
    assert!(d.sinks.is_empty());
}

#[test]
fn update_constant_refuses_breaking_connections() {
    let (mut d, _sink, c1, _add, _counter) = add_graph();
    // a float constant would break the integer edge into the add node
    assert_eq!(
        d.update_constant(c1, Val::Float(1.0)),
        Err(DSTError::IncompatibleTypes)
    );
    // a fed node cannot be rewritten while its incoming edges remain
    let (div_t, _dc) = divide_transformation();
    let div = d.add_owned_transform(div_t);
    let f = d.add_owned_transform(Transformation::new_constant(Val::Float(2.0)));
    d.connect(Output { node: f, index: 0 }, Input { node: div, index: 0 }).unwrap();
    assert_eq!(d.update_constant(div, Val::Float(0.0)), Err(DSTError::NodeInUse));
}
