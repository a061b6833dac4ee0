//! Round-trip tests of the serialization adapter against a registry of
//! named transformations.

use aflak_cake::dst::DSTError;
use aflak_cake::dst::EvalResult;
use aflak_cake::dst::Input;
use aflak_cake::dst::Output;
use aflak_cake::dst::DST;
use aflak_cake::serial::from_serial;
use aflak_cake::serial::to_serial;
use aflak_cake::serial::SerialTransform;
use aflak_cake::transform::Algorithm;
use aflak_cake::transform::Invoke;
use aflak_cake::transform::NamedAlgorithms;
use aflak_cake::transform::Transformation;
use aflak_cake::transform::TypeContent;

#[derive(Clone, Debug, PartialEq)]
pub struct Num(pub i64);

#[derive(Clone, Debug, PartialEq)]
pub struct NumErr;

#[derive(Clone)]
pub enum NumFun {
    Add,
    Negate,
}

impl TypeContent for Num {
    type Type = ();
    type Err = NumErr;
    type Fun = NumFun;

    fn spec_type(&self) {
        panic!("specification-only item")
    }

    fn get_type(&self) {
    }

    fn duplicate(&self) -> Num {
        self.clone()
    }

    fn duplicate_err(e: &NumErr) -> NumErr {
        e.clone()
    }

    fn same_type(_a: &(), _b: &()) -> bool {
        true
    }
}

impl Invoke<Num, NumErr> for NumFun {
    fn spec_invoke(&self, _args: vstd::prelude::Seq<Num>) -> vstd::prelude::Seq<Result<Num, NumErr>> {
        panic!("specification-only item")
    }

    fn invoke(&self, args: Vec<Num>) -> Vec<Result<Num, NumErr>> {
        match self {
            NumFun::Add => vec![Ok(Num(args[0].0 + args[1].0))],
            NumFun::Negate => vec![Ok(Num(-args[0].0))],
        }
    }

    fn duplicate(&self) -> NumFun {
        self.clone()
    }
}

impl NamedAlgorithms for Num {
    fn spec_transform(
        _name: vstd::prelude::Seq<char>,
    ) -> Option<aflak_cake::transform::TransformModel<Num>> {
        panic!("specification-only item")
    }

    fn get_transform(name: &str) -> Option<Transformation<Num>> {
        match name {
            "add" => Some(Transformation {
                name: "add".to_string(),
                input: vec![(), ()],
                output: vec![()],
                algorithm: Algorithm::Function(NumFun::Add),
            }),
            "negate" => Some(Transformation {
                name: "negate".to_string(),
                input: vec![()],
                output: vec![()],
                algorithm: Algorithm::Function(NumFun::Negate),
            }),
            _ => None,
        }
    }
}

/// A graph with three nodes (two constants feeding the registered `add`)
/// and two edges, with add's output attached as the sink.
fn sample_graph() -> (DST<Num>, Output) {
    let mut d: DST<Num> = DST::new();
    let c1 = d.add_owned_transform(Transformation::new_constant(Num(3)));
    let c2 = d.add_owned_transform(Transformation::new_constant(Num(4)));
    let add = d.add_transform("add").unwrap();
    d.connect(Output { node: c1, index: 0 }, Input { node: add, index: 0 }).unwrap();
    d.connect(Output { node: c2, index: 0 }, Input { node: add, index: 1 }).unwrap();
    let sink = Output { node: add, index: 0 };
    d.attach_output(sink).unwrap();
    (d, sink)
}

#[test]
fn round_trip_reproduces_graph() {
    let (mut d, sink) = sample_graph();
    let s = to_serial(&d);
    assert_eq!(s.nodes.len(), 3);
    assert_eq!(s.edges.len(), 2);
    assert_eq!(s.sinks.len(), 1);
    let mut d2 = from_serial::<Num>(&s).unwrap();
    assert_eq!(d2.nodes.len(), d.nodes.len());
    for (n1, n2) in d.nodes.iter().zip(d2.nodes.iter()) {
        assert_eq!(n1.id, n2.id);
        assert_eq!(n1.transformation.name, n2.transformation.name);
        assert_eq!(n1.transformation.input, n2.transformation.input);
        assert_eq!(n1.transformation.output, n2.transformation.output);
        match (&n1.transformation.algorithm, &n2.transformation.algorithm) {
            (Algorithm::Constant(a), Algorithm::Constant(b)) => assert_eq!(a, b),
            (Algorithm::Function(_), Algorithm::Function(_)) => {}
            _ => panic!("algorithm kind changed in the round trip"),
        }
    }
    assert_eq!(d.edges, d2.edges);
    assert_eq!(d.sinks, d2.sinks);
    // the reloaded graph computes like the original
    let r1 = d.compute(sink);
    let r2 = d2.compute(sink);
    assert!(matches!(r1, EvalResult::Value(Num(7))));
    assert!(matches!(r2, EvalResult::Value(Num(7))));
}

#[test]
fn constants_are_written_inline_and_names_by_registry() {
    let (d, _sink) = sample_graph();
    let s = to_serial(&d);
    assert!(matches!(
        &s.nodes[0].desc,
        SerialTransform::Constant(name, vals) if name == "const" && vals == &vec![Num(3)]
    ));
    assert!(matches!(
        &s.nodes[2].desc,
        SerialTransform::Named(name) if name == "add"
    ));
}

#[test]
fn loading_unknown_name_fails_gracefully() {
    let (d, _sink) = sample_graph();
    let mut s = to_serial(&d);
    s.nodes[2].desc = SerialTransform::Named("frobnicate".to_string());
    match from_serial::<Num>(&s) {
        Err(DSTError::UnknownTransformation(name)) => assert_eq!(name, "frobnicate"),
        other => panic!("expected an unknown transformation error, got {:?}", other.err()),
    }
}

#[test]
fn loading_rejects_out_of_order_identifiers() {
    let (d, _sink) = sample_graph();
    let mut s = to_serial(&d);
    s.nodes.swap(0, 1);
    assert!(matches!(from_serial::<Num>(&s), Err(DSTError::InvalidNodeId)));
}

#[test]
fn loading_rejects_duplicate_edges() {
    let (d, _sink) = sample_graph();
    let mut s = to_serial(&d);
    let e = s.edges[0];
    s.edges.push(e);
    assert!(matches!(from_serial::<Num>(&s), Err(DSTError::DuplicateEdge)));
}

#[test]
fn unknown_registry_name_is_reported_on_add() {
    let mut d: DST<Num> = DST::new();
    match d.add_transform("frobnicate") {
        Err(DSTError::UnknownTransformation(name)) => assert_eq!(name, "frobnicate"),
        other => panic!("expected an unknown transformation error, got {:?}", other.err()),
    }
    assert!(d.nodes.is_empty());
}

#[test]
fn registry_lookup_returns_algorithm() {
    assert!(matches!(
        Num::get_algorithm("negate"),
        Some(Algorithm::Function(NumFun::Negate))
    ));
    assert!(Num::get_algorithm("frobnicate").is_none());
}

#[test]
fn negate_from_registry_computes() {
    let mut d: DST<Num> = DST::new();
    let c = d.add_owned_transform(Transformation::new_constant(Num(5)));
    let neg = d.add_transform("negate").unwrap();
    d.connect(Output { node: c, index: 0 }, Input { node: neg, index: 0 }).unwrap();
    let sink = Output { node: neg, index: 0 };
    d.attach_output(sink).unwrap();
    assert!(matches!(d.compute(sink), EvalResult::Value(Num(-5))));
}
