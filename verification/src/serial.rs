//! The serialization adapter: converts the graph structure to and from a
//! stable, name-addressed representation.  Transformations are addressed
//! by registry name; constant emitters carry their payload inline.  A
//! representation loads only against a registry that knows every name it
//! uses, and loading is strict: the first offending entry fails the load.

use vstd::prelude::*;

use crate::dst::DST;
use crate::dst::DSTError;
use crate::dst::Edge;
use crate::dst::Input;
use crate::dst::Node;
use crate::dst::NodeId;
use crate::dst::Output;
use crate::dst::edge_into;
use crate::dst::reaches;
use crate::transform::AlgoModel;
use crate::transform::Algorithm;
use crate::transform::NamedAlgorithms;
use crate::transform::TransformModel;
use crate::transform::Transformation;
use crate::transform::TypeContent;
use crate::transform::duplicate_values;

verus! {

/// The stable description of one node: a registry name, or an inline
/// constant payload under the name the constant bore.
pub enum SerialTransform<T: TypeContent> {
    Named(String),
    Constant(String, Vec<T>),
}

/// One node of the stable representation.
pub struct SerialNode<T: TypeContent> {
    pub id: NodeId,
    pub desc: SerialTransform<T>,
}

/// The stable representation of a graph: its nodes, edges and sink set.
pub struct SerialGraph<T: TypeContent> {
    pub nodes: Vec<SerialNode<T>>,
    pub edges: Vec<Edge>,
    pub sinks: Vec<Output>,
}

/// The serial description written out for a node: callables are addressed
/// by their name, constant emitters carry name and payload inline.
pub open spec fn node_written<T: TypeContent>(n: Node<T>, sn: SerialNode<T>) -> bool {
    sn.id == n.id && match n.transformation.algorithm {
        Algorithm::Function(_) => sn.desc matches SerialTransform::Named(name) && name@
            == n.transformation.name@,
        Algorithm::Constant(c) => sn.desc matches SerialTransform::Constant(name, vals) && name@
            == n.transformation.name@ && vals@ == c@,
    }
}

/// The representation written out for a graph.
pub open spec fn graph_written<T: TypeContent>(d: &DST<T>, s: &SerialGraph<T>) -> bool {
    &&& d.nodes@.len() == s.nodes@.len()
    &&& forall|i: int|
        0 <= i < d.nodes@.len() ==> node_written(#[trigger] d.nodes@[i], s.nodes@[i])
    &&& d.edges@ == s.edges@
    &&& d.sinks@ == s.sinks@
}

/// The transformation model a serial node denotes against the registry:
/// what the registry holds under the name, or the constant emitter the
/// inline payload rebuilds.
pub open spec fn serial_model<T: NamedAlgorithms>(sn: SerialNode<T>) -> Option<TransformModel<T>> {
    match sn.desc {
        SerialTransform::Named(name) => T::spec_transform(name@),
        SerialTransform::Constant(name, vals) => Some(
            TransformModel {
                name: name@,
                input: Seq::empty(),
                output: vals@.map_values(|v: T| v.spec_type()),
                algorithm: AlgoModel::Constant(vals@),
            },
        ),
    }
}

/// The node a serial node loads into.
pub open spec fn node_loaded<T: NamedAlgorithms>(sn: SerialNode<T>, n: Node<T>) -> bool {
    sn.id == n.id && serial_model(sn) == Some(n.transformation@)
}

/// The graph a representation loads into.
pub open spec fn graph_loaded<T: NamedAlgorithms>(d: &DST<T>, s: &SerialGraph<T>) -> bool {
    &&& d.nodes@.len() == s.nodes@.len()
    &&& forall|i: int| 0 <= i < d.nodes@.len() ==> node_loaded(s.nodes@[i], #[trigger] d.nodes@[i])
    &&& d.edges@ == s.edges@
    &&& d.sinks@ == s.sinks@
}

/// Every callable node's transformation is exactly what the registry holds
/// under its name.
pub open spec fn registry_backed<T: NamedAlgorithms>(d: &DST<T>) -> bool {
    forall|i: int|
        0 <= i < d.nodes@.len() ==> ((#[trigger] d.nodes@[i]).transformation.algorithm matches
            Algorithm::Function(_) ==> T::spec_transform(d.nodes@[i].transformation.name@) == Some(
            d.nodes@[i].transformation@,
        ))
}

/// Two graphs are isomorphic: same node identifiers bound to equal
/// transformation models, same edges, same sink set.
pub open spec fn graph_iso<T: TypeContent>(d1: &DST<T>, d2: &DST<T>) -> bool {
    &&& d1.nodes@.len() == d2.nodes@.len()
    &&& forall|i: int|
        0 <= i < d1.nodes@.len() ==> (#[trigger] d1.nodes@[i]).id == d2.nodes@[i].id && d1.nodes@[i].transformation@
            == d2.nodes@[i].transformation@
    &&& d1.edges@ == d2.edges@
    &&& d1.sinks@ == d2.sinks@
}

/// Serializing a graph and loading the result against the same registry
/// reproduces the graph: any graph that a representation was written from,
/// and any graph that the representation loads into, are isomorphic,
/// provided the written graph's callable nodes came from that registry.
pub proof fn lemma_serial_round_trip<T: NamedAlgorithms>(d1: &DST<T>, d2: &DST<T>, s: &SerialGraph<T>)
    requires
        d1.wf(),
        d2.wf(),
        graph_written(d1, s),
        registry_backed(d1),
        graph_loaded(d2, s),
    ensures
        graph_iso(d1, d2),
{
    assert forall|i: int| 0 <= i < d1.nodes@.len() implies (#[trigger] d1.nodes@[i]).id
        == d2.nodes@[i].id && d1.nodes@[i].transformation@ == d2.nodes@[i].transformation@ by {
        let n1 = d1.nodes@[i];
        let n2 = d2.nodes@[i];
        let sn = s.nodes@[i];
        assert(node_written(n1, sn));
        assert(node_loaded(sn, n2));
        match n1.transformation.algorithm {
            Algorithm::Function(_) => {
                assert(T::spec_transform(n1.transformation.name@) == Some(n1.transformation@));
            },
            Algorithm::Constant(c) => {
                assert(n1.transformation.wf());
                assert(n1.transformation@.input =~= Seq::<T::Type>::empty());
                assert(n1.transformation@.output =~= c@.map_values(|v: T| v.spec_type()));
            },
        }
    }
}

/// The transformation model the node with the given identifier denotes,
/// if such a node exists and its name resolves.
pub open spec fn s_model_of<T: NamedAlgorithms>(
    nodes: Seq<SerialNode<T>>,
    id: NodeId,
) -> Option<TransformModel<T>> {
    if exists|i: int| 0 <= i < nodes.len() && (#[trigger] nodes[i]).id == id {
        serial_model(nodes[choose|i: int| 0 <= i < nodes.len() && (#[trigger] nodes[i]).id == id])
    } else {
        None
    }
}

/// The output port references a node of the representation whose model
/// resolves and has the output slot in bounds.
pub open spec fn serial_output_ok<T: NamedAlgorithms>(nodes: Seq<SerialNode<T>>, o: Output) -> bool {
    s_model_of(nodes, o.node) matches Some(m) && o.index < m.output.len()
}

/// The input port references a node of the representation whose model
/// resolves and has the input slot in bounds.
pub open spec fn serial_input_ok<T: NamedAlgorithms>(nodes: Seq<SerialNode<T>>, i: Input) -> bool {
    s_model_of(nodes, i.node) matches Some(m) && i.index < m.input.len()
}

/// The edge at position `k` would be accepted during a load: valid ports
/// of equal type tags, and no data path over the preceding edges from its
/// destination node back to its source node.
pub open spec fn serial_edge_ok<T: NamedAlgorithms>(s: &SerialGraph<T>, k: int) -> bool {
    &&& serial_output_ok(s.nodes@, s.edges@[k].output)
    &&& serial_input_ok(s.nodes@, s.edges@[k].input)
    &&& (s_model_of(s.nodes@, s.edges@[k].output.node) matches Some(m1) && s_model_of(
        s.nodes@,
        s.edges@[k].input.node,
    ) matches Some(m2) && m1.output[s.edges@[k].output.index as int]
        == m2.input[s.edges@[k].input.index as int])
    &&& !reaches(
        s.edges@.take(k),
        s.edges@[k].input.node,
        s.edges@[k].output.node,
        s.nodes@.len() as nat,
    )
}

/// The representation is loadable: identifiers in order with room above
/// them, every name known to the registry, every edge acceptable in order,
/// and no repeated edge input or sink.
pub open spec fn serial_ok<T: NamedAlgorithms>(s: &SerialGraph<T>) -> bool {
    &&& serial_ids_ok(s.nodes@)
    &&& s.edges@.len() < u64::MAX
    &&& forall|i: int| 0 <= i < s.nodes@.len() ==> serial_model(#[trigger] s.nodes@[i]) is Some
    &&& forall|k1: int, k2: int|
        0 <= k1 < k2 < s.edges@.len() ==> (#[trigger] s.edges@[k1]).input != (
        #[trigger] s.edges@[k2]).input
    &&& forall|k: int| 0 <= k < s.edges@.len() ==> serial_edge_ok(s, k)
    &&& forall|k1: int, k2: int|
        0 <= k1 < k2 < s.sinks@.len() ==> (#[trigger] s.sinks@[k1]) != (#[trigger] s.sinks@[k2])
    &&& forall|k: int| 0 <= k < s.sinks@.len() ==> serial_output_ok(s.nodes@, #[trigger] s.sinks@[k])
}

/// In a graph whose nodes were loaded pointwise from a representation, an
/// identifier resolves exactly when the representation's model for it
/// resolves, and to the loaded transformation.
pub proof fn lemma_loaded_ports<T: NamedAlgorithms>(
    d_nodes: Seq<crate::dst::Node<T>>,
    s_nodes: Seq<SerialNode<T>>,
)
    requires
        d_nodes.len() == s_nodes.len(),
        crate::dst::ids_ascending(d_nodes),
        forall|j: int| 0 <= j < d_nodes.len() ==> node_loaded(s_nodes[j], #[trigger] d_nodes[j]),
    ensures
        forall|id: NodeId|
            crate::dst::has_node(d_nodes, id) == (#[trigger] s_model_of(s_nodes, id) is Some),
        forall|id: NodeId|
            crate::dst::has_node(d_nodes, id) ==> #[trigger] s_model_of(s_nodes, id) == Some(
                crate::dst::node_of(d_nodes, id).transformation@,
            ),
{
    assert forall|id: NodeId| (crate::dst::has_node(d_nodes, id) == (#[trigger] s_model_of(
        s_nodes,
        id,
    ) is Some)) && (crate::dst::has_node(d_nodes, id) ==> s_model_of(s_nodes, id) == Some(
        crate::dst::node_of(d_nodes, id).transformation@,
    )) by {
        if crate::dst::has_node(d_nodes, id) {
            let i = choose|i: int| 0 <= i < d_nodes.len() && (#[trigger] d_nodes[i]).id == id;
            crate::dst::lemma_node_lookup(d_nodes, i);
            assert(s_nodes[i].id == id);
            let j = choose|j: int| 0 <= j < s_nodes.len() && (#[trigger] s_nodes[j]).id == id;
            assert(d_nodes[j].id == id);
            crate::dst::lemma_node_lookup(d_nodes, j);
            assert(d_nodes[j] == d_nodes[i]);
            if i != j {
                assert(d_nodes[i].id.0 != d_nodes[j].id.0);
            }
            assert(serial_model(s_nodes[j]) == Some(d_nodes[j].transformation@));
        } else {
            if s_model_of(s_nodes, id) is Some {
                let j = choose|j: int| 0 <= j < s_nodes.len() && (#[trigger] s_nodes[j]).id == id;
                assert(d_nodes[j].id == id);
            }
        }
    }
}

/// A representation written out from a well-formed, registry-backed graph
/// loads again: it satisfies `serial_ok`, so `from_serial` is bound to
/// succeed on it.  The one hypothesis beyond well-formedness is that no
/// edge closes a data path over the edges listed before it, which is what
/// `connect` refuses when an edge is made.
pub proof fn lemma_written_form_loads<T: NamedAlgorithms>(d: &DST<T>, s: &SerialGraph<T>)
    requires
        d.wf(),
        graph_written(d, s),
        registry_backed(d),
        d.edges@.len() < u64::MAX,
        forall|k: int|
            0 <= k < d.edges@.len() ==> !reaches(
                d.edges@.take(k),
                (#[trigger] d.edges@[k]).input.node,
                d.edges@[k].output.node,
                d.nodes@.len() as nat,
            ),
    ensures
        serial_ok(s),
{
    assert forall|i: int| 0 <= i < d.nodes@.len() implies node_loaded(
        s.nodes@[i],
        #[trigger] d.nodes@[i],
    ) by {
        let n = d.nodes@[i];
        let sn = s.nodes@[i];
        assert(node_written(n, sn));
        assert(n.transformation.wf());
        match n.transformation.algorithm {
            Algorithm::Function(_) => {
            },
            Algorithm::Constant(c) => {
                assert(n.transformation@.input =~= Seq::<<T as TypeContent>::Type>::empty());
                assert(n.transformation@.output =~= c@.map_values(|v: T| v.spec_type()));
            },
        }
    }
    lemma_loaded_ports(d.nodes@, s.nodes@);
    assert forall|i: int, j: int| 0 <= i < j < s.nodes@.len() implies (
    #[trigger] s.nodes@[i]).id.0 < (#[trigger] s.nodes@[j]).id.0 by {
        assert(s.nodes@[i].id == d.nodes@[i].id && s.nodes@[j].id == d.nodes@[j].id);
    }
    assert forall|i: int| 0 <= i < s.nodes@.len() implies (#[trigger] s.nodes@[i]).id.0
        < u64::MAX by {
        assert(d.nodes@[i].id.0 < d.next_id);
    }
    assert forall|k: int| 0 <= k < s.edges@.len() implies serial_edge_ok(s, k) by {
        let e = s.edges@[k];
        assert(crate::dst::edge_wf(d.nodes@, d.edges@[k]));
        assert(crate::dst::has_node(d.nodes@, e.output.node));
        assert(crate::dst::has_node(d.nodes@, e.input.node));
        assert(s_model_of(s.nodes@, e.output.node) == Some(
            crate::dst::node_of(d.nodes@, e.output.node).transformation@,
        ));
        assert(s_model_of(s.nodes@, e.input.node) == Some(
            crate::dst::node_of(d.nodes@, e.input.node).transformation@,
        ));
        assert(s.edges@.take(k) == d.edges@.take(k));
    }
    assert forall|k: int| 0 <= k < s.sinks@.len() implies serial_output_ok(
        s.nodes@,
        #[trigger] s.sinks@[k],
    ) by {
        assert(crate::dst::valid_output(d.nodes@, d.sinks@[k]));
        assert(s_model_of(s.nodes@, s.sinks@[k].node) == Some(
            crate::dst::node_of(d.nodes@, s.sinks@[k].node).transformation@,
        ));
    }
    assert forall|i: int| 0 <= i < s.nodes@.len() implies serial_model(#[trigger] s.nodes@[i])
        is Some by {
        assert(node_loaded(s.nodes@[i], d.nodes@[i]));
    }
    assert forall|k1: int, k2: int| 0 <= k1 < k2 < s.edges@.len() implies (
    #[trigger] s.edges@[k1]).input != (#[trigger] s.edges@[k2]).input by {
        assert(s.edges@[k1] == d.edges@[k1] && s.edges@[k2] == d.edges@[k2]);
    }
    assert forall|k1: int, k2: int| 0 <= k1 < k2 < s.sinks@.len() implies (
    #[trigger] s.sinks@[k1]) != (#[trigger] s.sinks@[k2]) by {
        assert(s.sinks@[k1] == d.sinks@[k1] && s.sinks@[k2] == d.sinks@[k2]);
    }
}

/// Produce a vector equal to the given one, for port lists.
fn copy_outputs(v: &Vec<Output>) -> (r: Vec<Output>)
    ensures
        r@ == v@,
{
    let mut r: Vec<Output> = Vec::new();
    let mut i: usize = 0;
    while i < v.len()
        invariant
            i <= v@.len(),
            r@ == v@.subrange(0, i as int),
        decreases v@.len() - i,
    {
        r.push(v[i]);
        i = i + 1;
    }
    assert(r@ == v@);
    r
}

/// Produce a vector equal to the given one, for edge lists.
fn copy_edges(v: &Vec<Edge>) -> (r: Vec<Edge>)
    ensures
        r@ == v@,
{
    let mut r: Vec<Edge> = Vec::new();
    let mut i: usize = 0;
    while i < v.len()
        invariant
            i <= v@.len(),
            r@ == v@.subrange(0, i as int),
        decreases v@.len() - i,
    {
        r.push(v[i]);
        i = i + 1;
    }
    assert(r@ == v@);
    r
}

/// Write a graph out as its stable representation.
pub fn to_serial<T: TypeContent>(d: &DST<T>) -> (r: SerialGraph<T>)
    requires
        d.wf(),
    ensures
        graph_written(d, &r),
{
    let mut nodes: Vec<SerialNode<T>> = Vec::new();
    let mut i: usize = 0;
    while i < d.nodes.len()
        invariant
            i <= d.nodes@.len(),
            nodes@.len() == i,
            forall|j: int| 0 <= j < i ==> node_written(#[trigger] d.nodes@[j], nodes@[j]),
        decreases d.nodes@.len() - i,
    {
        let n = &d.nodes[i];
        let desc = match &n.transformation.algorithm {
            Algorithm::Function(_) => SerialTransform::Named(n.transformation.name.clone()),
            Algorithm::Constant(c) => SerialTransform::Constant(
                n.transformation.name.clone(),
                duplicate_values(c),
            ),
        };
        nodes.push(SerialNode { id: n.id, desc });
        i = i + 1;
    }
    SerialGraph { nodes, edges: copy_edges(&d.edges), sinks: copy_outputs(&d.sinks) }
}

/// Rebuild the constant emitter a serialized payload denotes.
fn constant_transformation<T: TypeContent>(name: &String, vals: &Vec<T>) -> (t: Transformation<T>)
    ensures
        t.wf(),
        t@.name == name@,
        t@.input == Seq::<T::Type>::empty(),
        t@.output == vals@.map_values(|v: T| v.spec_type()),
        t@.algorithm == AlgoModel::Constant(vals@),
{
    let mut tags: Vec<T::Type> = Vec::new();
    let mut i: usize = 0;
    while i < vals.len()
        invariant
            i <= vals@.len(),
            tags@.len() == i,
            forall|m: int| 0 <= m < i ==> tags@[m] == (#[trigger] vals@[m]).spec_type(),
        decreases vals@.len() - i,
    {
        tags.push(vals[i].get_type());
        i = i + 1;
    }
    proof {
        assert(tags@ =~= vals@.map_values(|v: T| v.spec_type()));
    }
    let t = Transformation {
        name: name.clone(),
        input: Vec::new(),
        output: tags,
        algorithm: Algorithm::Constant(duplicate_values(vals)),
    };
    proof {
        assert(t.input@ =~= Seq::<T::Type>::empty());
    }
    t
}

/// Load a stable representation against the registry of `T`, rebuilding
/// the graph it denotes.  Loading is strict: it fails on the first node
/// whose name the registry does not know, on node identifiers out of order
/// or too large, on a repeated edge input or sink, and on any edge that
/// `connect` would refuse.
pub fn from_serial<T: NamedAlgorithms>(s: &SerialGraph<T>) -> (r: Result<DST<T>, DSTError>)
    ensures
        r matches Ok(d) ==> d.wf() && graph_loaded(&d, s),
        r == Err::<DST<T>, DSTError>(DSTError::InvalidNodeId) ==> (!serial_ids_ok(s.nodes@)
            || s.edges@.len() >= u64::MAX),
        r matches Err(e) ==> (e matches DSTError::UnknownTransformation(n) ==> exists|i: int|
            0 <= i < s.nodes@.len() && ((#[trigger] s.nodes@[i]).desc matches
            SerialTransform::Named(m) && m@ == n@ && T::spec_transform(m@) is None)),
        r == Err::<DST<T>, DSTError>(DSTError::DuplicateEdge) ==> ((exists|k1: int, k2: int|
            0 <= k1 < k2 < s.edges@.len() && (#[trigger] s.edges@[k1]).input == (
            #[trigger] s.edges@[k2]).input) || (exists|k1: int, k2: int|
            0 <= k1 < k2 < s.sinks@.len() && (#[trigger] s.sinks@[k1]) == (
            #[trigger] s.sinks@[k2]))),
        r == Err::<DST<T>, DSTError>(DSTError::CycleDetected) ==> exists|k: int|
            0 <= k < s.edges@.len() && reaches(
                s.edges@.take(k),
                (#[trigger] s.edges@[k]).input.node,
                s.edges@[k].output.node,
                s.nodes@.len() as nat,
            ),
        serial_ok(s) ==> r is Ok,
{
    if s.edges.len() as u64 == u64::MAX {
        return Err(DSTError::InvalidNodeId);
    }
    let mut d: DST<T> = DST::new();
    let mut i: usize = 0;
    while i < s.nodes.len()
        invariant
            i <= s.nodes@.len(),
            d.wf(),
            d.nodes@.len() == i,
            forall|j: int| 0 <= j < i ==> node_loaded(s.nodes@[j], #[trigger] d.nodes@[j]),
            forall|j: int| 0 <= j < i ==> (#[trigger] d.nodes@[j]).id == s.nodes@[j].id,
            d.edges@ == Seq::<Edge>::empty(),
            d.sinks@ == Seq::<Output>::empty(),
            d.cache@.len() == 0,
            d.version == 0,
            i > 0 ==> d.next_id == s.nodes@[i - 1].id.0 + 1,
            i == 0 ==> d.next_id == 0,
        decreases s.nodes@.len() - i,
    {
        let sn = &s.nodes[i];
        if sn.id.0 == u64::MAX {
            return Err(DSTError::InvalidNodeId);
        }
        if i > 0 && sn.id.0 < d.next_id {
            proof {
                assert(s.nodes@[i - 1].id.0 >= s.nodes@[i as int].id.0);
            }
            return Err(DSTError::InvalidNodeId);
        }
        let t = match &sn.desc {
            SerialTransform::Named(name) => match T::get_transform(name.as_str()) {
                Some(t) => t,
                None => {
                    return Err(DSTError::UnknownTransformation(name.clone()));
                },
            },
            SerialTransform::Constant(name, vals) => constant_transformation(name, vals),
        };
        let ghost old_nodes = d.nodes@;
        d.nodes.push(Node { id: sn.id, transformation: t });
        d.next_id = sn.id.0 + 1;
        i = i + 1;
    }
    let ghost loaded_nodes = d.nodes@;
    let mut k: usize = 0;
    while k < s.edges.len()
        invariant
            k <= s.edges@.len(),
            d.wf(),
            d.nodes@ == loaded_nodes,
            d.nodes@.len() == s.nodes@.len(),
            forall|j: int|
                0 <= j < d.nodes@.len() ==> node_loaded(s.nodes@[j], #[trigger] d.nodes@[j]),
            d.edges@ == s.edges@.take(k as int),
            d.sinks@ == Seq::<Output>::empty(),
            d.version == k,
            s.edges@.len() < u64::MAX,
        decreases s.edges@.len() - k,
    {
        let e = s.edges[k];
        let mut j: usize = 0;
        while j < d.edges.len()
            invariant
                j <= d.edges@.len(),
                d.edges@ == s.edges@.take(k as int),
                k < s.edges@.len(),
                e == s.edges@[k as int],
                forall|m: int| 0 <= m < j ==> (#[trigger] d.edges@[m]).input != e.input,
            decreases d.edges@.len() - j,
        {
            if d.edges[j].input == e.input {
                proof {
                    assert(s.edges@.take(k as int)[j as int] == s.edges@[j as int]);
                    assert(s.edges@[j as int].input == s.edges@[k as int].input);
                }
                return Err(DSTError::DuplicateEdge);
            }
            j = j + 1;
        }
        proof {
            assert(edge_into(d.edges@, e.input) is None);
        }
        match d.connect(e.output, e.input) {
            Ok(_) => {},
            Err(err) => {
                proof {
                    if err == DSTError::CycleDetected {
                        assert(reaches(
                            s.edges@.take(k as int),
                            s.edges@[k as int].input.node,
                            s.edges@[k as int].output.node,
                            s.nodes@.len() as nat,
                        ));
                    }
                    if serial_ok(s) {
                        lemma_loaded_ports(d.nodes@, s.nodes@);
                        assert(serial_edge_ok(s, k as int));
                        let e2 = s.edges@[k as int];
                        assert(crate::dst::has_node(d.nodes@, e2.output.node));
                        assert(crate::dst::has_node(d.nodes@, e2.input.node));
                        assert(s_model_of(s.nodes@, e2.output.node) == Some(
                            crate::dst::node_of(d.nodes@, e2.output.node).transformation@,
                        ));
                        assert(s_model_of(s.nodes@, e2.input.node) == Some(
                            crate::dst::node_of(d.nodes@, e2.input.node).transformation@,
                        ));
                        assert(crate::dst::valid_output(d.nodes@, e2.output));
                        assert(crate::dst::valid_input(d.nodes@, e2.input));
                        assert(!reaches(
                            d.edges@,
                            e2.input.node,
                            e2.output.node,
                            d.nodes@.len() as nat,
                        ));
                        assert(crate::dst::connect_check(d.nodes@, d.edges@, e2.output, e2.input)
                            is Ok);
                        assert(false);
                    }
                }
                return Err(err);
            },
        }
        proof {
            assert(d.edges@ =~= s.edges@.take(k as int + 1));
        }
        k = k + 1;
    }
    proof {
        assert(s.edges@.take(s.edges@.len() as int) =~= s.edges@);
    }
    let mut m: usize = 0;
    while m < s.sinks.len()
        invariant
            m <= s.sinks@.len(),
            d.wf(),
            d.nodes@ == loaded_nodes,
            d.nodes@.len() == s.nodes@.len(),
            forall|j: int|
                0 <= j < d.nodes@.len() ==> node_loaded(s.nodes@[j], #[trigger] d.nodes@[j]),
            d.edges@ == s.edges@,
            d.sinks@ == s.sinks@.take(m as int),
        decreases s.sinks@.len() - m,
    {
        let o = s.sinks[m];
        let mut j: usize = 0;
        while j < d.sinks.len()
            invariant
                j <= d.sinks@.len(),
                d.sinks@ == s.sinks@.take(m as int),
                m < s.sinks@.len(),
                o == s.sinks@[m as int],
                forall|n2: int| 0 <= n2 < j ==> (#[trigger] d.sinks@[n2]) != o,
            decreases d.sinks@.len() - j,
        {
            if d.sinks[j] == o {
                proof {
                    assert(s.sinks@.take(m as int)[j as int] == s.sinks@[j as int]);
                    assert(s.sinks@[j as int] == s.sinks@[m as int]);
                }
                return Err(DSTError::DuplicateEdge);
            }
            j = j + 1;
        }
        proof {
            assert(!d.sinks@.contains(o));
        }
        match d.attach_output(o) {
            Ok(_) => {},
            Err(err) => {
                proof {
                    if serial_ok(s) {
                        lemma_loaded_ports(d.nodes@, s.nodes@);
                        assert(serial_output_ok(s.nodes@, s.sinks@[m as int]));
                        assert(s_model_of(s.nodes@, o.node) == Some(
                            crate::dst::node_of(d.nodes@, o.node).transformation@,
                        ));
                        assert(crate::dst::valid_output(d.nodes@, o));
                        assert(false);
                    }
                }
                return Err(err);
            },
        }
        proof {
            assert(d.sinks@ =~= s.sinks@.take(m as int + 1));
        }
        m = m + 1;
    }
    proof {
        assert(s.sinks@.take(s.sinks@.len() as int) =~= s.sinks@);
    }
    Ok(d)
}

/// Serial node identifiers are strictly increasing and leave room to
/// allocate further identifiers after them.
pub open spec fn serial_ids_ok<T: TypeContent>(nodes: Seq<SerialNode<T>>) -> bool {
    (forall|i: int, j: int|
        0 <= i < j < nodes.len() ==> (#[trigger] nodes[i]).id.0 < (#[trigger] nodes[j]).id.0)
        && (forall|i: int| 0 <= i < nodes.len() ==> (#[trigger] nodes[i]).id.0 < u64::MAX)
}

} // verus!
