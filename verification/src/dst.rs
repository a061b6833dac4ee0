//! The graph structure: nodes bound to transformations, type-checked and
//! cycle-checked edges from output ports to input ports, a set of sink
//! outputs observed from outside, and a cache of computed results.
//!
//! Cache invalidation is deliberately conservative: every mutation of the
//! graph advances a version stamp, and a cached result is served again only
//! if its stamp still matches, i.e. only while the graph is unchanged since
//! the result was computed.

use vstd::prelude::*;

use crate::transform::Algorithm;
use crate::transform::NamedAlgorithms;
use crate::transform::Transformation;
use crate::transform::TypeContent;
use crate::transform::Invoke;

verus! {

/// A stable, graph-scoped identifier of a node, allocated monotonically on
/// insertion.
#[derive(Clone, Copy, PartialEq, Eq, Structural, Debug, Hash)]
pub struct NodeId(pub u64);

/// One output slot of a node's transformation.
#[derive(Clone, Copy, PartialEq, Eq, Structural, Debug, Hash)]
pub struct Output {
    pub node: NodeId,
    pub index: usize,
}

/// One input slot of a node's transformation.
#[derive(Clone, Copy, PartialEq, Eq, Structural, Debug, Hash)]
pub struct Input {
    pub node: NodeId,
    pub index: usize,
}

/// A directed, type-checked connection from one output port to one input
/// port.
#[derive(Clone, Copy, PartialEq, Eq, Structural, Debug)]
pub struct Edge {
    pub output: Output,
    pub input: Input,
}

/// A structural error, reported at the operation that caused it.
#[derive(PartialEq, Eq, Debug)]
pub enum DSTError {
    /// The two ports of an attempted connection carry different type tags.
    IncompatibleTypes,
    /// An attempted connection would create a path back to its own source.
    CycleDetected,
    /// A port index is out of bounds for its node, or a node is missing.
    InvalidPort,
    /// A node cannot be removed while edges still reference it.
    NodeInUse,
    /// A serialized graph references a transformation name absent from the
    /// registry it is loaded against.
    UnknownTransformation(String),
    /// A serialized graph carries node identifiers out of order or too
    /// large to allocate further identifiers after.
    InvalidNodeId,
    /// A serialized graph lists two edges into the same input, or the
    /// same sink twice.
    DuplicateEdge,
}

/// A graph vertex: a stable identifier bound to one transformation.
pub struct Node<T: TypeContent> {
    pub id: NodeId,
    pub transformation: Transformation<T>,
}

/// The outcome of evaluating one output port.
pub enum EvalResult<T: TypeContent> {
    /// The computation succeeded with this value.
    Value(T),
    /// An algorithm reported this recoverable, cacheable error; it
    /// propagates downstream without invoking downstream algorithms.
    AlgoError(T::Err),
    /// This input must be connected before the requested output can be
    /// evaluated.
    Unconnected(Input),
    /// The dependency walk exceeded the number of nodes, which can happen
    /// only in a cyclic graph.
    Cyclic,
}

impl<T: TypeContent> EvalResult<T> {
    /// Produce an outcome equal to this one.
    pub fn duplicate(&self) -> (r: Self)
        ensures
            r == *self,
    {
        match self {
            EvalResult::Value(v) => EvalResult::Value(v.duplicate()),
            EvalResult::AlgoError(e) => EvalResult::AlgoError(T::duplicate_err(e)),
            EvalResult::Unconnected(i) => EvalResult::Unconnected(*i),
            EvalResult::Cyclic => EvalResult::Cyclic,
        }
    }
}

/// The accumulated arguments of a node, or the outcome that stopped their
/// collection.
pub enum ArgsOut<T: TypeContent> {
    Args(Seq<T>),
    Stop(EvalResult<T>),
}

/// The most recent computed outcome for an output, stamped with the graph
/// version it was computed against.
pub struct CacheEntry<T: TypeContent> {
    pub output: Output,
    pub version: u64,
    pub value: EvalResult<T>,
}

/// The observable computation status of an output.
#[derive(Clone, Copy, PartialEq, Eq, Structural, Debug)]
pub enum ComputationState {
    /// Evaluation of this output was never requested.
    NothingDone,
    /// A result computed against the current graph is cached.
    Cached,
    /// A prior result is available but the graph has changed since it was
    /// computed.
    Stale,
}

/// Whether some node of the sequence carries the given identifier.
pub open spec fn has_node<T: TypeContent>(nodes: Seq<Node<T>>, id: NodeId) -> bool {
    exists|i: int| 0 <= i < nodes.len() && (#[trigger] nodes[i]).id == id
}

/// The node of the sequence carrying the given identifier (meaningful only
/// when identifiers are unique and the node exists).
pub open spec fn node_of<T: TypeContent>(nodes: Seq<Node<T>>, id: NodeId) -> Node<T> {
    nodes[choose|i: int| 0 <= i < nodes.len() && (#[trigger] nodes[i]).id == id]
}

/// Node identifiers appear in strictly increasing order.
pub open spec fn ids_ascending<T: TypeContent>(nodes: Seq<Node<T>>) -> bool {
    forall|i: int, j: int|
        0 <= i < j < nodes.len() ==> (#[trigger] nodes[i]).id.0 < (#[trigger] nodes[j]).id.0
}

/// The output port references an existing node and an output slot in
/// bounds for it.
pub open spec fn valid_output<T: TypeContent>(nodes: Seq<Node<T>>, o: Output) -> bool {
    has_node(nodes, o.node) && o.index < node_of(nodes, o.node).transformation.output@.len()
}

/// The input port references an existing node and an input slot in bounds
/// for it.
pub open spec fn valid_input<T: TypeContent>(nodes: Seq<Node<T>>, i: Input) -> bool {
    has_node(nodes, i.node) && i.index < node_of(nodes, i.node).transformation.input@.len()
}

/// Both ports of the edge are valid and carry equal type tags.
pub open spec fn edge_wf<T: TypeContent>(nodes: Seq<Node<T>>, e: Edge) -> bool {
    valid_output(nodes, e.output) && valid_input(nodes, e.input) && node_of(
        nodes,
        e.output.node,
    ).transformation.output@[e.output.index as int] == node_of(
        nodes,
        e.input.node,
    ).transformation.input@[e.input.index as int]
}

/// Each input has at most one incoming edge.
pub open spec fn fanin_unique(edges: Seq<Edge>) -> bool {
    forall|k1: int, k2: int|
        0 <= k1 < k2 < edges.len() ==> (#[trigger] edges[k1]).input != (#[trigger] edges[k2]).input
}

/// The unique edge into the given input, if any.
pub open spec fn edge_into(edges: Seq<Edge>, i: Input) -> Option<Output> {
    if exists|k: int| 0 <= k < edges.len() && (#[trigger] edges[k]).input == i {
        Some(edges[choose|k: int| 0 <= k < edges.len() && (#[trigger] edges[k]).input == i].output)
    } else {
        None
    }
}

/// Whether a data path of at most `fuel` edges leads from node `from` to
/// node `to`.  Any path among `n` distinct nodes can be shortened below `n`
/// edges, so `fuel` equal to the node count decides reachability.
pub open spec fn reaches(edges: Seq<Edge>, from: NodeId, to: NodeId, fuel: nat) -> bool
    decreases fuel,
{
    from == to || (fuel > 0 && exists|k: int|
        0 <= k < edges.len() && (#[trigger] edges[k]).output.node == from && reaches(
            edges,
            edges[k].input.node,
            to,
            (fuel - 1) as nat,
        ))
}

/// The outcome of evaluating output `o`: a cycle marker when the walk
/// exhausts its fuel or meets a malformed port, the constant at the port
/// for a constant emitter, and otherwise the callable's result at the
/// port once every declared input has been resolved in declared order and
/// evaluated, with the first failure short-circuiting the walk.
pub open spec fn spec_eval<T: TypeContent>(
    nodes: Seq<Node<T>>,
    edges: Seq<Edge>,
    o: Output,
    fuel: nat,
) -> EvalResult<T>
    decreases fuel, 0int, 0int,
{
    if fuel == 0 {
        EvalResult::Cyclic
    } else if !has_node(nodes, o.node) {
        EvalResult::Cyclic
    } else {
        let t = node_of(nodes, o.node).transformation;
        match t.algorithm {
            Algorithm::Constant(c) => if o.index < c@.len() {
                EvalResult::Value(c@[o.index as int])
            } else {
                EvalResult::Cyclic
            },
            Algorithm::Function(f) => match spec_eval_args(
                nodes,
                edges,
                o.node,
                t.input@.len() as int,
                (fuel - 1) as nat,
            ) {
                ArgsOut::Stop(r) => r,
                ArgsOut::Args(args) => {
                    let out = f.spec_invoke(args);
                    if o.index < out.len() {
                        match out[o.index as int] {
                            Ok(v) => EvalResult::Value(v),
                            Err(e) => EvalResult::AlgoError(e),
                        }
                    } else {
                        EvalResult::Cyclic
                    }
                },
            },
        }
    }
}

/// The values of the first `k` inputs of the given node, each resolved
/// through its unique incoming edge and evaluated, or the outcome that
/// stopped the collection: the first unconnected input or the first
/// non-value evaluation, in declared input order.
pub open spec fn spec_eval_args<T: TypeContent>(
    nodes: Seq<Node<T>>,
    edges: Seq<Edge>,
    node: NodeId,
    k: int,
    fuel: nat,
) -> ArgsOut<T>
    decreases fuel, 1int, k,
{
    if k <= 0 {
        ArgsOut::Args(Seq::empty())
    } else {
        match spec_eval_args(nodes, edges, node, k - 1, fuel) {
            ArgsOut::Stop(r) => ArgsOut::Stop(r),
            ArgsOut::Args(args) => {
                let inp = Input { node, index: (k - 1) as usize };
                match edge_into(edges, inp) {
                    None => ArgsOut::Stop(EvalResult::<T>::Unconnected(inp)),
                    Some(src) => match spec_eval(nodes, edges, src, fuel) {
                        EvalResult::Value(v) => ArgsOut::Args(args.push(v)),
                        r => ArgsOut::Stop(r),
                    },
                }
            },
        }
    }
}

/// The unique cache entry for the given output, if any.
pub open spec fn cache_entry_for<T: TypeContent>(
    cache: Seq<CacheEntry<T>>,
    o: Output,
) -> Option<CacheEntry<T>> {
    if exists|k: int| 0 <= k < cache.len() && (#[trigger] cache[k]).output == o {
        Some(cache[choose|k: int| 0 <= k < cache.len() && (#[trigger] cache[k]).output == o])
    } else {
        None
    }
}

/// A mutable collection of nodes and edges with designated sink outputs, a
/// result cache, and a version stamp advanced by every mutation.
pub struct DST<T: TypeContent> {
    pub nodes: Vec<Node<T>>,
    pub edges: Vec<Edge>,
    pub sinks: Vec<Output>,
    pub next_id: u64,
    pub version: u64,
    pub cache: Vec<CacheEntry<T>>,
    /// How many times an algorithm was invoked on behalf of this graph.
    pub invocations: Ghost<int>,
}

impl<T: TypeContent> DST<T> {
    /// The fuel that decides every dependency walk over this graph.
    pub open spec fn fuel(&self) -> nat {
        self.nodes@.len() as nat
    }

    /// Well-formedness: node identifiers are strictly increasing and below
    /// the next free one, every transformation is well-formed, every edge
    /// connects valid ports of equal type tags, each input has at most one
    /// incoming edge, sinks are valid and distinct, and cache entries are
    /// distinct, stamped no later than the current version, and correct
    /// whenever their stamp is current.
    pub open spec fn wf(&self) -> bool {
        &&& ids_ascending(self.nodes@)
        &&& forall|i: int|
            0 <= i < self.nodes@.len() ==> (#[trigger] self.nodes@[i]).id.0 < self.next_id
        &&& forall|i: int|
            0 <= i < self.nodes@.len() ==> (#[trigger] self.nodes@[i]).transformation.wf()
        &&& forall|k: int| 0 <= k < self.edges@.len() ==> edge_wf(self.nodes@, #[trigger] self.edges@[k])
        &&& fanin_unique(self.edges@)
        &&& forall|k: int|
            0 <= k < self.sinks@.len() ==> valid_output(self.nodes@, #[trigger] self.sinks@[k])
        &&& forall|k1: int, k2: int|
            0 <= k1 < k2 < self.sinks@.len() ==> (#[trigger] self.sinks@[k1]) != (
            #[trigger] self.sinks@[k2])
        &&& forall|k1: int, k2: int|
            0 <= k1 < k2 < self.cache@.len() ==> (#[trigger] self.cache@[k1]).output != (
            #[trigger] self.cache@[k2]).output
        &&& forall|k: int|
            0 <= k < self.cache@.len() ==> (#[trigger] self.cache@[k]).version <= self.version
        &&& forall|k: int|
            0 <= k < self.cache@.len() ==> ((#[trigger] self.cache@[k]).version == self.version
                ==> self.cache@[k].value == spec_eval(
                self.nodes@,
                self.edges@,
                self.cache@[k].output,
                self.fuel(),
            ))
    }

    /// A result computed against the current graph is cached for the given
    /// output.
    pub open spec fn cache_fresh(&self, o: Output) -> bool {
        cache_entry_for(self.cache@, o) matches Some(e) && e.version == self.version
    }

    /// The cached outcome for the given output (meaningful only when an
    /// entry exists).
    pub open spec fn cached_value(&self, o: Output) -> EvalResult<T> {
        match cache_entry_for(self.cache@, o) {
            Some(e) => e.value,
            None => arbitrary(),
        }
    }

    /// Create an empty graph.
    pub fn new() -> (r: Self)
        ensures
            r.wf(),
            r.nodes@ == Seq::<Node<T>>::empty(),
            r.edges@ == Seq::<Edge>::empty(),
            r.sinks@ == Seq::<Output>::empty(),
            r.cache@ == Seq::<CacheEntry<T>>::empty(),
            r.next_id == 0,
            r.version == 0,
            r.invocations@ == 0,
    {
        DST {
            nodes: Vec::new(),
            edges: Vec::new(),
            sinks: Vec::new(),
            next_id: 0,
            version: 0,
            cache: Vec::new(),
            invocations: Ghost(0int),
        }
    }

    /// Insert a new node owning the given transformation and return its
    /// fresh identifier.
    pub fn add_owned_transform(&mut self, t: Transformation<T>) -> (id: NodeId)
        requires
            old(self).wf(),
            t.wf(),
            old(self).next_id < u64::MAX,
            old(self).version < u64::MAX,
        ensures
            final (self).wf(),
            id.0 == old(self).next_id,
            final (self).nodes@ == old(self).nodes@.push(Node { id, transformation: t }),
            final (self).edges@ == old(self).edges@,
            final (self).sinks@ == old(self).sinks@,
            final (self).cache@ == old(self).cache@,
            final (self).next_id == old(self).next_id + 1,
            final (self).version == old(self).version + 1,
            final (self).invocations == old(self).invocations,
            forall|o: Output| !final (self).cache_fresh(o),
    {
        let id = NodeId(self.next_id);
        self.nodes.push(Node { id, transformation: t });
        self.next_id = self.next_id + 1;
        self.version = self.version + 1;
        proof {
            lemma_nodes_extend(old(self).nodes@, self.nodes@, old(self).edges@, old(self).sinks@);
        }
        id
    }

    /// Insert a new node bound to the transformation registered under the
    /// given name, and return its fresh identifier; fail if the registry
    /// does not know the name.
    pub fn add_transform(&mut self, name: &str) -> (r: Result<NodeId, DSTError>) where
        T: NamedAlgorithms,

        requires
            old(self).wf(),
            old(self).next_id < u64::MAX,
            old(self).version < u64::MAX,
        ensures
            final (self).wf(),
            T::spec_transform(name@) is None ==> (r matches Err(e) && e matches
                DSTError::UnknownTransformation(n) && n@ == name@ && *final (self) == *old(self)),
            T::spec_transform(name@) matches Some(m) ==> (r matches Ok(id)
                && id.0 == old(self).next_id
                && final (self).nodes@.len() == old(self).nodes@.len() + 1
                && final (self).nodes@.subrange(0, old(self).nodes@.len() as int) == old(self).nodes@
                && final (self).nodes@.last().id == id
                && final (self).nodes@.last().transformation@ == m
                && final (self).nodes@.last().transformation.wf()
                && final (self).edges@ == old(self).edges@
                && final (self).sinks@ == old(self).sinks@
                && final (self).cache@ == old(self).cache@
                && final (self).next_id == old(self).next_id + 1
                && final (self).version == old(self).version + 1
                && final (self).invocations == old(self).invocations),
    {
        match T::get_transform(name) {
            Some(t) => {
                let id = self.add_owned_transform(t);
                proof {
                    assert(self.nodes@.subrange(0, old(self).nodes@.len() as int) =~= old(
                        self,
                    ).nodes@);
                }
                Ok(id)
            },
            None => Err(DSTError::UnknownTransformation(String::from_str(name))),
        }
    }

    /// The position of the node carrying the given identifier.
    fn find_node_index(&self, id: NodeId) -> (r: Option<usize>)
        ensures
            match r {
                Some(i) => i < self.nodes@.len() && self.nodes@[i as int].id == id,
                None => !has_node(self.nodes@, id),
            },
    {
        let mut i: usize = 0;
        while i < self.nodes.len()
            invariant
                i <= self.nodes@.len(),
                forall|j: int| 0 <= j < i ==> (#[trigger] self.nodes@[j]).id != id,
            decreases self.nodes@.len() - i,
        {
            if self.nodes[i].id.0 == id.0 {
                return Some(i);
            }
            i = i + 1;
        }
        None
    }
}

/// The decision `connect` makes for a candidate edge, in the order the
/// checks are applied: the ports must exist and be in bounds, their type
/// tags must be equal, and no data path may already lead from the input's
/// node back to the output's node.
pub open spec fn connect_check<T: TypeContent>(
    nodes: Seq<Node<T>>,
    edges: Seq<Edge>,
    output: Output,
    input: Input,
) -> Result<(), DSTError> {
    if !(valid_output(nodes, output) && valid_input(nodes, input)) {
        Err(DSTError::InvalidPort)
    } else if node_of(nodes, output.node).transformation.output@[output.index as int] != node_of(
        nodes,
        input.node,
    ).transformation.input@[input.index as int] {
        Err(DSTError::IncompatibleTypes)
    } else if reaches(edges, input.node, output.node, nodes.len() as nat) {
        Err(DSTError::CycleDetected)
    } else {
        Ok(())
    }
}

impl<T: TypeContent> DST<T> {
    /// Decide whether a data path of at most `fuel` edges leads from `from`
    /// to `to` over the current edges.  The search mirrors the definition
    /// of `reaches` and may re-explore shared nodes; graphs are edited
    /// interactively and stay small.
    fn reach_exec(&self, from: NodeId, to: NodeId, fuel: usize) -> (r: bool)
        ensures
            r == reaches(self.edges@, from, to, fuel as nat),
        decreases fuel,
    {
        if from.0 == to.0 {
            return true;
        }
        if fuel == 0 {
            return false;
        }
        let mut k: usize = 0;
        while k < self.edges.len()
            invariant
                k <= self.edges@.len(),
                from != to,
                fuel > 0,
                forall|j: int|
                    0 <= j < k ==> !((#[trigger] self.edges@[j]).output.node == from && reaches(
                        self.edges@,
                        self.edges@[j].input.node,
                        to,
                        (fuel - 1) as nat,
                    )),
            decreases self.edges@.len() - k,
        {
            let e = self.edges[k];
            if e.output.node.0 == from.0 {
                if self.reach_exec(e.input.node, to, fuel - 1) {
                    return true;
                }
            }
            k = k + 1;
        }
        false
    }

    /// The position of the unique edge into the given input, if any.
    fn find_edge_into_index(&self, i: Input) -> (r: Option<usize>)
        ensures
            match r {
                Some(k) => k < self.edges@.len() && self.edges@[k as int].input == i,
                None => forall|j: int|
                    0 <= j < self.edges@.len() ==> (#[trigger] self.edges@[j]).input != i,
            },
    {
        let mut k: usize = 0;
        while k < self.edges.len()
            invariant
                k <= self.edges@.len(),
                forall|j: int| 0 <= j < k ==> (#[trigger] self.edges@[j]).input != i,
            decreases self.edges@.len() - k,
        {
            if self.edges[k].input == i {
                return Some(k);
            }
            k = k + 1;
        }
        None
    }

    /// Connect an output port to an input port.  The connection fails with
    /// `InvalidPort` if either port is missing or out of bounds, with
    /// `IncompatibleTypes` if the two ports carry different type tags, and
    /// with `CycleDetected` if the new edge would close a path back to its
    /// own source; a failed connection leaves the graph untouched.  On
    /// success, any prior edge into the same input is replaced, every other
    /// edge is kept, and every cached result is invalidated.
    pub fn connect(&mut self, output: Output, input: Input) -> (r: Result<(), DSTError>)
        requires
            old(self).wf(),
            old(self).version < u64::MAX,
        ensures
            final (self).wf(),
            r == connect_check(old(self).nodes@, old(self).edges@, output, input),
            r matches Err(_) ==> *final (self) == *old(self),
            r matches Ok(_) ==> edge_into(final (self).edges@, input) == Some(output),
            r matches Ok(_) ==> forall|i2: Input|
                i2 != input ==> edge_into(final (self).edges@, i2) == edge_into(
                    old(self).edges@,
                    i2,
                ),
            r matches Ok(_) ==> forall|e: Edge|
                final (self).edges@.contains(e) <==> ((old(self).edges@.contains(e) && e.input
                    != input) || e == (Edge { output, input })),
            r matches Ok(_) ==> final (self).nodes@ == old(self).nodes@ && final (self).sinks@
                == old(self).sinks@ && final (self).cache@ == old(self).cache@
                && final (self).next_id == old(self).next_id
                && final (self).version == old(self).version + 1
                && final (self).invocations == old(self).invocations,
            r matches Ok(_) ==> forall|o2: Output| !final (self).cache_fresh(o2),
            r matches Ok(_) && edge_into(old(self).edges@, input) is None ==> final (self).edges@
                == old(self).edges@.push(Edge { output, input }),
    {
        let oi = match self.find_node_index(output.node) {
            Some(i) => i,
            None => {
                return Err(DSTError::InvalidPort);
            },
        };
        let ii = match self.find_node_index(input.node) {
            Some(i) => i,
            None => {
                return Err(DSTError::InvalidPort);
            },
        };
        proof {
            lemma_node_lookup(self.nodes@, oi as int);
            lemma_node_lookup(self.nodes@, ii as int);
        }
        if !(output.index < self.nodes[oi].transformation.output.len()) {
            return Err(DSTError::InvalidPort);
        }
        if !(input.index < self.nodes[ii].transformation.input.len()) {
            return Err(DSTError::InvalidPort);
        }
        let tags_equal = T::same_type(
            &self.nodes[oi].transformation.output[output.index],
            &self.nodes[ii].transformation.input[input.index],
        );
        if !tags_equal {
            return Err(DSTError::IncompatibleTypes);
        }
        if self.reach_exec(input.node, output.node, self.nodes.len()) {
            return Err(DSTError::CycleDetected);
        }
        let ghost prior_edges = self.edges@;
        match self.find_edge_into_index(input) {
            Some(j) => {
                proof {
                    lemma_remove_edge(self.edges@, j as int);
                }
                self.edges.remove(j);
            },
            None => {},
        }
        proof {
            assert(forall|e: Edge|
                self.edges@.contains(e) <==> (prior_edges.contains(e) && e.input != input));
        }
        let ghost mid_edges = self.edges@;
        self.edges.push(Edge { output, input });
        self.version = self.version + 1;
        proof {
            let new_edge = Edge { output, input };
            let fin = self.edges@;
            assert(fin[fin.len() - 1] == new_edge);
            assert forall|e: Edge|
                fin.contains(e) <==> ((prior_edges.contains(e) && e.input != input) || e
                    == new_edge) by {
                if fin.contains(e) {
                    let k = choose|k: int| 0 <= k < fin.len() && fin[k] == e;
                    if k < fin.len() - 1 {
                        assert(mid_edges[k] == e);
                        assert(mid_edges.contains(e));
                    }
                }
                if prior_edges.contains(e) && e.input != input {
                    let k = choose|k: int| 0 <= k < mid_edges.len() && mid_edges[k] == e;
                    assert(fin[k] == e);
                }
                if e == new_edge {
                    assert(fin[fin.len() - 1] == e);
                }
            }
            assert(fanin_unique(fin)) by {
                assert forall|k1: int, k2: int|
                    0 <= k1 < k2 < fin.len() implies (#[trigger] fin[k1]).input != (
                #[trigger] fin[k2]).input by {
                    if k2 < fin.len() - 1 {
                        assert(fin[k1] == mid_edges[k1] && fin[k2] == mid_edges[k2]);
                    } else {
                        assert(fin[k1] == mid_edges[k1]);
                        assert(mid_edges.contains(mid_edges[k1]));
                        assert(prior_edges.contains(mid_edges[k1]) && mid_edges[k1].input
                            != input);
                    }
                }
            }
            assert forall|k: int| 0 <= k < fin.len() implies edge_wf(
                self.nodes@,
                #[trigger] fin[k],
            ) by {
                if k < fin.len() - 1 {
                    assert(fin[k] == mid_edges[k]);
                    assert(mid_edges.contains(mid_edges[k]));
                    assert(prior_edges.contains(fin[k]));
                    let k2 = choose|k2: int|
                        0 <= k2 < prior_edges.len() && prior_edges[k2] == fin[k];
                    assert(edge_wf(self.nodes@, prior_edges[k2]));
                }
            }
            lemma_edge_lookup(fin, fin.len() - 1);
            assert forall|i2: Input| i2 != input implies edge_into(fin, i2) == edge_into(
                prior_edges,
                i2,
            ) by {
                assert forall|e: Edge| e.input == i2 implies (fin.contains(e)
                    <==> prior_edges.contains(e)) by {}
                lemma_edge_into_by_contains(prior_edges, fin, i2);
            }
        }
        Ok(())
    }
}

impl<T: TypeContent> DST<T> {
    /// Mark an output as externally observed, so it may be requested for
    /// evaluation.  Attaching an already attached output changes nothing.
    pub fn attach_output(&mut self, o: Output) -> (r: Result<(), DSTError>)
        requires
            old(self).wf(),
        ensures
            final (self).wf(),
            r matches Err(_) ==> *final (self) == *old(self),
            r == (if valid_output(old(self).nodes@, o) {
                Ok::<(), DSTError>(())
            } else {
                Err::<(), DSTError>(DSTError::InvalidPort)
            }),
            r matches Ok(_) ==> final (self).sinks@.contains(o),
            r matches Ok(_) ==> forall|s: Output|
                #![auto]
                final (self).sinks@.contains(s) <==> (old(self).sinks@.contains(s) || s == o),
            r matches Ok(_) ==> final (self).nodes@ == old(self).nodes@ && final (self).edges@
                == old(self).edges@ && final (self).cache@ == old(self).cache@
                && final (self).next_id == old(self).next_id
                && final (self).version == old(self).version
                && final (self).invocations == old(self).invocations,
            r matches Ok(_) && !old(self).sinks@.contains(o) ==> final (self).sinks@ == old(
                self,
            ).sinks@.push(o),
            r matches Ok(_) && old(self).sinks@.contains(o) ==> final (self).sinks@ == old(
                self,
            ).sinks@,
    {
        let ni = match self.find_node_index(o.node) {
            Some(i) => i,
            None => {
                return Err(DSTError::InvalidPort);
            },
        };
        proof {
            lemma_node_lookup(self.nodes@, ni as int);
        }
        if !(o.index < self.nodes[ni].transformation.output.len()) {
            return Err(DSTError::InvalidPort);
        }
        let mut k: usize = 0;
        while k < self.sinks.len()
            invariant
                k <= self.sinks@.len(),
                *self == *old(self),
                old(self).wf(),
                valid_output(self.nodes@, o),
                forall|j: int| 0 <= j < k ==> (#[trigger] self.sinks@[j]) != o,
            decreases self.sinks@.len() - k,
        {
            if self.sinks[k] == o {
                proof {
                    assert(self.sinks@[k as int] == o);
                    assert(self.sinks@.contains(o));
                }
                return Ok(());
            }
            k = k + 1;
        }
        let ghost old_sinks = self.sinks@;
        self.sinks.push(o);
        proof {
            assert(self.sinks@[self.sinks@.len() - 1] == o);
            assert(self.sinks@.contains(o));
            assert forall|s: Output|
                #![auto]
                self.sinks@.contains(s) <==> (old_sinks.contains(s) || s == o) by {
                if self.sinks@.contains(s) {
                    let m = choose|m: int| 0 <= m < self.sinks@.len() && self.sinks@[m] == s;
                    if m < self.sinks@.len() - 1 {
                        assert(old_sinks[m] == s);
                        assert(old_sinks.contains(s));
                    }
                }
                if old_sinks.contains(s) {
                    let m = choose|m: int| 0 <= m < old_sinks.len() && old_sinks[m] == s;
                    assert(self.sinks@[m] == s);
                }
            }
        }
        Ok(())
    }

    /// Remove an output from the externally observed set.  Detaching an
    /// output that is not attached changes nothing.
    pub fn detach_output(&mut self, o: Output)
        requires
            old(self).wf(),
        ensures
            final (self).wf(),
            !final (self).sinks@.contains(o),
            forall|s: Output|
                #![auto]
                final (self).sinks@.contains(s) <==> (old(self).sinks@.contains(s) && s != o),
            final (self).nodes@ == old(self).nodes@ && final (self).edges@ == old(self).edges@
                && final (self).cache@ == old(self).cache@ && final (self).next_id == old(
                self,
            ).next_id && final (self).version == old(self).version && final (self).invocations
                == old(self).invocations,
    {
        let ghost pred = |s: Output| s != o;
        let mut kept: Vec<Output> = Vec::new();
        let mut k: usize = 0;
        while k < self.sinks.len()
            invariant
                k <= self.sinks@.len(),
                kept@ == self.sinks@.subrange(0, k as int).filter(pred),
                pred == (|s: Output| s != o),
            decreases self.sinks@.len() - k,
        {
            let ghost prefix = self.sinks@.subrange(0, k as int);
            let ghost prefix1 = self.sinks@.subrange(0, k as int + 1);
            let s = self.sinks[k];
            if !(s == o) {
                kept.push(s);
            }
            proof {
                reveal(Seq::filter);
                assert(prefix1.drop_last() =~= prefix);
                assert(prefix1.last() == self.sinks@[k as int]);
                assert(kept@ == prefix1.filter(pred));
            }
            k = k + 1;
        }
        proof {
            assert(self.sinks@.subrange(0, self.sinks@.len() as int) =~= self.sinks@);
            lemma_filter_membership(self.sinks@, pred);
            lemma_filter_distinct(self.sinks@, pred);
        }
        self.sinks = kept;
        proof {
            assert forall|k2: int| 0 <= k2 < self.sinks@.len() implies valid_output(
                self.nodes@,
                #[trigger] self.sinks@[k2],
            ) by {
                assert(self.sinks@.contains(self.sinks@[k2]));
                assert(old(self).sinks@.contains(self.sinks@[k2]));
                let j = choose|j: int|
                    0 <= j < old(self).sinks@.len() && old(self).sinks@[j] == self.sinks@[k2];
            }
        }
    }

    /// Remove a node.  The removal fails with `InvalidPort` if no node
    /// carries the identifier, and with `NodeInUse` while any edge or any
    /// attached sink still references the node: callers must disconnect
    /// and detach first.  On success the node and its cached results are
    /// removed.
    pub fn remove_node(&mut self, id: NodeId) -> (r: Result<(), DSTError>)
        requires
            old(self).wf(),
            old(self).version < u64::MAX,
        ensures
            final (self).wf(),
            r matches Err(_) ==> *final (self) == *old(self),
            !has_node(old(self).nodes@, id) ==> r == Err::<(), DSTError>(DSTError::InvalidPort),
            has_node(old(self).nodes@, id) ==> (r == (if node_referenced(
                old(self).edges@,
                old(self).sinks@,
                id,
            ) {
                Err::<(), DSTError>(DSTError::NodeInUse)
            } else {
                Ok::<(), DSTError>(())
            })),
            r matches Ok(_) ==> exists|j: int|
                0 <= j < old(self).nodes@.len() && (#[trigger] old(self).nodes@[j]).id == id
                    && final (self).nodes@ == old(self).nodes@.remove(j),
            r matches Ok(_) ==> !has_node(final (self).nodes@, id),
            r matches Ok(_) ==> forall|c: CacheEntry<T>|
                #![auto]
                final (self).cache@.contains(c) <==> (old(self).cache@.contains(c)
                    && c.output.node != id),
            r matches Ok(_) ==> final (self).edges@ == old(self).edges@ && final (self).sinks@
                == old(self).sinks@ && final (self).next_id == old(self).next_id
                && final (self).version == old(self).version + 1
                && final (self).invocations == old(self).invocations,
            r matches Ok(_) ==> forall|o2: Output| !final (self).cache_fresh(o2),
    {
        let j = match self.find_node_index(id) {
            Some(i) => i,
            None => {
                return Err(DSTError::InvalidPort);
            },
        };
        proof {
            lemma_node_lookup(self.nodes@, j as int);
        }
        let mut k: usize = 0;
        while k < self.edges.len()
            invariant
                k <= self.edges@.len(),
                *self == *old(self),
                old(self).wf(),
                has_node(self.nodes@, id),
                forall|j2: int|
                    0 <= j2 < k ==> (#[trigger] self.edges@[j2]).output.node != id
                        && self.edges@[j2].input.node != id,
            decreases self.edges@.len() - k,
        {
            let e = self.edges[k];
            if e.output.node == id || e.input.node == id {
                proof {
                    assert(self.edges@[k as int].output.node == id || self.edges@[k as int].input.node == id);
                    assert(node_referenced(self.edges@, self.sinks@, id));
                }
                return Err(DSTError::NodeInUse);
            }
            k = k + 1;
        }
        let mut k: usize = 0;
        while k < self.sinks.len()
            invariant
                k <= self.sinks@.len(),
                *self == *old(self),
                old(self).wf(),
                has_node(self.nodes@, id),
                forall|j2: int| 0 <= j2 < k ==> (#[trigger] self.sinks@[j2]).node != id,
            decreases self.sinks@.len() - k,
        {
            if self.sinks[k].node == id {
                proof {
                    assert(self.sinks@[k as int].node == id);
                    assert(node_referenced(self.edges@, self.sinks@, id));
                }
                return Err(DSTError::NodeInUse);
            }
            k = k + 1;
        }
        proof {
            assert(!node_referenced(self.edges@, self.sinks@, id));
        }
        let ghost old_nodes = self.nodes@;
        self.nodes.remove(j);
        proof {
            lemma_nodes_remove(old_nodes, j as int);
            lemma_nodes_keep_frame(old_nodes, self.nodes@, self.edges@, self.sinks@, id);
        }
        let ghost pred = |c: CacheEntry<T>| c.output.node != id;
        let mut kept: Vec<CacheEntry<T>> = Vec::new();
        let mut k: usize = 0;
        while k < self.cache.len()
            invariant
                k <= self.cache@.len(),
                kept@ == self.cache@.subrange(0, k as int).filter(pred),
                pred == (|c: CacheEntry<T>| c.output.node != id),
            decreases self.cache@.len() - k,
        {
            let ghost prefix = self.cache@.subrange(0, k as int);
            let ghost prefix1 = self.cache@.subrange(0, k as int + 1);
            if !(self.cache[k].output.node == id) {
                let entry = CacheEntry {
                    output: self.cache[k].output,
                    version: self.cache[k].version,
                    value: self.cache[k].value.duplicate(),
                };
                assert(entry == self.cache@[k as int]);
                kept.push(entry);
            }
            proof {
                reveal(Seq::filter);
                assert(prefix1.drop_last() =~= prefix);
                assert(prefix1.last() == self.cache@[k as int]);
                assert(kept@ == prefix1.filter(pred));
            }
            k = k + 1;
        }
        proof {
            assert(self.cache@.subrange(0, self.cache@.len() as int) =~= self.cache@);
            lemma_filter_membership(self.cache@, pred);
            lemma_filter_distinct_cache(self.cache@, pred);
        }
        self.cache = kept;
        self.version = self.version + 1;
        proof {
            assert forall|k2: int| 0 <= k2 < self.cache@.len() implies (
            #[trigger] self.cache@[k2]).version < self.version by {
                assert(self.cache@.contains(self.cache@[k2]));
                assert(old(self).cache@.contains(self.cache@[k2]));
                let m = choose|m: int|
                    0 <= m < old(self).cache@.len() && old(self).cache@[m] == self.cache@[k2];
            }
            assert forall|o2: Output| !self.cache_fresh(o2) by {
                if exists|k2: int|
                    0 <= k2 < self.cache@.len() && (#[trigger] self.cache@[k2]).output == o2 {
                    let k2 = choose|k2: int|
                        0 <= k2 < self.cache@.len() && (#[trigger] self.cache@[k2]).output == o2;
                    assert(self.cache@[k2].version < self.version);
                }
            }
        }
        Ok(())
    }
}

/// The decision `update_constant` makes: the node must exist, no edge may
/// feed it, every outgoing edge and attached sink must use output slot
/// zero, and every outgoing edge must lead to an input of the new
/// constant's type; otherwise callers must disconnect or detach first.
pub open spec fn update_check<T: TypeContent>(
    nodes: Seq<Node<T>>,
    edges: Seq<Edge>,
    sinks: Seq<Output>,
    id: NodeId,
    tag: T::Type,
) -> Result<(), DSTError> {
    if !has_node(nodes, id) {
        Err(DSTError::InvalidPort)
    } else if (exists|k: int|
        0 <= k < edges.len() && ((#[trigger] edges[k]).input.node == id || (edges[k].output.node
            == id && edges[k].output.index != 0))) || (exists|k: int|
        0 <= k < sinks.len() && (#[trigger] sinks[k]).node == id && sinks[k].index != 0) {
        Err(DSTError::NodeInUse)
    } else if exists|k: int|
        0 <= k < edges.len() && (#[trigger] edges[k]).output.node == id && node_of(
            nodes,
            edges[k].input.node,
        ).transformation.input@[edges[k].input.index as int] != tag {
        Err(DSTError::IncompatibleTypes)
    } else {
        Ok(())
    }
}

impl<T: TypeContent> DST<T> {
    /// Rewrite a node in place into a constant emitter of the given value,
    /// invalidating every cached result.  The node keeps its identifier and
    /// its outgoing edges; the update fails, leaving the graph untouched,
    /// while the rewrite would break a connection or an attached sink.
    pub fn update_constant(&mut self, id: NodeId, value: T) -> (r: Result<(), DSTError>)
        requires
            old(self).wf(),
            old(self).version < u64::MAX,
        ensures
            final (self).wf(),
            r matches Err(_) ==> *final (self) == *old(self),
            r == update_check(
                old(self).nodes@,
                old(self).edges@,
                old(self).sinks@,
                id,
                value.spec_type(),
            ),
            r matches Ok(_) ==> final (self).nodes@.len() == old(self).nodes@.len(),
            r matches Ok(_) ==> forall|k: int|
                0 <= k < old(self).nodes@.len() && (#[trigger] old(self).nodes@[k]).id != id
                    ==> final (self).nodes@[k] == old(self).nodes@[k],
            r matches Ok(_) ==> forall|k: int|
                0 <= k < old(self).nodes@.len() ==> (#[trigger] final (self).nodes@[k]).id == old(
                    self,
                ).nodes@[k].id,
            r matches Ok(_) ==> has_node(final (self).nodes@, id) && node_of(
                final (self).nodes@,
                id,
            ).transformation@.name == "const"@ && node_of(final (self).nodes@, id).transformation@.input
                == Seq::<T::Type>::empty() && node_of(final (self).nodes@, id).transformation@.output
                == seq![value.spec_type()] && node_of(final (self).nodes@, id).transformation@.algorithm
                == crate::transform::AlgoModel::Constant(seq![value]),
            r matches Ok(_) ==> final (self).edges@ == old(self).edges@ && final (self).sinks@
                == old(self).sinks@ && final (self).cache@ == old(self).cache@
                && final (self).next_id == old(self).next_id
                && final (self).version == old(self).version + 1
                && final (self).invocations == old(self).invocations,
            r matches Ok(_) ==> forall|o2: Output| !final (self).cache_fresh(o2),
    {
        let j = match self.find_node_index(id) {
            Some(i) => i,
            None => {
                return Err(DSTError::InvalidPort);
            },
        };
        proof {
            lemma_node_lookup(self.nodes@, j as int);
        }
        let tag = value.get_type();
        let mut k: usize = 0;
        while k < self.edges.len()
            invariant
                k <= self.edges@.len(),
                *self == *old(self),
                old(self).wf(),
                has_node(self.nodes@, id),
                forall|j2: int|
                    0 <= j2 < k ==> !((#[trigger] self.edges@[j2]).input.node == id || (
                    self.edges@[j2].output.node == id && self.edges@[j2].output.index != 0)),
            decreases self.edges@.len() - k,
        {
            let e = self.edges[k];
            if e.input.node == id || (e.output.node == id && e.output.index != 0) {
                proof {
                    assert(self.edges@[k as int].input.node == id || (self.edges@[k as int].output.node
                        == id && self.edges@[k as int].output.index != 0));
                }
                return Err(DSTError::NodeInUse);
            }
            k = k + 1;
        }
        let mut k: usize = 0;
        while k < self.sinks.len()
            invariant
                k <= self.sinks@.len(),
                *self == *old(self),
                old(self).wf(),
                has_node(self.nodes@, id),
                forall|j2: int|
                    0 <= j2 < k ==> !((#[trigger] self.sinks@[j2]).node == id
                        && self.sinks@[j2].index != 0),
            decreases self.sinks@.len() - k,
        {
            let s = self.sinks[k];
            if s.node == id && s.index != 0 {
                proof {
                    assert(self.sinks@[k as int].node == id && self.sinks@[k as int].index != 0);
                }
                return Err(DSTError::NodeInUse);
            }
            k = k + 1;
        }
        let mut k: usize = 0;
        while k < self.edges.len()
            invariant
                k <= self.edges@.len(),
                *self == *old(self),
                old(self).wf(),
                has_node(self.nodes@, id),
                tag == value.spec_type(),
                forall|j2: int|
                    0 <= j2 < self.edges@.len() ==> !((#[trigger] self.edges@[j2]).input.node == id
                        || (self.edges@[j2].output.node == id && self.edges@[j2].output.index
                        != 0)),
                forall|j2: int|
                    0 <= j2 < self.sinks@.len() ==> !((#[trigger] self.sinks@[j2]).node == id
                        && self.sinks@[j2].index != 0),
                forall|j2: int|
                    0 <= j2 < k ==> !((#[trigger] self.edges@[j2]).output.node == id && node_of(
                        self.nodes@,
                        self.edges@[j2].input.node,
                    ).transformation.input@[self.edges@[j2].input.index as int]
                        != value.spec_type()),
            decreases self.edges@.len() - k,
        {
            let e = self.edges[k];
            if e.output.node == id {
                let di = match self.find_node_index(e.input.node) {
                    Some(i) => i,
                    None => {
                        proof {
                            assert(edge_wf(self.nodes@, self.edges@[k as int]));
                            assert(false);
                        }
                        return Err(DSTError::InvalidPort);
                    },
                };
                proof {
                    lemma_node_lookup(self.nodes@, di as int);
                    assert(edge_wf(self.nodes@, self.edges@[k as int]));
                }
                let ok = T::same_type(
                    &self.nodes[di].transformation.input[e.input.index],
                    &tag,
                );
                if !ok {
                    proof {
                        assert(node_of(self.nodes@, self.edges@[k as int].input.node)
                            == self.nodes@[di as int]);
                        assert(self.edges@[k as int].output.node == id && node_of(
                            self.nodes@,
                            self.edges@[k as int].input.node,
                        ).transformation.input@[self.edges@[k as int].input.index as int]
                            != value.spec_type());
                    }
                    return Err(DSTError::IncompatibleTypes);
                }
            }
            k = k + 1;
        }
        let ghost old_nodes = self.nodes@;
        let mut node = self.nodes.remove(j);
        node.transformation.set_constant(value);
        self.nodes.insert(j, node);
        self.version = self.version + 1;
        proof {
            assert(self.nodes@ =~= old_nodes.update(j as int, self.nodes@[j as int]));
            let n2 = self.nodes@[j as int];
            assert(n2.id == id);
            assert(n2.transformation.wf());
            lemma_nodes_update(old_nodes, j as int, n2);
            lemma_node_lookup(self.nodes@, j as int);
            assert(n2.transformation@.input =~= Seq::<T::Type>::empty());
            assert forall|k2: int| 0 <= k2 < self.edges@.len() implies edge_wf(
                self.nodes@,
                #[trigger] self.edges@[k2],
            ) by {
                let e = self.edges@[k2];
                assert(edge_wf(old_nodes, e));
                assert(e.input.node != id);
                if e.output.node == id {
                    assert(e.output.index == 0);
                    assert(node_of(self.nodes@, e.output.node) == n2);
                    assert(node_of(self.nodes@, e.input.node) == node_of(old_nodes, e.input.node));
                }
            }
            assert forall|k2: int| 0 <= k2 < self.sinks@.len() implies valid_output(
                self.nodes@,
                #[trigger] self.sinks@[k2],
            ) by {
                let s = self.sinks@[k2];
                assert(valid_output(old_nodes, s));
                if s.node == id {
                    assert(s.index == 0);
                    assert(node_of(self.nodes@, s.node) == n2);
                }
            }
            assert forall|o2: Output| !self.cache_fresh(o2) by {
                if exists|k2: int|
                    0 <= k2 < self.cache@.len() && (#[trigger] self.cache@[k2]).output == o2 {
                    let k2 = choose|k2: int|
                        0 <= k2 < self.cache@.len() && (#[trigger] self.cache@[k2]).output == o2;
                    assert(self.cache@[k2].version <= old(self).version);
                }
            }
        }
        Ok(())
    }
}

impl<T: TypeContent> DST<T> {
    /// The unique edge into the given input, if any.
    fn find_edge_into(&self, i: Input) -> (r: Option<Output>)
        requires
            fanin_unique(self.edges@),
        ensures
            r == edge_into(self.edges@, i),
    {
        match self.find_edge_into_index(i) {
            Some(k) => {
                proof {
                    lemma_edge_lookup(self.edges@, k as int);
                }
                Some(self.edges[k].output)
            },
            None => None,
        }
    }

    /// Walk the dependencies of the given output and evaluate it, counting
    /// how many times an algorithm was invoked on the way.
    fn eval_rec(&self, o: Output, fuel: usize) -> (res: (EvalResult<T>, Ghost<int>))
        requires
            self.wf(),
        ensures
            res.0 == spec_eval(self.nodes@, self.edges@, o, fuel as nat),
            res.1@ >= 0,
        decreases fuel,
    {
        if fuel == 0 {
            return (EvalResult::Cyclic, Ghost(0));
        }
        let idx = match self.find_node_index(o.node) {
            Some(i) => i,
            None => {
                return (EvalResult::Cyclic, Ghost(0));
            },
        };
        proof {
            lemma_node_lookup(self.nodes@, idx as int);
        }
        match &self.nodes[idx].transformation.algorithm {
            Algorithm::Constant(c) => {
                if o.index < c.len() {
                    (EvalResult::Value(c[o.index].duplicate()), Ghost(0))
                } else {
                    (EvalResult::Cyclic, Ghost(0))
                }
            },
            Algorithm::Function(f) => {
                let arity = self.nodes[idx].transformation.input.len();
                let mut args: Vec<T> = Vec::new();
                let mut count: Ghost<int> = Ghost(0);
                let mut k: usize = 0;
                while k < arity
                    invariant
                        self.wf(),
                        k <= arity,
                        fuel >= 1,
                        idx < self.nodes@.len(),
                        self.nodes@[idx as int].id == o.node,
                        arity == self.nodes@[idx as int].transformation.input@.len(),
                        spec_eval_args(
                            self.nodes@,
                            self.edges@,
                            o.node,
                            k as int,
                            (fuel - 1) as nat,
                        ) == ArgsOut::Args(args@),
                        count@ >= 0,
                    decreases arity - k,
                {
                    let inp = Input { node: o.node, index: k };
                    match self.find_edge_into(inp) {
                        None => {
                            proof {
                                lemma_node_lookup(self.nodes@, idx as int);
                                assert(spec_eval_args(
                                    self.nodes@,
                                    self.edges@,
                                    o.node,
                                    k + 1 as int,
                                    (fuel - 1) as nat,
                                ) == ArgsOut::Stop(EvalResult::<T>::Unconnected(inp)));
                                lemma_args_stop_persists(
                                    self.nodes@,
                                    self.edges@,
                                    o.node,
                                    k + 1 as int,
                                    arity as int,
                                    (fuel - 1) as nat,
                                );
                            }
                            return (EvalResult::Unconnected(inp), count);
                        },
                        Some(src) => {
                            let (r, c2) = self.eval_rec(src, fuel - 1);
                            count = Ghost(count@ + c2@);
                            match r {
                                EvalResult::Value(v) => {
                                    args.push(v);
                                },
                                r => {
                                    proof {
                                        lemma_node_lookup(self.nodes@, idx as int);
                                        assert(spec_eval_args(
                                            self.nodes@,
                                            self.edges@,
                                            o.node,
                                            k + 1 as int,
                                            (fuel - 1) as nat,
                                        ) == ArgsOut::Stop(r));
                                        lemma_args_stop_persists(
                                            self.nodes@,
                                            self.edges@,
                                            o.node,
                                            k + 1 as int,
                                            arity as int,
                                            (fuel - 1) as nat,
                                        );
                                    }
                                    return (r, count);
                                },
                            }
                        },
                    }
                    k = k + 1;
                }
                let mut out = f.invoke(args);
                count = Ghost(count@ + 1);
                proof {
                    lemma_node_lookup(self.nodes@, idx as int);
                }
                if o.index < out.len() {
                    let v = out.remove(o.index);
                    match v {
                        Ok(val) => (EvalResult::Value(val), count),
                        Err(e) => (EvalResult::AlgoError(e), count),
                    }
                } else {
                    (EvalResult::Cyclic, count)
                }
            },
        }
    }

    /// The position of the cache entry for the given output, if any.
    fn find_cache_index(&self, o: Output) -> (r: Option<usize>)
        ensures
            match r {
                Some(k) => k < self.cache@.len() && self.cache@[k as int].output == o,
                None => forall|j: int|
                    0 <= j < self.cache@.len() ==> (#[trigger] self.cache@[j]).output != o,
            },
    {
        let mut k: usize = 0;
        while k < self.cache.len()
            invariant
                k <= self.cache@.len(),
                forall|j: int| 0 <= j < k ==> (#[trigger] self.cache@[j]).output != o,
            decreases self.cache@.len() - k,
        {
            if self.cache[k].output == o {
                return Some(k);
            }
            k = k + 1;
        }
        None
    }

    /// Evaluate a sink output against the current graph.  A result cached
    /// against the current version is served as it is, with the graph — and
    /// the invocation count — untouched; otherwise the dependency walk runs,
    /// and its outcome is cached for the output before it is returned.
    pub fn compute(&mut self, o: Output) -> (r: EvalResult<T>)
        requires
            old(self).wf(),
            old(self).sinks@.contains(o),
        ensures
            final (self).wf(),
            r == spec_eval(old(self).nodes@, old(self).edges@, o, old(self).fuel()),
            old(self).cache_fresh(o) ==> *final (self) == *old(self) && r == old(
                self,
            ).cached_value(o),
            final (self).cache_fresh(o) && final (self).cached_value(o) == r,
            forall|o2: Output|
                o2 != o ==> cache_entry_for(final (self).cache@, o2) == cache_entry_for(
                    old(self).cache@,
                    o2,
                ),
            final (self).nodes@ == old(self).nodes@ && final (self).edges@ == old(self).edges@
                && final (self).sinks@ == old(self).sinks@ && final (self).next_id == old(
                self,
            ).next_id && final (self).version == old(self).version,
            final (self).invocations@ >= old(self).invocations@,
    {
        let found = self.find_cache_index(o);
        match found {
            Some(ci) => {
                proof {
                    lemma_cache_lookup(self.cache@, ci as int);
                }
                if self.cache[ci].version == self.version {
                    return self.cache[ci].value.duplicate();
                }
                proof {
                    lemma_remove_cache(self.cache@, ci as int);
                }
                let _ = self.cache.remove(ci);
                let ghost mid_cache = self.cache@;
                let (r, c) = self.eval_rec(o, self.nodes.len());
                self.invocations = Ghost(self.invocations@ + c@);
                let entry = CacheEntry { output: o, version: self.version, value: r.duplicate() };
                self.cache.push(entry);
                proof {
                    self.lemma_cache_after_store(mid_cache, o, entry);
                }
                r
            },
            None => {
                let ghost old_cache = self.cache@;
                let (r, c) = self.eval_rec(o, self.nodes.len());
                self.invocations = Ghost(self.invocations@ + c@);
                let entry = CacheEntry { output: o, version: self.version, value: r.duplicate() };
                self.cache.push(entry);
                proof {
                    self.lemma_cache_after_store(old_cache, o, entry);
                }
                r
            },
        }
    }

    /// After storing a new entry for `o` at the end of a cache holding no
    /// entry for `o`, lookups for `o` find the new entry and lookups for
    /// any other output are unchanged.
    proof fn lemma_cache_after_store(
        &self,
        old_cache: Seq<CacheEntry<T>>,
        o: Output,
        entry: CacheEntry<T>,
    )
        requires
            forall|k1: int, k2: int|
                0 <= k1 < k2 < old_cache.len() ==> (#[trigger] old_cache[k1]).output != (
                #[trigger] old_cache[k2]).output,
            forall|k: int| 0 <= k < old_cache.len() ==> (#[trigger] old_cache[k]).output != o,
            entry.output == o,
            self.cache@ == old_cache.push(entry),
        ensures
            forall|k1: int, k2: int|
                0 <= k1 < k2 < self.cache@.len() ==> (#[trigger] self.cache@[k1]).output != (
                #[trigger] self.cache@[k2]).output,
            cache_entry_for(self.cache@, o) == Some(entry),
            forall|o2: Output|
                o2 != o ==> cache_entry_for(self.cache@, o2) == cache_entry_for(old_cache, o2),
    {
        let fin = self.cache@;
        assert(fin[fin.len() - 1] == entry);
        assert forall|k1: int, k2: int| 0 <= k1 < k2 < fin.len() implies (
        #[trigger] fin[k1]).output != (#[trigger] fin[k2]).output by {
            if k2 < fin.len() - 1 {
                assert(fin[k1] == old_cache[k1] && fin[k2] == old_cache[k2]);
            } else {
                assert(fin[k1] == old_cache[k1]);
            }
        }
        lemma_cache_lookup(fin, fin.len() - 1);
        assert forall|o2: Output| o2 != o implies cache_entry_for(fin, o2) == cache_entry_for(
            old_cache,
            o2,
        ) by {
            if exists|k: int| 0 <= k < old_cache.len() && (#[trigger] old_cache[k]).output == o2 {
                let k = choose|k: int|
                    0 <= k < old_cache.len() && (#[trigger] old_cache[k]).output == o2;
                assert(fin[k] == old_cache[k]);
                lemma_cache_lookup(fin, k);
                lemma_cache_lookup(old_cache, k);
            } else {
                if exists|k: int| 0 <= k < fin.len() && (#[trigger] fin[k]).output == o2 {
                    let k = choose|k: int| 0 <= k < fin.len() && (#[trigger] fin[k]).output == o2;
                    assert(k < fin.len() - 1);
                    assert(old_cache[k].output == o2);
                }
            }
        }
    }

    /// The observable status of an output: never requested, cached against
    /// the current graph, or only available from before the last change.
    pub fn status(&self, o: Output) -> (r: ComputationState)
        requires
            self.wf(),
        ensures
            (r == ComputationState::NothingDone) == (cache_entry_for(self.cache@, o) is None),
            (r == ComputationState::Cached) == self.cache_fresh(o),
            (r == ComputationState::Stale) == (cache_entry_for(self.cache@, o) matches Some(e)
                && e.version != self.version),
    {
        let mut k: usize = 0;
        while k < self.cache.len()
            invariant
                k <= self.cache@.len(),
                self.wf(),
                forall|j: int| 0 <= j < k ==> (#[trigger] self.cache@[j]).output != o,
            decreases self.cache@.len() - k,
        {
            if self.cache[k].output == o {
                proof {
                    lemma_cache_lookup(self.cache@, k as int);
                }
                if self.cache[k].version == self.version {
                    return ComputationState::Cached;
                } else {
                    return ComputationState::Stale;
                }
            }
            k = k + 1;
        }
        ComputationState::NothingDone
    }

    /// The most recently computed outcome for an output, if any was ever
    /// computed, fresh or stale.
    pub fn cached_result(&self, o: Output) -> (r: Option<&EvalResult<T>>)
        requires
            self.wf(),
        ensures
            match cache_entry_for(self.cache@, o) {
                Some(e) => r matches Some(v) && *v == e.value,
                None => r is None,
            },
    {
        let mut k: usize = 0;
        while k < self.cache.len()
            invariant
                k <= self.cache@.len(),
                self.wf(),
                forall|j: int| 0 <= j < k ==> (#[trigger] self.cache@[j]).output != o,
            decreases self.cache@.len() - k,
        {
            if self.cache[k].output == o {
                proof {
                    lemma_cache_lookup(self.cache@, k as int);
                }
                return Some(&self.cache[k].value);
            }
            k = k + 1;
        }
        None
    }
}

impl<T: TypeContent> DST<T> {
    /// Remove the edge into the given input.  The disconnection fails,
    /// leaving the graph untouched, if no edge leads into the input; on
    /// success every other edge is kept and every cached result is
    /// invalidated.
    pub fn disconnect(&mut self, input: Input) -> (r: Result<(), DSTError>)
        requires
            old(self).wf(),
            old(self).version < u64::MAX,
        ensures
            final (self).wf(),
            r matches Err(_) ==> *final (self) == *old(self),
            r == (if edge_into(old(self).edges@, input) is Some {
                Ok::<(), DSTError>(())
            } else {
                Err::<(), DSTError>(DSTError::InvalidPort)
            }),
            r matches Ok(_) ==> edge_into(final (self).edges@, input) is None,
            r matches Ok(_) ==> forall|i2: Input|
                i2 != input ==> edge_into(final (self).edges@, i2) == edge_into(
                    old(self).edges@,
                    i2,
                ),
            r matches Ok(_) ==> forall|e: Edge|
                final (self).edges@.contains(e) <==> (old(self).edges@.contains(e) && e.input
                    != input),
            r matches Ok(_) ==> final (self).nodes@ == old(self).nodes@ && final (self).sinks@
                == old(self).sinks@ && final (self).cache@ == old(self).cache@
                && final (self).next_id == old(self).next_id
                && final (self).version == old(self).version + 1
                && final (self).invocations == old(self).invocations,
            r matches Ok(_) ==> forall|o2: Output| !final (self).cache_fresh(o2),
    {
        let j = match self.find_edge_into_index(input) {
            Some(j) => j,
            None => {
                return Err(DSTError::InvalidPort);
            },
        };
        proof {
            lemma_edge_lookup(self.edges@, j as int);
            lemma_remove_edge(self.edges@, j as int);
        }
        let ghost prior_edges = self.edges@;
        self.edges.remove(j);
        self.version = self.version + 1;
        proof {
            let fin = self.edges@;
            assert forall|k: int| 0 <= k < fin.len() implies edge_wf(
                self.nodes@,
                #[trigger] fin[k],
            ) && fin[k].input != input by {
                assert(fin.contains(fin[k]));
                assert(prior_edges.contains(fin[k]));
                let k2 = choose|k2: int|
                    0 <= k2 < prior_edges.len() && prior_edges[k2] == fin[k];
                assert(edge_wf(self.nodes@, prior_edges[k2]));
            }
            assert forall|i2: Input| i2 != input implies edge_into(fin, i2) == edge_into(
                prior_edges,
                i2,
            ) by {
                assert forall|e: Edge| e.input == i2 implies (fin.contains(e)
                    <==> prior_edges.contains(e)) by {}
                lemma_edge_into_by_contains(prior_edges, fin, i2);
            }
            assert forall|o2: Output| !self.cache_fresh(o2) by {
                if exists|k2: int|
                    0 <= k2 < self.cache@.len() && (#[trigger] self.cache@[k2]).output == o2 {
                    let k2 = choose|k2: int|
                        0 <= k2 < self.cache@.len() && (#[trigger] self.cache@[k2]).output == o2;
                    assert(self.cache@[k2].version <= old(self).version);
                }
            }
        }
        Ok(())
    }
}

/// A constant emitter's single output evaluates to its constant, whatever
/// the edges: after a node is rewritten into a constant, any dependency
/// walk reaching its output takes the new value.
pub proof fn lemma_constant_output_value<T: TypeContent>(
    nodes: Seq<Node<T>>,
    edges: Seq<Edge>,
    id: NodeId,
    v: T,
    fuel: nat,
)
    requires
        fuel > 0,
        has_node(nodes, id),
        node_of(nodes, id).transformation@.algorithm == crate::transform::AlgoModel::Constant(
            seq![v],
        ),
    ensures
        spec_eval(nodes, edges, Output { node: id, index: 0 }, fuel) == EvalResult::Value(v),
{
    let t = node_of(nodes, id).transformation;
    match t.algorithm {
        Algorithm::Constant(c) => {
            assert(c@ == seq![v]);
        },
        Algorithm::Function(_) => {
            assert(false);
        },
    }
}

/// Once argument collection has stopped, collecting any further inputs
/// leaves the stopping outcome unchanged.
pub proof fn lemma_args_stop_persists<T: TypeContent>(
    nodes: Seq<Node<T>>,
    edges: Seq<Edge>,
    node: NodeId,
    k: int,
    m: int,
    fuel: nat,
)
    requires
        k <= m,
        spec_eval_args(nodes, edges, node, k, fuel) matches ArgsOut::Stop(_),
    ensures
        spec_eval_args(nodes, edges, node, m, fuel) == spec_eval_args(nodes, edges, node, k, fuel),
    decreases m - k,
{
    if k < m {
        lemma_args_stop_persists(nodes, edges, node, k, m - 1, fuel);
    }
}

/// A cache entry found at the given position of a cache with pairwise
/// distinct outputs is the entry its output resolves to.
pub proof fn lemma_cache_lookup<T: TypeContent>(cache: Seq<CacheEntry<T>>, k: int)
    requires
        forall|k1: int, k2: int|
            0 <= k1 < k2 < cache.len() ==> (#[trigger] cache[k1]).output != (
            #[trigger] cache[k2]).output,
        0 <= k < cache.len(),
    ensures
        cache_entry_for(cache, cache[k].output) == Some(cache[k]),
{
    let o = cache[k].output;
    assert(exists|j: int| 0 <= j < cache.len() && (#[trigger] cache[j]).output == o);
    let j = choose|j: int| 0 <= j < cache.len() && (#[trigger] cache[j]).output == o;
    if j < k {
        assert(cache[j].output != cache[k].output);
    } else if k < j {
        assert(cache[k].output != cache[j].output);
    }
}

/// Removing the entry for one output of a cache with pairwise distinct
/// outputs leaves the entries for every other output.
pub proof fn lemma_remove_cache<T: TypeContent>(cache: Seq<CacheEntry<T>>, j: int)
    requires
        forall|k1: int, k2: int|
            0 <= k1 < k2 < cache.len() ==> (#[trigger] cache[k1]).output != (
            #[trigger] cache[k2]).output,
        0 <= j < cache.len(),
    ensures
        forall|k1: int, k2: int|
            0 <= k1 < k2 < cache.remove(j).len() ==> (#[trigger] cache.remove(j)[k1]).output != (
            #[trigger] cache.remove(j)[k2]).output,
        forall|k: int|
            0 <= k < cache.remove(j).len() ==> (#[trigger] cache.remove(j)[k]).output
                != cache[j].output,
        forall|o2: Output|
            o2 != cache[j].output ==> cache_entry_for(cache.remove(j), o2) == cache_entry_for(
                cache,
                o2,
            ),
{
    let rem = cache.remove(j);
    assert forall|k: int| 0 <= k < rem.len() implies (#[trigger] rem[k]).output
        != cache[j].output by {
        if k < j {
            assert(rem[k] == cache[k]);
        } else {
            assert(rem[k] == cache[k + 1]);
        }
    }
    assert forall|k1: int, k2: int| 0 <= k1 < k2 < rem.len() implies (#[trigger] rem[k1]).output
        != (#[trigger] rem[k2]).output by {
        if k2 < j {
        } else if k1 < j {
            assert(rem[k1] == cache[k1] && rem[k2] == cache[k2 + 1]);
        } else {
            assert(rem[k1] == cache[k1 + 1] && rem[k2] == cache[k2 + 1]);
        }
    }
    assert forall|o2: Output| o2 != cache[j].output implies cache_entry_for(rem, o2)
        == cache_entry_for(cache, o2) by {
        if exists|k: int| 0 <= k < cache.len() && (#[trigger] cache[k]).output == o2 {
            let k = choose|k: int| 0 <= k < cache.len() && (#[trigger] cache[k]).output == o2;
            assert(k != j);
            if k < j {
                assert(rem[k] == cache[k]);
                lemma_cache_lookup(rem, k);
            } else {
                assert(rem[k - 1] == cache[k]);
                lemma_cache_lookup(rem, k - 1);
            }
            lemma_cache_lookup(cache, k);
        } else {
            if exists|k: int| 0 <= k < rem.len() && (#[trigger] rem[k]).output == o2 {
                let k = choose|k: int| 0 <= k < rem.len() && (#[trigger] rem[k]).output == o2;
                if k < j {
                    assert(cache[k].output == o2);
                } else {
                    assert(cache[k + 1].output == o2);
                }
            }
        }
    }
}

/// Rewriting one node in place, keeping its identifier, leaves every other
/// identifier resolving to the same node.
pub proof fn lemma_nodes_update<T: TypeContent>(nodes: Seq<Node<T>>, j: int, n2: Node<T>)
    requires
        ids_ascending(nodes),
        0 <= j < nodes.len(),
        n2.id == nodes[j].id,
    ensures
        ids_ascending(nodes.update(j, n2)),
        forall|id: NodeId| has_node(nodes.update(j, n2), id) == has_node(nodes, id),
        forall|id: NodeId|
            id != nodes[j].id && has_node(nodes, id) ==> node_of(nodes.update(j, n2), id)
                == node_of(nodes, id),
        has_node(nodes.update(j, n2), n2.id),
        node_of(nodes.update(j, n2), n2.id) == n2,
{
    let upd = nodes.update(j, n2);
    assert(forall|k: int| 0 <= k < upd.len() ==> (#[trigger] upd[k]).id == nodes[k].id);
    assert forall|id: NodeId| has_node(upd, id) == has_node(nodes, id) by {
        if has_node(upd, id) {
            let i = choose|i: int| 0 <= i < upd.len() && (#[trigger] upd[i]).id == id;
            assert(nodes[i].id == id);
        }
        if has_node(nodes, id) {
            let i = choose|i: int| 0 <= i < nodes.len() && (#[trigger] nodes[i]).id == id;
            assert(upd[i].id == id);
        }
    }
    assert forall|id: NodeId| id != nodes[j].id && has_node(nodes, id) implies node_of(upd, id)
        == node_of(nodes, id) by {
        let i = choose|i: int| 0 <= i < nodes.len() && (#[trigger] nodes[i]).id == id;
        assert(i != j);
        assert(upd[i] == nodes[i]);
        lemma_node_lookup(upd, i);
        lemma_node_lookup(nodes, i);
    }
    lemma_node_lookup(upd, j);
}

/// Whether any edge or any attached sink references the node.
pub open spec fn node_referenced(edges: Seq<Edge>, sinks: Seq<Output>, id: NodeId) -> bool {
    (exists|k: int|
        0 <= k < edges.len() && ((#[trigger] edges[k]).output.node == id || edges[k].input.node
            == id)) || (exists|k: int| 0 <= k < sinks.len() && (#[trigger] sinks[k]).node == id)
}

/// Filtering keeps exactly the elements satisfying the predicate.
pub proof fn lemma_filter_membership<A>(s: Seq<A>, pred: spec_fn(A) -> bool)
    ensures
        forall|x: A| s.filter(pred).contains(x) <==> (s.contains(x) && pred(x)),
    decreases s.len(),
{
    reveal(Seq::filter);
    if s.len() > 0 {
        let d = s.drop_last();
        let f = s.filter(pred);
        let fd = d.filter(pred);
        lemma_filter_membership(d, pred);
        assert forall|x: A| f.contains(x) implies (s.contains(x) && pred(x)) by {
            let k = choose|k: int| 0 <= k < f.len() && f[k] == x;
            if pred(s.last()) {
                assert(f == fd.push(s.last()));
                if k == f.len() - 1 {
                    assert(x == s.last());
                    assert(s[s.len() - 1] == x);
                    assert(s.contains(x));
                } else {
                    assert(fd[k] == x);
                    assert(fd.contains(x));
                    assert(d.contains(x) && pred(x));
                    let m = choose|m: int| 0 <= m < d.len() && d[m] == x;
                    assert(s[m] == x);
                    assert(s.contains(x));
                }
            } else {
                assert(f == fd);
                assert(fd[k] == x);
                assert(fd.contains(x));
                assert(d.contains(x) && pred(x));
                let m = choose|m: int| 0 <= m < d.len() && d[m] == x;
                assert(s[m] == x);
                assert(s.contains(x));
            }
        }
        assert forall|x: A| (s.contains(x) && pred(x)) implies f.contains(x) by {
            let k = choose|k: int| 0 <= k < s.len() && s[k] == x;
            if k == s.len() - 1 {
                assert(x == s.last());
                assert(f == fd.push(s.last()));
                assert(f[f.len() - 1] == x);
                assert(f.contains(x));
            } else {
                assert(d[k] == x);
                assert(d.contains(x));
                assert(fd.contains(x));
                let m = choose|m: int| 0 <= m < fd.len() && fd[m] == x;
                assert(f[m] == x);
                assert(f.contains(x));
            }
        }
    }
}

/// Filtering a sequence of pairwise distinct outputs keeps them pairwise
/// distinct.
pub proof fn lemma_filter_distinct(s: Seq<Output>, pred: spec_fn(Output) -> bool)
    requires
        forall|k1: int, k2: int| 0 <= k1 < k2 < s.len() ==> s[k1] != s[k2],
    ensures
        forall|k1: int, k2: int|
            0 <= k1 < k2 < s.filter(pred).len() ==> s.filter(pred)[k1] != s.filter(pred)[k2],
    decreases s.len(),
{
    reveal(Seq::filter);
    if s.len() > 0 {
        lemma_filter_distinct(s.drop_last(), pred);
        lemma_filter_membership(s.drop_last(), pred);
        let f = s.filter(pred);
        let fd = s.drop_last().filter(pred);
        assert forall|k1: int, k2: int| 0 <= k1 < k2 < f.len() implies f[k1] != f[k2] by {
            if pred(s.last()) && k2 == f.len() - 1 {
                assert(f == fd.push(s.last()));
                assert(f[k1] == fd[k1]);
                assert(fd.contains(fd[k1]));
                assert(s.drop_last().contains(fd[k1]));
                let m = choose|m: int| 0 <= m < s.drop_last().len() && s.drop_last()[m] == fd[k1];
                assert(s.drop_last()[m] == s[m]);
                assert(m < s.len() - 1);
                assert(s[m] != s[s.len() - 1]);
                assert(s.last() == s[s.len() - 1]);
                assert(f[k2] == s.last());
            } else {
                assert(f[k1] == fd[k1] && f[k2] == fd[k2]);
            }
        }
    }
}

/// Filtering a cache with pairwise distinct outputs keeps the outputs
/// pairwise distinct.
pub proof fn lemma_filter_distinct_cache<T: TypeContent>(
    s: Seq<CacheEntry<T>>,
    pred: spec_fn(CacheEntry<T>) -> bool,
)
    requires
        forall|k1: int, k2: int|
            0 <= k1 < k2 < s.len() ==> (#[trigger] s[k1]).output != (#[trigger] s[k2]).output,
    ensures
        forall|k1: int, k2: int|
            0 <= k1 < k2 < s.filter(pred).len() ==> (#[trigger] s.filter(pred)[k1]).output != (
            #[trigger] s.filter(pred)[k2]).output,
    decreases s.len(),
{
    reveal(Seq::filter);
    if s.len() > 0 {
        lemma_filter_distinct_cache(s.drop_last(), pred);
        lemma_filter_membership(s.drop_last(), pred);
        let f = s.filter(pred);
        let fd = s.drop_last().filter(pred);
        assert forall|k1: int, k2: int| 0 <= k1 < k2 < f.len() implies (#[trigger] f[k1]).output
            != (#[trigger] f[k2]).output by {
            if pred(s.last()) && k2 == f.len() - 1 {
                assert(f == fd.push(s.last()));
                assert(f[k1] == fd[k1]);
                assert(fd.contains(fd[k1]));
                assert(s.drop_last().contains(fd[k1]));
                let m = choose|m: int| 0 <= m < s.drop_last().len() && s.drop_last()[m] == fd[k1];
                assert(s.drop_last()[m] == s[m]);
                assert(m < s.len() - 1);
                assert(s[m].output != s[s.len() - 1].output);
                assert(s.last() == s[s.len() - 1]);
                assert(f[k2] == s.last());
            } else {
                assert(f[k1] == fd[k1] && f[k2] == fd[k2]);
            }
        }
    }
}

/// Removing a node keeps the identifiers strictly increasing and leaves
/// every other identifier resolving to the same node.
pub proof fn lemma_nodes_remove<T: TypeContent>(nodes: Seq<Node<T>>, j: int)
    requires
        ids_ascending(nodes),
        0 <= j < nodes.len(),
    ensures
        ids_ascending(nodes.remove(j)),
        !has_node(nodes.remove(j), nodes[j].id),
        forall|id: NodeId|
            id != nodes[j].id ==> (has_node(nodes.remove(j), id) == has_node(nodes, id)),
        forall|id: NodeId|
            id != nodes[j].id && has_node(nodes, id) ==> node_of(nodes.remove(j), id) == node_of(
                nodes,
                id,
            ),
{
    let rem = nodes.remove(j);
    assert forall|k: int| 0 <= k < rem.len() implies (rem[k] == if k < j {
        nodes[k]
    } else {
        nodes[k + 1]
    }) by {}
    assert forall|id: NodeId| id != nodes[j].id && has_node(nodes, id) implies has_node(rem, id)
        && node_of(rem, id) == node_of(nodes, id) by {
        let i = choose|i: int| 0 <= i < nodes.len() && (#[trigger] nodes[i]).id == id;
        if i < j {
            assert(rem[i] == nodes[i]);
            lemma_node_lookup(rem, i);
        } else {
            assert(i != j);
            assert(rem[i - 1] == nodes[i]);
            lemma_node_lookup(rem, i - 1);
        }
        lemma_node_lookup(nodes, i);
    }
    assert forall|id: NodeId| has_node(rem, id) implies has_node(nodes, id) by {
        let k = choose|k: int| 0 <= k < rem.len() && (#[trigger] rem[k]).id == id;
        if k < j {
            assert(nodes[k].id == id);
        } else {
            assert(nodes[k + 1].id == id);
        }
    }
    if has_node(rem, nodes[j].id) {
        let k = choose|k: int| 0 <= k < rem.len() && (#[trigger] rem[k]).id == nodes[j].id;
        if k < j {
            assert(nodes[k].id.0 < nodes[j].id.0);
        } else {
            assert(nodes[j].id.0 < nodes[k + 1].id.0);
        }
    }
}

/// Edges and sinks that do not reference a removed or rewritten node stay
/// well-formed when every other identifier still resolves to the same
/// node.
pub proof fn lemma_nodes_keep_frame<T: TypeContent>(
    nodes: Seq<Node<T>>,
    changed: Seq<Node<T>>,
    edges: Seq<Edge>,
    sinks: Seq<Output>,
    id: NodeId,
)
    requires
        forall|id2: NodeId| id2 != id ==> (has_node(changed, id2) == has_node(nodes, id2)),
        forall|id2: NodeId|
            id2 != id && has_node(nodes, id2) ==> node_of(changed, id2) == node_of(nodes, id2),
        forall|k: int| 0 <= k < edges.len() ==> edge_wf(nodes, #[trigger] edges[k]),
        forall|k: int|
            0 <= k < edges.len() ==> (#[trigger] edges[k]).output.node != id
                && edges[k].input.node != id,
        forall|k: int| 0 <= k < sinks.len() ==> valid_output(nodes, #[trigger] sinks[k]),
        forall|k: int| 0 <= k < sinks.len() ==> (#[trigger] sinks[k]).node != id,
    ensures
        forall|k: int| 0 <= k < edges.len() ==> edge_wf(changed, #[trigger] edges[k]),
        forall|k: int| 0 <= k < sinks.len() ==> valid_output(changed, #[trigger] sinks[k]),
{
}

/// Removing one edge of a fan-in-unique sequence keeps fan-in uniqueness,
/// and keeps exactly the edges into other inputs.
pub proof fn lemma_remove_edge(edges: Seq<Edge>, j: int)
    requires
        fanin_unique(edges),
        0 <= j < edges.len(),
    ensures
        fanin_unique(edges.remove(j)),
        forall|e: Edge|
            edges.remove(j).contains(e) <==> (edges.contains(e) && e.input != edges[j].input),
{
    let rem = edges.remove(j);
    assert forall|e: Edge| rem.contains(e) <==> (edges.contains(e) && e.input
        != edges[j].input) by {
        if rem.contains(e) {
            let k = choose|k: int| 0 <= k < rem.len() && rem[k] == e;
            if k < j {
                assert(edges[k] == e);
            } else {
                assert(edges[k + 1] == e);
            }
        }
        if edges.contains(e) && e.input != edges[j].input {
            let k = choose|k: int| 0 <= k < edges.len() && edges[k] == e;
            if k < j {
                assert(rem[k] == e);
            } else {
                assert(k != j);
                assert(rem[k - 1] == e);
            }
        }
    }
}

/// Two fan-in-unique edge sequences holding the same edges into an input
/// resolve that input to the same source.
pub proof fn lemma_edge_into_by_contains(e1: Seq<Edge>, e2: Seq<Edge>, i: Input)
    requires
        fanin_unique(e1),
        fanin_unique(e2),
        forall|e: Edge| e.input == i ==> (e1.contains(e) <==> e2.contains(e)),
    ensures
        edge_into(e1, i) == edge_into(e2, i),
{
    if exists|k: int| 0 <= k < e1.len() && (#[trigger] e1[k]).input == i {
        let k = choose|k: int| 0 <= k < e1.len() && (#[trigger] e1[k]).input == i;
        assert(e1.contains(e1[k]));
        assert(e2.contains(e1[k]));
        let m = choose|m: int| 0 <= m < e2.len() && e2[m] == e1[k];
        lemma_edge_lookup(e1, k);
        lemma_edge_lookup(e2, m);
    } else if exists|m: int| 0 <= m < e2.len() && (#[trigger] e2[m]).input == i {
        let m = choose|m: int| 0 <= m < e2.len() && (#[trigger] e2[m]).input == i;
        assert(e2.contains(e2[m]));
        assert(e1.contains(e2[m]));
        let k = choose|k: int| 0 <= k < e1.len() && e1[k] == e2[m];
        assert(e1[k].input == i);
    }
}

/// An edge found at the given position of a fan-in-unique edge sequence is
/// the edge its input resolves to.
pub proof fn lemma_edge_lookup(edges: Seq<Edge>, k: int)
    requires
        fanin_unique(edges),
        0 <= k < edges.len(),
    ensures
        edge_into(edges, edges[k].input) == Some(edges[k].output),
{
    let i = edges[k].input;
    assert(exists|j: int| 0 <= j < edges.len() && (#[trigger] edges[j]).input == i);
    let j = choose|j: int| 0 <= j < edges.len() && (#[trigger] edges[j]).input == i;
    if j < k {
        assert(edges[j].input != edges[k].input);
    } else if k < j {
        assert(edges[k].input != edges[j].input);
    }
}

/// A node carrying the given identifier, found at the given position in a
/// sequence of uniquely identified nodes, is the node the identifier
/// resolves to.
pub proof fn lemma_node_lookup<T: TypeContent>(nodes: Seq<Node<T>>, i: int)
    requires
        ids_ascending(nodes),
        0 <= i < nodes.len(),
    ensures
        has_node(nodes, nodes[i].id),
        node_of(nodes, nodes[i].id) == nodes[i],
{
    let id = nodes[i].id;
    assert(has_node(nodes, id));
    let j = choose|j: int| 0 <= j < nodes.len() && (#[trigger] nodes[j]).id == id;
    if i < j {
        assert(nodes[i].id.0 < nodes[j].id.0);
    } else if j < i {
        assert(nodes[j].id.0 < nodes[i].id.0);
    }
}

/// Appending a node with a fresh identifier preserves the validity of every
/// existing edge and sink.
pub proof fn lemma_nodes_extend<T: TypeContent>(
    nodes: Seq<Node<T>>,
    extended: Seq<Node<T>>,
    edges: Seq<Edge>,
    sinks: Seq<Output>,
)
    requires
        ids_ascending(extended),
        nodes.len() <= extended.len(),
        forall|i: int| 0 <= i < nodes.len() ==> extended[i] == nodes[i],
        forall|k: int| 0 <= k < edges.len() ==> edge_wf(nodes, #[trigger] edges[k]),
        forall|k: int| 0 <= k < sinks.len() ==> valid_output(nodes, #[trigger] sinks[k]),
        ids_ascending(nodes),
    ensures
        forall|k: int| 0 <= k < edges.len() ==> edge_wf(extended, #[trigger] edges[k]),
        forall|k: int| 0 <= k < sinks.len() ==> valid_output(extended, #[trigger] sinks[k]),
{
    assert forall|id: NodeId| has_node(nodes, id) implies has_node(extended, id) && node_of(
        extended,
        id,
    ) == node_of(nodes, id) by {
        let i = choose|i: int| 0 <= i < nodes.len() && (#[trigger] nodes[i]).id == id;
        assert(extended[i].id == id);
        lemma_node_lookup(extended, i);
        lemma_node_lookup(nodes, i);
    }
}

} // verus!
