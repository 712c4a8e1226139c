//! The tensor network: a directed graph whose nodes are gates or prior
//! contractions and whose edges carry the spans shared between producer
//! and consumer.
//!
//! The graph container is petgraph's stable directed graph, used through
//! trusted wrappers; everything decided on top of it — which edges are
//! contractible, which independent set is fused, how replaced edges are
//! merged — is verified here.

use vstd::prelude::*;
use crate::circuit::QuantumCircuit;
use crate::gates::Gate;
use crate::span::GateSliceView;
use crate::span::Span;
use petgraph::stable_graph::NodeIndex;
use petgraph::stable_graph::StableDiGraph;
use petgraph::visit::EdgeRef;
use petgraph::visit::IntoEdgeReferences;

verus! {

/// The largest lane index a network may touch.  The rank of a block is
/// carried as one byte in instructions and on the wire, so a network spans
/// at most 255 lanes.
pub const MAX_LANES: usize = 255;

/// The kind of tensor in the tensor network: a prior contraction or a
/// single gate.
pub enum TensorKind {
    /// A tensor contraction.
    Contraction(Box<TensorContraction>),
    /// A single quantum gate.
    Gate(Box<Gate>),
}

/// A fusion of two tensors.  Its span is the union of the children's
/// spans, and its rank is the width of the filled span: the number of
/// qubit lanes a materialised block would cover.
pub struct TensorContraction {
    pub rank: u8,
    pub span: Span,
    /// The left tensor in the contraction.
    pub lhs: TensorKind,
    /// The right tensor in the contraction.
    pub rhs: TensorKind,
}

impl TensorKind {
    /// Whether the tensor touches the given lane.
    pub open spec fn on_lane(self, l: usize) -> bool {
        match self {
            TensorKind::Contraction(c) => c.span@.contains(l),
            TensorKind::Gate(g) => g.on_lane(l),
        }
    }

    /// Holds when the tensor and all its children are well formed and all
    /// its lanes lie below [`MAX_LANES`].
    pub open spec fn wf(self) -> bool
        decreases self,
    {
        match self {
            TensorKind::Contraction(c) => c.wf(),
            TensorKind::Gate(g) => g.wf() && (forall|l: usize| g.on_lane(l) ==> l < MAX_LANES),
        }
    }

    /// Returns the span of the tensor.
    pub fn span(&self) -> (r: Span)
        requires
            self.wf(),
        ensures
            r.wf(),
            r@.len() > 0,
            forall|l: usize| r@.contains(l) <==> self.on_lane(l),
    {
        match self {
            TensorKind::Contraction(c) => c.span.clone(),
            TensorKind::Gate(g) => g.span(),
        }
    }
}

impl TensorContraction {
    /// Holds when the span is the canonical non-empty union of two well
    /// formed children, the rank is the filled width of the span, and
    /// every lane lies below [`MAX_LANES`].
    pub open spec fn wf(self) -> bool
        decreases self,
    {
        &&& self.span.wf()
        &&& self.span@.len() > 0
        &&& (forall|l: usize| self.span@.contains(l) <==> (self.lhs.on_lane(l) || self.rhs.on_lane(
            l,
        )))
        &&& (forall|l: usize| self.span@.contains(l) ==> l < MAX_LANES)
        &&& self.rank == self.span.spec_end() - self.span.spec_start() + 1
        &&& self.lhs.wf()
        &&& self.rhs.wf()
    }

    /// Creates a new tensor contraction of two tensors.  The combined span
    /// is the union of the children's spans and the rank is the width of
    /// its filled form.
    pub fn new(left: TensorKind, right: TensorKind) -> (r: Self)
        requires
            left.wf(),
            right.wf(),
        ensures
            r.wf(),
            r.lhs == left,
            r.rhs == right,
            forall|l: usize| r.span@.contains(l) <==> (left.on_lane(l) || right.on_lane(l)),
            r.rank == r.span.spec_end() - r.span.spec_start() + 1,
    {
        let ls = left.span();
        let rs = right.span();
        let span = ls.full_join(&rs);
        proof {
            lemma_kind_bounded(left);
            lemma_kind_bounded(right);
            crate::span::lemma_ascending_bounds(span@);
            assert(span@.contains(span@[0]));
            assert(span@.contains(span@.last()));
            let m = span@.last();
            assert(m < MAX_LANES) by {
                if ls@.contains(m) {
                    assert(left.on_lane(m));
                } else {
                    assert(rs@.contains(m));
                    assert(right.on_lane(m));
                }
            }
            assert(span@[0] <= span@.last());
        }
        let width = span.end() - span.start() + 1;
        let rank = width as u8;
        Self { rank, span, lhs: left, rhs: right }
    }
}

/// Every lane of a well formed tensor lies below [`MAX_LANES`].
pub proof fn lemma_kind_bounded(k: TensorKind)
    requires
        k.wf(),
    ensures
        forall|l: usize| k.on_lane(l) ==> l < MAX_LANES,
{
    match k {
        TensorKind::Contraction(c) => {},
        TensorKind::Gate(g) => {},
    }
}

/// petgraph's stable graph, declared so that networks can hold one; its
/// contents are visible to contracts only through [`net_nodes`] and
/// [`net_edges`].
#[verifier::external_type_specification]
#[verifier::external_body]
#[verifier::reject_recursive_types(N)]
#[verifier::reject_recursive_types(E)]
#[verifier::reject_recursive_types(Ty)]
#[verifier::reject_recursive_types(Ix)]
pub struct ExStableGraph<N, E, Ty, Ix>(petgraph::stable_graph::StableGraph<N, E, Ty, Ix>);

/// petgraph's marker type for directed graphs.
#[verifier::external_type_specification]
#[verifier::external_body]
pub struct ExDirected(petgraph::Directed);

/// The nodes a stable directed graph holds: each occupied node index with
/// its weight.
pub uninterp spec fn net_nodes(g: StableDiGraph<TensorKind, Span>) -> Map<usize, TensorKind>;

/// The edges a stable directed graph holds: each occupied edge index with
/// its source node index, target node index and weight.
pub uninterp spec fn net_edges(g: StableDiGraph<TensorKind, Span>) -> Map<
    usize,
    (usize, usize, Span),
>;

/// Relies on petgraph's StableGraph::with_capacity: the new graph holds no
/// nodes and no edges.
#[verifier::external_body]
fn graph_new() -> (g: StableDiGraph<TensorKind, Span>)
    ensures
        net_nodes(g).dom() == Set::<usize>::empty(),
        net_edges(g).dom() == Set::<usize>::empty(),
{
    StableDiGraph::with_capacity(0, 0)
}

/// Relies on petgraph's StableGraph::add_node: it stores the weight under a
/// vacant index, touches no edge, and returns that index.
#[verifier::external_body]
fn graph_add_node(g: &mut StableDiGraph<TensorKind, Span>, w: TensorKind) -> (ix: usize)
    requires
        net_nodes(*old(g)).dom().len() < 0xFFFF_FFFF,
    ensures
        !net_nodes(*old(g)).dom().contains(ix),
        ix < 0xFFFF_FFFF,
        net_nodes(*final(g)) == net_nodes(*old(g)).insert(ix, w),
        net_edges(*final(g)) == net_edges(*old(g)),
{
    g.add_node(w).index()
}

/// Relies on petgraph's StableGraph::add_edge: it stores the connection
/// under a vacant edge index, touches no node, and returns that index.
/// Both endpoints must exist, else the call panics.
#[verifier::external_body]
fn graph_add_edge(g: &mut StableDiGraph<TensorKind, Span>, a: usize, b: usize, w: Span) -> (e:
    usize)
    requires
        net_nodes(*old(g)).dom().contains(a),
        net_nodes(*old(g)).dom().contains(b),
        a < 0xFFFF_FFFF,
        b < 0xFFFF_FFFF,
        net_edges(*old(g)).dom().len() < 0xFFFF_FFFF,
    ensures
        !net_edges(*old(g)).dom().contains(e),
        e < 0xFFFF_FFFF,
        net_edges(*final(g)) == net_edges(*old(g)).insert(e, (a, b, w)),
        net_nodes(*final(g)) == net_nodes(*old(g)),
{
    g.add_edge(NodeIndex::new(a), NodeIndex::new(b), w).index()
}

/// Relies on petgraph's StableGraph::remove_node: it takes the node's
/// weight out and drops every edge whose source or target is that node,
/// and nothing else.
#[verifier::external_body]
fn graph_remove_node(g: &mut StableDiGraph<TensorKind, Span>, a: usize) -> (r: TensorKind)
    requires
        a < 0xFFFF_FFFF,
        net_nodes(*old(g)).dom().contains(a),
    ensures
        r == net_nodes(*old(g))[a],
        net_nodes(*final(g)) == net_nodes(*old(g)).remove(a),
        net_edges(*old(g)).dom().finite() ==> net_edges(*final(g)).dom().finite(),
        net_edges(*final(g)) == Map::new(
            |e: usize|
                net_edges(*old(g)).dom().contains(e) && net_edges(*old(g))[e].0 != a && net_edges(
                    *old(g),
                )[e].1 != a,
            |e: usize| net_edges(*old(g))[e],
        ),
{
    g.remove_node(NodeIndex::new(a)).unwrap()
}

/// Relies on petgraph's StableGraph::node_weight: it returns a reference to
/// the weight stored under the index.
#[verifier::external_body]
fn graph_node_ref<'a>(g: &'a StableDiGraph<TensorKind, Span>, a: usize) -> (r: &'a TensorKind)
    requires
        a < 0xFFFF_FFFF,
        net_nodes(*g).dom().contains(a),
    ensures
        *r == net_nodes(*g)[a],
{
    g.node_weight(NodeIndex::new(a)).unwrap()
}

/// Relies on petgraph's StableGraph::node_count: it returns the number of
/// occupied node indices.
#[verifier::external_body]
fn graph_node_count(g: &StableDiGraph<TensorKind, Span>) -> (n: usize)
    ensures
        n == net_nodes(*g).dom().len(),
{
    g.node_count()
}

/// Relies on petgraph's StableGraph::edge_references: it yields every
/// occupied edge exactly once, in ascending edge-index order, with its
/// endpoints and weight.
#[verifier::external_body]
fn graph_edge_list(g: &StableDiGraph<TensorKind, Span>) -> (r: Vec<(usize, usize, usize, Span)>)
    ensures
        forall|k: int|
            0 <= k < r@.len() ==> net_edges(*g).dom().contains((#[trigger] r@[k]).0) && net_edges(
                *g,
            )[r@[k].0] == (r@[k].1, r@[k].2, r@[k].3),
        forall|e: usize|
            net_edges(*g).dom().contains(e) ==> exists|k: int|
                0 <= k < r@.len() && (#[trigger] r@[k]).0 == e,
        forall|k1: int, k2: int| 0 <= k1 < k2 < r@.len() ==> r@[k1].0 < r@[k2].0,
        r@.len() == net_edges(*g).dom().len(),
{
    g.edge_references().map(
        |e| (e.id().index(), e.source().index(), e.target().index(), e.weight().clone()),
    ).collect()
}

/// Relies on petgraph's StableGraph::node_indices: every occupied node
/// index appears exactly once, in ascending order.
#[verifier::external_body]
fn graph_node_ids(g: &StableDiGraph<TensorKind, Span>) -> (r: Vec<usize>)
    ensures
        forall|k: int| 0 <= k < r@.len() ==> net_nodes(*g).dom().contains(#[trigger] r@[k]),
        forall|n: usize|
            net_nodes(*g).dom().contains(n) ==> exists|k: int|
                0 <= k < r@.len() && #[trigger] r@[k] == n,
        forall|k1: int, k2: int| 0 <= k1 < k2 < r@.len() ==> r@[k1] < r@[k2],
        r@.len() == net_nodes(*g).dom().len(),
{
    g.node_indices().map(|i| i.index()).collect()
}

/// A tensor network: a directed graph where the nodes are tensors and the
/// edges carry the spans shared between producer and consumer.
pub struct TensorNetwork {
    pub graph: StableDiGraph<TensorKind, Span>,
}

/// Holds when every node of the graph is a well formed tensor and every
/// edge joins two distinct live nodes through a non-empty canonical span.
pub open spec fn graph_ok(g: StableDiGraph<TensorKind, Span>) -> bool {
    &&& net_nodes(g).dom().finite()
    &&& net_edges(g).dom().finite()
    &&& (forall|n: usize| #[trigger]
        net_nodes(g).dom().contains(n) ==> n < 0xFFFF_FFFF && net_nodes(g)[n].wf())
    &&& (forall|e: usize| #[trigger] net_edges(g).dom().contains(e) ==> e < 0xFFFF_FFFF && {
        let (a, b, w) = net_edges(g)[e];
        &&& net_nodes(g).dom().contains(a)
        &&& net_nodes(g).dom().contains(b)
        &&& a != b
        &&& w.wf()
        &&& w@.len() > 0
    })
}

impl TensorNetwork {
    /// The nodes of the network.
    pub open spec fn nodes(&self) -> Map<usize, TensorKind> {
        net_nodes(self.graph)
    }

    /// The edges of the network.
    pub open spec fn edges(&self) -> Map<usize, (usize, usize, Span)> {
        net_edges(self.graph)
    }

    /// Holds when every node is a well formed tensor and every edge joins
    /// two distinct live nodes through a non-empty canonical span.
    pub open spec fn wf(&self) -> bool {
        graph_ok(self.graph)
    }

    /// Builds the tensor network of a circuit.
    ///
    /// The list of gates is walked in insertion order; each one becomes a leaf
    /// node, receives one incoming edge from the most recent producer of
    /// each lane group its filled span touches, weighted with the shared
    /// sub-span, and is recorded in the slice register as the latest
    /// producer of its filled span.  The builder itself never fails.
    #[verifier::rlimit(100)]
    #[verifier::spinoff_prover]
    pub fn from_circuit(circuit: QuantumCircuit) -> (r: TensorNetwork)
        requires
            circuit.wf(),
            circuit.n_qubits <= MAX_LANES,
            circuit.gates@.len() <= 0xFFFF,
        ensures
            r.wf(),
            r.nodes().dom().len() == circuit.gates@.len(),
            r.nodes().dom().len() < 0xFFFF_FFFF,
            r.edges().dom().len() < 0xFFFF_FFFF,
            forall|n: usize| #[trigger]
                r.nodes().dom().contains(n) ==> (r.nodes()[n] matches TensorKind::Gate(g)
                    && circuit.gates@.contains(*g)),
            // some injective numbering pairs each node with its source
            // gate, and every edge runs from an earlier gate to a later one
            exists|ord: Map<usize, int>| #[trigger] builder_order(
                r.nodes(),
                r.edges(),
                circuit.gates@,
                ord,
            ),
    {
        let mut graph = graph_new();
        let mut register: GateSliceView<usize> = GateSliceView::new();
        let ghost mut ord: Map<usize, int> = Map::empty();
        let n_gates = circuit.gates.len();
        let mut i: usize = 0;
        while i < n_gates
            invariant
                circuit.wf(),
                circuit.n_qubits <= MAX_LANES,
                n_gates == circuit.gates@.len(),
                n_gates <= 0xFFFF,
                i <= n_gates,
                graph_ok(graph),
                net_nodes(graph).dom().len() == i,
                net_edges(graph).dom().len() <= i * 0xFFFF,
                register.wf(),
                register.spans@.len() <= i,
                forall|l: usize|
                    register_law(
                        #[trigger] register.spec_at(l),
                        l,
                        circuit.gates@,
                        ord,
                        i as int,
                        net_nodes(graph),
                    ),
                forall|e: usize| #[trigger]
                    net_edges(graph).dom().contains(e) ==> edge_weight_law(
                        circuit.gates@,
                        ord,
                        net_edges(graph)[e],
                    ),
                forall|n: usize| #[trigger]
                    net_nodes(graph).dom().contains(n) ==> (net_nodes(graph)[n] matches
                    TensorKind::Gate(g) && circuit.gates@.contains(*g)),
                forall|n: usize| #[trigger]
                    net_nodes(graph).dom().contains(n) ==> 0 <= ord[n] < i && net_nodes(graph)[n]
                        == TensorKind::Gate(Box::new(circuit.gates@[ord[n]])),
                forall|n1: usize, n2: usize|
                    net_nodes(graph).dom().contains(n1) && net_nodes(graph).dom().contains(n2)
                        && n1 != n2 ==> ord[n1] != ord[n2],
                forall|e: usize| #[trigger]
                    net_edges(graph).dom().contains(e) ==> ord[net_edges(graph)[e].0] < ord[
                    net_edges(graph)[e].1],
            decreases n_gates - i,
        {
            let gate = circuit.gates[i];
            proof {
                assert(circuit.gates@[i as int].wf() && circuit.gates@[i as int].in_range(
                    circuit.n_qubits,
                ));
                assert(circuit.gates@.contains(gate)) by {
                    assert(circuit.gates@[i as int] == gate);
                }
            }
            let current_span = gate.span();
            proof {
                crate::span::lemma_ascending_bounds(current_span@);
                assert(current_span@.contains(current_span@[0]));
                assert(current_span@.contains(current_span@.last()));
                assert(gate.on_lane(current_span@[0]));
                assert(gate.on_lane(current_span@.last()));
                assert forall|l: usize|
                    gate_covers(gate, l) <==> (current_span.spec_start() <= l
                        <= current_span.spec_end()) by {
                    reveal(gate_covers);
                    if gate_covers(gate, l) {
                        let (lo, hi) = choose|lo: usize, hi: usize|
                            #![auto]
                            gate.on_lane(lo) && gate.on_lane(hi) && lo <= l <= hi;
                        assert(current_span@.contains(lo) && current_span@.contains(hi));
                    }
                    if current_span.spec_start() <= l <= current_span.spec_end() {
                        assert(gate.on_lane(current_span@[0]) && gate.on_lane(
                            current_span@.last(),
                        ));
                    }
                }
            }
            let ghost old_nodes = net_nodes(graph);
            let ghost old_at = register;
            let new_node = graph_add_node(&mut graph, TensorKind::Gate(Box::new(gate)));
            proof {
                ord = ord.insert(new_node, i as int);
            }
            let filled = current_span.filled();
            let linked = register.get(&filled);
            register.apply(current_span, new_node);
            let ghost pre_edges = net_edges(graph).dom().len();
            let mut j: usize = 0;
            while j < linked.len()
                invariant
                    j <= linked@.len(),
                    linked@.len() <= 0xFFFF,
                    graph_ok(graph),
                    net_nodes(graph) == old_nodes.insert(new_node, TensorKind::Gate(Box::new(gate))),
                    !old_nodes.dom().contains(new_node),
                    new_node < 0xFFFF_FFFF,
                    net_edges(graph).dom().len() <= pre_edges + j,
                    pre_edges <= 0xFFFF * 0xFFFF,
                    forall|p: int|
                        0 <= p < linked@.len() ==> (#[trigger] linked@[p]).0.wf()
                            && linked@[p].0@.len() > 0,
                    forall|p: int, l: usize|
                        0 <= p < linked@.len() && #[trigger] linked@[p].0@.contains(l)
                            ==> old_at.spec_at(l) == Some(linked@[p].1) && filled@.contains(l),
                    i < n_gates,
                    n_gates == circuit.gates@.len(),
                    gate == circuit.gates@[i as int],
                    ord[new_node] == i as int,
                    forall|l: usize|
                        register_law(
                            #[trigger] old_at.spec_at(l),
                            l,
                            circuit.gates@,
                            ord,
                            i as int,
                            old_nodes,
                        ),
                    forall|l: usize| #[trigger]
                        filled@.contains(l) ==> gate_covers(circuit.gates@[i as int], l),
                    forall|n: usize| #[trigger]
                        old_nodes.dom().contains(n) ==> 0 <= ord[n] < i && net_nodes(graph)[n]
                            == TensorKind::Gate(Box::new(circuit.gates@[ord[n]])),
                    net_nodes(graph)[new_node] == TensorKind::Gate(
                        Box::new(circuit.gates@[i as int]),
                    ),
                    forall|n1: usize, n2: usize|
                        net_nodes(graph).dom().contains(n1) && net_nodes(graph).dom().contains(n2)
                            && n1 != n2 ==> ord[n1] != ord[n2],
                    forall|e: usize| #[trigger]
                        net_edges(graph).dom().contains(e) ==> ord[net_edges(graph)[e].0] < ord[
                        net_edges(graph)[e].1],
                    forall|e: usize| #[trigger]
                        net_edges(graph).dom().contains(e) ==> edge_weight_law(
                            circuit.gates@,
                            ord,
                            net_edges(graph)[e],
                        ),
                decreases linked@.len() - j,
            {
                let target_span = linked[j].0.clone();
                let pnode = linked[j].1;
                proof {
                    assert(linked@[j as int].0@.len() > 0);
                    let l0 = linked@[j as int].0@[0];
                    assert(linked@[j as int].0@.contains(l0));
                    assert(old_at.spec_at(l0) == Some(pnode));
                    assert(old_nodes.dom().contains(pnode));
                }
                let ghost pre_g = graph;
                let added = graph_add_edge(&mut graph, pnode, new_node, target_span);
                proof {
                    assert forall|e: usize| #[trigger]
                        net_edges(graph).dom().contains(e) implies edge_weight_law(
                        circuit.gates@,
                        ord,
                        net_edges(graph)[e],
                    ) by {
                        if e == added {
                            let ed = net_edges(graph)[e];
                            assert forall|l: usize| #[trigger] ed.2@.contains(l) implies {
                                &&& gate_covers(circuit.gates@[ord[ed.0]], l)
                                &&& gate_covers(circuit.gates@[ord[ed.1]], l)
                                &&& (forall|p: int|
                                    ord[ed.0] < p < ord[ed.1] ==> !gate_covers(
                                        #[trigger] circuit.gates@[p],
                                        l,
                                    ))
                            } by {
                                assert(linked@[j as int].0@.contains(l));
                                assert(old_at.spec_at(l) == Some(pnode));
                                assert(register_law(
                                    old_at.spec_at(l),
                                    l,
                                    circuit.gates@,
                                    ord,
                                    i as int,
                                    old_nodes,
                                ));
                                assert(filled@.contains(l));
                                assert(gate_covers(circuit.gates@[ord[pnode]], l));
                                assert(gate_covers(circuit.gates@[i as int], l));
                            }
                            assert(edge_weight_law(circuit.gates@, ord, ed));
                        } else {
                            assert(net_edges(pre_g).dom().contains(e));
                            assert(net_edges(graph)[e] == net_edges(pre_g)[e]);
                        }
                    }
                }
                j = j + 1;
            }
            proof {
                assert forall|l: usize|
                    register_law(
                        #[trigger] register.spec_at(l),
                        l,
                        circuit.gates@,
                        ord,
                        i + 1 as int,
                        net_nodes(graph),
                    ) by {
                    if current_span.spec_start() <= l <= current_span.spec_end() {
                        assert(register.spec_at(l) == Some(new_node));
                        assert(gate_covers(circuit.gates@[i as int], l));
                    } else {
                        assert(register.spec_at(l) == old_at.spec_at(l));
                        assert(!gate_covers(circuit.gates@[i as int], l));
                        match old_at.spec_at(l) {
                            Some(v) => {
                                assert forall|p: int|
                                    ord[v] < p < i + 1 implies !gate_covers(
                                    #[trigger] circuit.gates@[p],
                                    l,
                                ) by {
                                    if p < i {
                                    } else {
                                        assert(p == i as int);
                                    }
                                }
                            },
                            None => {
                                assert forall|p: int|
                                    0 <= p < i + 1 implies !gate_covers(
                                    #[trigger] circuit.gates@[p],
                                    l,
                                ) by {
                                    if p < i {
                                    } else {
                                        assert(p == i as int);
                                    }
                                }
                            },
                        }
                    }
                }
            }
            i = i + 1;
            proof {
                assert(net_edges(graph).dom().len() <= i * 0xFFFF);
            }
        }
        let r = TensorNetwork { graph };
        proof {
            assert(builder_order(r.nodes(), r.edges(), circuit.gates@, ord));
        }
        r
    }
}


/// Whether a gate's filled interval covers the given lane: some touched
/// lane lies at or below it and some touched lane at or above it.
#[verifier::opaque]
pub open spec fn gate_covers(g: Gate, l: usize) -> bool {
    exists|lo: usize, hi: usize| #![auto] g.on_lane(lo) && g.on_lane(hi) && lo <= l <= hi
}

/// The weight law of one builder edge: every lane of the weight is covered
/// by both endpoints' filled intervals, and no gate strictly between the
/// two covers it — the source was the lane's most recent producer, exactly
/// what the slice register answers.
pub open spec fn edge_weight_law(
    gates: Seq<Gate>,
    ord: Map<usize, int>,
    edge: (usize, usize, Span),
) -> bool {
    forall|l: usize| #[trigger] edge.2@.contains(l) ==> {
        &&& gate_covers(gates[ord[edge.0]], l)
        &&& gate_covers(gates[ord[edge.1]], l)
        &&& (forall|p: int| ord[edge.0] < p < ord[edge.1] ==> !gate_covers(#[trigger] gates[p], l))
    }
}

/// What the slice register holds for one lane after the first `bound`
/// gates: the most recent producer whose filled interval covers the lane,
/// or nothing when no such gate exists.
pub open spec fn register_law(
    at: Option<usize>,
    l: usize,
    gates: Seq<Gate>,
    ord: Map<usize, int>,
    bound: int,
    nodes: Map<usize, TensorKind>,
) -> bool {
    match at {
        Some(v) => nodes.dom().contains(v) && v < 0xFFFF_FFFF && 0 <= ord[v] < bound
            && gate_covers(gates[ord[v]], l) && (forall|p: int|
            ord[v] < p < bound ==> !gate_covers(#[trigger] gates[p], l)),
        None => forall|p: int| 0 <= p < bound ==> !gate_covers(#[trigger] gates[p], l),
    }
}

/// Holds when an injective numbering pairs each node of a built network
/// with its source gate, in insertion order; every edge runs from an
/// earlier gate to a later one; and each edge carries exactly lanes the
/// slice register answered: lanes covered by both endpoints' filled
/// intervals on which the source was the most recent producer.
pub open spec fn builder_order(
    nodes: Map<usize, TensorKind>,
    edges: Map<usize, (usize, usize, Span)>,
    gates: Seq<Gate>,
    ord: Map<usize, int>,
) -> bool {
    &&& (forall|n: usize| #[trigger]
        nodes.dom().contains(n) ==> 0 <= ord[n] < gates.len() && nodes[n] == TensorKind::Gate(
            Box::new(gates[ord[n]]),
        ))
    &&& (forall|n1: usize, n2: usize|
        nodes.dom().contains(n1) && nodes.dom().contains(n2) && n1 != n2 ==> ord[n1] != ord[n2])
    &&& (forall|e: usize| #[trigger]
        edges.dom().contains(e) ==> ord[edges[e].0] < ord[edges[e].1])
    &&& (forall|e: usize| #[trigger]
        edges.dom().contains(e) ==> edge_weight_law(gates, ord, edges[e]))
}

/// One fusion step on node values: two distinct nodes are replaced by a
/// single well formed contraction of exactly their values.
pub open spec fn fuse_step(m1: Map<usize, TensorKind>, m2: Map<usize, TensorKind>) -> bool {
    exists|s: usize, t: usize, c: usize, b: Box<TensorContraction>|
        #![auto]
        {
            &&& m1.dom().contains(s)
            &&& m1.dom().contains(t)
            &&& s != t
            &&& b.lhs == m1[s]
            &&& b.rhs == m1[t]
            &&& b.wf()
            &&& m2 == m1.remove(s).remove(t).insert(c, TensorKind::Contraction(b))
        }
}

/// The node values of the second map are reachable from the first by the
/// given number of fusion steps.
pub open spec fn fuse_reach_n(
    m1: Map<usize, TensorKind>,
    m2: Map<usize, TensorKind>,
    n: nat,
) -> bool
    decreases n,
{
    if n == 0 {
        m1 == m2
    } else {
        exists|mid: Map<usize, TensorKind>|
            #![auto]
            fuse_step(m1, mid) && fuse_reach_n(mid, m2, (n - 1) as nat)
    }
}

/// A fusion step after a chain of fusion steps extends the chain.
pub proof fn lemma_fuse_append(
    m1: Map<usize, TensorKind>,
    m2: Map<usize, TensorKind>,
    m3: Map<usize, TensorKind>,
    n: nat,
)
    requires
        fuse_reach_n(m1, m2, n),
        fuse_step(m2, m3),
    ensures
        fuse_reach_n(m1, m3, n + 1),
    decreases n,
{
    if n == 0 {
        assert(fuse_step(m1, m3) && fuse_reach_n(m3, m3, 0));
    } else {
        let mid = choose|mid: Map<usize, TensorKind>|
            #![auto]
            fuse_step(m1, mid) && fuse_reach_n(mid, m2, (n - 1) as nat);
        lemma_fuse_append(mid, m2, m3, (n - 1) as nat);
        assert(fuse_step(m1, mid) && fuse_reach_n(mid, m3, n));
    }
}

/// Chains of fusion steps compose.
pub proof fn lemma_fuse_trans(
    m1: Map<usize, TensorKind>,
    m2: Map<usize, TensorKind>,
    m3: Map<usize, TensorKind>,
    n1: nat,
    n2: nat,
)
    requires
        fuse_reach_n(m1, m2, n1),
        fuse_reach_n(m2, m3, n2),
    ensures
        fuse_reach_n(m1, m3, n1 + n2),
    decreases n2,
{
    if n2 == 0 {
    } else {
        let mid = choose|mid: Map<usize, TensorKind>|
            #![auto]
            fuse_step(m2, mid) && fuse_reach_n(mid, m3, (n2 - 1) as nat);
        lemma_fuse_append(m1, m2, mid, n1);
        lemma_fuse_trans(m1, mid, m3, n1 + 1, (n2 - 1) as nat);
    }
}

/// A drained contraction result: the returned tensors are exactly the node
/// values of a well formed network whose nodes are reachable from the
/// input's by fusion steps and in which no edge is contractible.
pub open spec fn drained_from(
    nodes0: Map<usize, TensorKind>,
    r: Seq<TensorKind>,
    g: StableDiGraph<TensorKind, Span>,
    n: nat,
) -> bool {
    &&& graph_ok(g)
    &&& fuse_reach_n(nodes0, net_nodes(g), n)
    &&& (forall|e: usize| !(TensorNetwork { graph: g }).is_contractible(e))
    &&& same_node_values(r, net_nodes(g))
}

/// Holds when a list of tensors carries exactly the values of a node map:
/// some duplicate-free listing of every node pairs each list entry with the
/// node whose value it is.
pub open spec fn same_node_values(r: Seq<TensorKind>, nodes: Map<usize, TensorKind>) -> bool {
    &&& r.len() == nodes.dom().len()
    &&& (exists|ids: Seq<usize>|
        #![auto]
        {
            &&& ids.len() == r.len()
            &&& ids.no_duplicates()
            &&& (forall|k: int|
                0 <= k < ids.len() ==> nodes.dom().contains(#[trigger] ids[k]) && r[k]
                    == nodes[ids[k]])
            &&& (forall|n: usize| #[trigger] nodes.dom().contains(n) ==> ids.contains(n))
        })
}

/// Holds when an edge-list entry is an incoming connection of the fused
/// pair from the given outside neighbour.
pub open spec fn back_entry_key(
    entry: (usize, usize, usize, Span),
    key: usize,
    s: usize,
    t: usize,
) -> bool {
    entry.1 == key && key != s && key != t && (entry.2 == s || entry.2 == t)
}

/// Holds when such an incoming entry's weight contains the given lane.
pub open spec fn back_entry_covers(
    entry: (usize, usize, usize, Span),
    key: usize,
    s: usize,
    t: usize,
    l: usize,
) -> bool {
    back_entry_key(entry, key, s, t) && entry.3@.contains(l)
}

/// Holds when an edge-list entry is an outgoing connection of the fused
/// pair to the given outside neighbour.
pub open spec fn front_entry_key(
    entry: (usize, usize, usize, Span),
    key: usize,
    s: usize,
    t: usize,
) -> bool {
    entry.2 == key && key != s && key != t && (entry.1 == s || entry.1 == t)
}

/// Holds when such an outgoing entry's weight contains the given lane.
pub open spec fn front_entry_covers(
    entry: (usize, usize, usize, Span),
    key: usize,
    s: usize,
    t: usize,
    l: usize,
) -> bool {
    front_entry_key(entry, key, s, t) && entry.3@.contains(l)
}

/// Holds when some old edge runs from the outside neighbour into the fused
/// pair.
pub open spec fn old_in_neighbour(
    edges: Map<usize, (usize, usize, Span)>,
    w: usize,
    s: usize,
    t: usize,
) -> bool {
    &&& w != s
    &&& w != t
    &&& exists|e0: usize|
        #![auto]
        edges.dom().contains(e0) && edges[e0].0 == w && (edges[e0].1 == s || edges[e0].1 == t)
}

/// Holds when some old edge from the outside neighbour into the fused pair
/// carries the given lane.
pub open spec fn old_in_covers(
    edges: Map<usize, (usize, usize, Span)>,
    w: usize,
    s: usize,
    t: usize,
    l: usize,
) -> bool {
    exists|e0: usize|
        #![auto]
        edges.dom().contains(e0) && edges[e0].0 == w && (edges[e0].1 == s || edges[e0].1 == t)
            && edges[e0].2@.contains(l)
}

/// Holds when some old edge runs from the fused pair out to the outside
/// neighbour.
pub open spec fn old_out_neighbour(
    edges: Map<usize, (usize, usize, Span)>,
    w: usize,
    s: usize,
    t: usize,
) -> bool {
    &&& w != s
    &&& w != t
    &&& exists|e0: usize|
        #![auto]
        edges.dom().contains(e0) && edges[e0].1 == w && (edges[e0].0 == s || edges[e0].0 == t)
}

/// Holds when some old edge from the fused pair out to the outside
/// neighbour carries the given lane.
pub open spec fn old_out_covers(
    edges: Map<usize, (usize, usize, Span)>,
    w: usize,
    s: usize,
    t: usize,
    l: usize,
) -> bool {
    exists|e0: usize|
        #![auto]
        edges.dom().contains(e0) && edges[e0].1 == w && (edges[e0].0 == s || edges[e0].0 == t)
            && edges[e0].2@.contains(l)
}

/// The rewiring law of one fusion, per the contractor's step: every edge of
/// the new graph is an untouched old edge or a single merged connection
/// between an outside neighbour and the new node; each such connection's
/// weight holds exactly the lanes of the old edges it replaces, and every
/// outside neighbour of the fused pair keeps exactly one connection per
/// direction.
pub open spec fn rewired_edges_ok(
    olde: Map<usize, (usize, usize, Span)>,
    newe: Map<usize, (usize, usize, Span)>,
    s: usize,
    t: usize,
    c: usize,
) -> bool {
    &&& (forall|e: usize| #[trigger] newe.dom().contains(e) ==> {
        ||| (edge_untouched(olde, e, s, t) && newe[e] == olde[e])
        ||| (newe[e].1 == c && newe[e].0 != c && old_in_neighbour(olde, newe[e].0, s, t) && (
        forall|l: usize| #[trigger]
            newe[e].2@.contains(l) <==> old_in_covers(olde, newe[e].0, s, t, l)))
        ||| (newe[e].0 == c && newe[e].1 != c && old_out_neighbour(olde, newe[e].1, s, t) && (
        forall|l: usize| #[trigger]
            newe[e].2@.contains(l) <==> old_out_covers(olde, newe[e].1, s, t, l)))
    })
    &&& (forall|w: usize| #[trigger]
        old_in_neighbour(olde, w, s, t) ==> exists|e: usize|
            #![auto]
            newe.dom().contains(e) && newe[e].0 == w && newe[e].1 == c)
    &&& (forall|w: usize| #[trigger]
        old_out_neighbour(olde, w, s, t) ==> exists|e: usize|
            #![auto]
            newe.dom().contains(e) && newe[e].0 == c && newe[e].1 == w)
    &&& (forall|e1: usize, e2: usize|
        #![trigger newe.dom().contains(e1), newe.dom().contains(e2)]
        newe.dom().contains(e1) && newe.dom().contains(e2) && newe[e1].1 == c && newe[e2].1 == c
            && newe[e1].0 == newe[e2].0 ==> e1 == e2)
    &&& (forall|e1: usize, e2: usize|
        #![trigger newe.dom().contains(e1), newe.dom().contains(e2)]
        newe.dom().contains(e1) && newe.dom().contains(e2) && newe[e1].0 == c && newe[e2].0 == c
            && newe[e1].1 == newe[e2].1 ==> e1 == e2)
}

/// Whether either endpoint of an edge touches the given lane.
pub open spec fn pair_on(
    nodes: Map<usize, TensorKind>,
    edge: (usize, usize, Span),
    l: usize,
) -> bool {
    nodes[edge.0].on_lane(l) || nodes[edge.1].on_lane(l)
}

/// Holds when the given value is the edge's contraction rank: the width of
/// the filled union of its endpoints' spans.
pub open spec fn contraction_rank_is(
    nodes: Map<usize, TensorKind>,
    edge: (usize, usize, Span),
    rank: int,
) -> bool {
    exists|lo: usize, hi: usize|
        #![auto]
        {
            &&& pair_on(nodes, edge, lo)
            &&& pair_on(nodes, edge, hi)
            &&& (forall|m: usize| pair_on(nodes, edge, m) ==> lo <= m <= hi)
            &&& rank == hi - lo + 1
        }
}

/// An edge has at most one contraction rank.
pub proof fn lemma_rank_unique(
    nodes: Map<usize, TensorKind>,
    edge: (usize, usize, Span),
    r1: int,
    r2: int,
)
    requires
        contraction_rank_is(nodes, edge, r1),
        contraction_rank_is(nodes, edge, r2),
    ensures
        r1 == r2,
{
    let (lo1, hi1) = choose|lo: usize, hi: usize|
        #![auto]
        pair_on(nodes, edge, lo) && pair_on(nodes, edge, hi) && (forall|m: usize|
            pair_on(nodes, edge, m) ==> lo <= m <= hi) && r1 == hi - lo + 1;
    let (lo2, hi2) = choose|lo: usize, hi: usize|
        #![auto]
        pair_on(nodes, edge, lo) && pair_on(nodes, edge, hi) && (forall|m: usize|
            pair_on(nodes, edge, m) ==> lo <= m <= hi) && r2 == hi - lo + 1;
    assert(lo1 <= lo2 && lo2 <= lo1 && hi1 <= hi2 && hi2 <= hi1);
}

/// The contractor's per-round selection law: the chosen edges are
/// contractible, all of the minimal contraction rank among the contractible
/// edges, pairwise endpoint-disjoint, and maximal — every other
/// contractible edge of that rank shares an endpoint with a chosen one.
pub open spec fn round_choice(
    net: TensorNetwork,
    chosen: Seq<(usize, usize, usize)>,
    lowest: int,
) -> bool {
    &&& (forall|q: int|
        0 <= q < chosen.len() ==> {
            let (e, a, b) = #[trigger] chosen[q];
            &&& net.is_contractible(e)
            &&& net.edges()[e].0 == a
            &&& net.edges()[e].1 == b
            &&& contraction_rank_is(net.nodes(), net.edges()[e], lowest)
        })
    &&& (forall|e2: usize, rk2: int|
        net.is_contractible(e2) && #[trigger] contraction_rank_is(
            net.nodes(),
            net.edges()[e2],
            rk2,
        ) ==> lowest <= rk2)
    &&& (forall|q1: int, q2: int|
        0 <= q1 < q2 < chosen.len() ==> (#[trigger] chosen[q1]).1 != (#[trigger] chosen[q2]).1
            && chosen[q1].1 != chosen[q2].2 && chosen[q1].2 != chosen[q2].1 && chosen[q1].2
            != chosen[q2].2)
    &&& (forall|e2: usize, rk2: int|
        net.is_contractible(e2) && #[trigger] contraction_rank_is(
            net.nodes(),
            net.edges()[e2],
            rk2,
        ) && rk2 == lowest ==> exists|q: int|
            0 <= q < chosen.len() && ((#[trigger] chosen[q]).0 == e2 || chosen[q].1 == net.edges()[
                e2
            ].0 || chosen[q].1 == net.edges()[e2].1 || chosen[q].2 == net.edges()[e2].0 || chosen[
                q
            ].2 == net.edges()[e2].1))
}

/// Holds when an edge of the given edge map touches neither of two nodes.
pub open spec fn edge_untouched(
    edges: Map<usize, (usize, usize, Span)>,
    e: usize,
    s: usize,
    t: usize,
) -> bool {
    &&& edges.dom().contains(e)
    &&& edges[e].0 != s
    &&& edges[e].0 != t
    &&& edges[e].1 != s
    &&& edges[e].1 != t
}

impl TensorNetwork {
    /// An edge is contractible when the lanes its weight carries are
    /// exactly the lanes its two endpoints share.
    pub open spec fn is_contractible(&self, e: usize) -> bool {
        &&& self.edges().dom().contains(e)
        &&& (forall|l: usize|
            self.edges()[e].2@.contains(l) <==> (self.nodes()[self.edges()[e].0].on_lane(l)
                && self.nodes()[self.edges()[e].1].on_lane(l)))
    }

    /// Fuses one edge: replaces its two endpoints by a single contraction
    /// node, rewires every other edge that touched them to the new node —
    /// merging the weights of edges that now share both endpoints — and
    /// drops the fused nodes with all their edges.
    ///
    /// The node count falls by exactly one and the edge count falls by at
    /// least one; every edge not incident to the fused pair survives
    /// unchanged.
    fn contract_edge(&mut self, edge: usize)
        requires
            old(self).wf(),
            old(self).edges().dom().contains(edge),
            old(self).edges().dom().len() < 0xFFFF_FFFF,
            old(self).nodes().dom().len() < 0xFFFF_FFFF,
        ensures
            final(self).wf(),
            final(self).nodes().dom().len() == old(self).nodes().dom().len() - 1,
            final(self).edges().dom().len() < old(self).edges().dom().len(),
            forall|e: usize| #[trigger]
                edge_untouched(
                    old(self).edges(),
                    e,
                    old(self).edges()[edge].0,
                    old(self).edges()[edge].1,
                ) ==> final(self).edges().dom().contains(e)
                    && final(self).edges()[e] == old(self).edges()[e],
            // the fused pair is replaced by exactly its own contraction node
            exists|c: usize, b: Box<TensorContraction>|
                #![auto]
                {
                    &&& b.lhs == old(self).nodes()[old(self).edges()[edge].0]
                    &&& b.rhs == old(self).nodes()[old(self).edges()[edge].1]
                    &&& b.wf()
                    &&& final(self).nodes() == old(self).nodes().remove(
                        old(self).edges()[edge].0,
                    ).remove(old(self).edges()[edge].1).insert(c, TensorKind::Contraction(b))
                    &&& rewired_edges_ok(
                        old(self).edges(),
                        final(self).edges(),
                        old(self).edges()[edge].0,
                        old(self).edges()[edge].1,
                        c,
                    )
                },
    {
        let ghost oldn = self.nodes();
        let ghost olde = self.edges();
        let list = graph_edge_list(&self.graph);
        // find the fused edge's endpoints
        let mut kf: usize = 0;
        while kf < list.len() && list[kf].0 != edge
            invariant
                kf <= list@.len(),
                forall|k: int| 0 <= k < kf ==> (#[trigger] list@[k]).0 != edge,
                forall|k: int|
                    0 <= k < list@.len() ==> olde.dom().contains((#[trigger] list@[k]).0)
                        && olde[list@[k].0] == (list@[k].1, list@[k].2, list@[k].3),
                forall|e: usize|
                    olde.dom().contains(e) ==> exists|k: int|
                        0 <= k < list@.len() && (#[trigger] list@[k]).0 == e,
            decreases list@.len() - kf,
        {
            kf = kf + 1;
        }
        proof {
            if kf == list@.len() {
                let k = choose|k: int| 0 <= k < list@.len() && (#[trigger] list@[k]).0 == edge;
                assert(false);
            }
        }
        let source = list[kf].1;
        let target = list[kf].2;
        proof {
            assert(olde.dom().contains(edge) && olde[edge].0 == source && olde[edge].1 == target);
            assert(source != target);
        }

        // one pass over the edges: gather the rewired connections and count
        // the incident edges that the removals will drop
        let mut backlinks: Vec<(usize, Span)> = Vec::new();
        let mut frontlinks: Vec<(usize, Span)> = Vec::new();
        let ghost mut inc_ids: Seq<usize> = Seq::empty();
        let ghost mut found: bool = false;
        let mut k: usize = 0;
        while k < list.len()
            invariant
                self.wf(),
                self.nodes() == oldn,
                self.edges() == olde,
                olde.dom().contains(edge),
                olde[edge].0 == source,
                olde[edge].1 == target,
                source != target,
                k <= list@.len(),
                forall|p: int|
                    0 <= p < list@.len() ==> olde.dom().contains((#[trigger] list@[p]).0)
                        && olde[list@[p].0] == (list@[p].1, list@[p].2, list@[p].3),
                forall|p1: int, p2: int| 0 <= p1 < p2 < list@.len() ==> list@[p1].0 < list@[p2].0,
                // the incident ids seen so far: strictly ascending, all dropped by the removals
                crate::span::strictly_ascending(inc_ids),
                forall|p: int|
                    0 <= p < inc_ids.len() ==> olde.dom().contains(#[trigger] inc_ids[p]) && {
                        let t = olde[inc_ids[p]];
                        t.0 == source || t.0 == target || t.1 == source || t.1 == target
                    },
                inc_ids.len() > 0 && k < list@.len() ==> inc_ids.last() < list@[k as int].0,
                found <==> exists|p: int| 0 <= p < k && (#[trigger] list@[p]).0 == edge,
                backlinks@.len() + frontlinks@.len() + (if found { 1int } else { 0int })
                    <= inc_ids.len(),
                // gathered connections are sound
                forall|p: int|
                    0 <= p < backlinks@.len() ==> oldn.dom().contains((#[trigger] backlinks@[p]).0)
                        && backlinks@[p].0 != source && backlinks@[p].0 != target
                        && backlinks@[p].0 < 0xFFFF_FFFF && backlinks@[p].1.wf()
                        && backlinks@[p].1@.len() > 0,
                forall|p: int|
                    0 <= p < frontlinks@.len() ==> oldn.dom().contains(
                        (#[trigger] frontlinks@[p]).0,
                    ) && frontlinks@[p].0 != source && frontlinks@[p].0 != target
                        && frontlinks@[p].0 < 0xFFFF_FFFF && frontlinks@[p].1.wf()
                        && frontlinks@[p].1@.len() > 0,
                forall|p1: int, p2: int|
                    0 <= p1 < p2 < backlinks@.len() ==> backlinks@[p1].0 != backlinks@[p2].0,
                forall|p1: int, p2: int|
                    0 <= p1 < p2 < frontlinks@.len() ==> frontlinks@[p1].0 != frontlinks@[p2].0,
                // the recorded lanes per neighbour mirror the incident
                // edges seen so far
                forall|key: usize| #[trigger]
                    has_key(backlinks@, key) <==> (exists|p: int|
                        0 <= p < k && back_entry_key(#[trigger] list@[p], key, source, target)),
                forall|key: usize, l: usize| #[trigger]
                    link_has(backlinks@, key, l) <==> (exists|p: int|
                        0 <= p < k && back_entry_covers(
                            #[trigger] list@[p],
                            key,
                            source,
                            target,
                            l,
                        )),
                forall|key: usize| #[trigger]
                    has_key(frontlinks@, key) <==> (exists|p: int|
                        0 <= p < k && front_entry_key(#[trigger] list@[p], key, source, target)),
                forall|key: usize, l: usize| #[trigger]
                    link_has(frontlinks@, key, l) <==> (exists|p: int|
                        0 <= p < k && front_entry_covers(
                            #[trigger] list@[p],
                            key,
                            source,
                            target,
                            l,
                        )),
            decreases list@.len() - k,
        {
            let ghost pre_inc = inc_ids;
            let ghost pre_found = found;
            let ghost pre_back = backlinks@;
            let ghost pre_front = frontlinks@;
            let e = list[k].0;
            let a = list[k].1;
            let b = list[k].2;
            let incident = a == source || a == target || b == source || b == target;
            if incident {
                proof {
                    inc_ids = inc_ids.push(e);
                }
                let back = (b == source || b == target) && a != source && a != target;
                let front = (a == source || a == target) && b != source && b != target;
                if back {
                    let w = list[k].3.clone();
                    merge_link(&mut backlinks, a, w);
                } else if front {
                    let w = list[k].3.clone();
                    merge_link(&mut frontlinks, b, w);
                }
                proof {
                    if e == edge {
                        found = true;
                    }
                }
            }
            k = k + 1;
            proof {
                if !pre_found && !found {
                    assert forall|p: int| 0 <= p < k implies (#[trigger] list@[p]).0 != edge by {}
                }
                let entry = list@[k - 1];
                assert forall|key: usize| #[trigger]
                    has_key(backlinks@, key) <==> (exists|p: int|
                        0 <= p < k && back_entry_key(#[trigger] list@[p], key, source, target)) by {
                    if has_key(backlinks@, key) {
                        if has_key(pre_back, key) {
                            let p = choose|p: int|
                                0 <= p < k - 1 && back_entry_key(
                                    #[trigger] list@[p],
                                    key,
                                    source,
                                    target,
                                );
                            assert(back_entry_key(list@[p], key, source, target));
                        } else {
                            assert(back_entry_key(entry, key, source, target));
                        }
                    }
                    if exists|p: int|
                        0 <= p < k && back_entry_key(#[trigger] list@[p], key, source, target) {
                        let p = choose|p: int|
                            0 <= p < k && back_entry_key(#[trigger] list@[p], key, source, target);
                        if p < k - 1 {
                            assert(has_key(pre_back, key));
                        }
                    }
                }
                assert forall|key: usize, l: usize| #[trigger]
                    link_has(backlinks@, key, l) <==> (exists|p: int|
                        0 <= p < k && back_entry_covers(
                            #[trigger] list@[p],
                            key,
                            source,
                            target,
                            l,
                        )) by {
                    if link_has(backlinks@, key, l) {
                        if link_has(pre_back, key, l) {
                            let p = choose|p: int|
                                0 <= p < k - 1 && back_entry_covers(
                                    #[trigger] list@[p],
                                    key,
                                    source,
                                    target,
                                    l,
                                );
                            assert(back_entry_covers(list@[p], key, source, target, l));
                        } else {
                            assert(back_entry_covers(entry, key, source, target, l));
                        }
                    }
                    if exists|p: int|
                        0 <= p < k && back_entry_covers(
                            #[trigger] list@[p],
                            key,
                            source,
                            target,
                            l,
                        ) {
                        let p = choose|p: int|
                            0 <= p < k && back_entry_covers(
                                #[trigger] list@[p],
                                key,
                                source,
                                target,
                                l,
                            );
                        if p < k - 1 {
                            assert(link_has(pre_back, key, l));
                        }
                    }
                }
                assert forall|key: usize| #[trigger]
                    has_key(frontlinks@, key) <==> (exists|p: int|
                        0 <= p < k && front_entry_key(#[trigger] list@[p], key, source, target)) by {
                    if has_key(frontlinks@, key) {
                        if has_key(pre_front, key) {
                            let p = choose|p: int|
                                0 <= p < k - 1 && front_entry_key(
                                    #[trigger] list@[p],
                                    key,
                                    source,
                                    target,
                                );
                            assert(front_entry_key(list@[p], key, source, target));
                        } else {
                            assert(front_entry_key(entry, key, source, target));
                        }
                    }
                    if exists|p: int|
                        0 <= p < k && front_entry_key(#[trigger] list@[p], key, source, target) {
                        let p = choose|p: int|
                            0 <= p < k && front_entry_key(#[trigger] list@[p], key, source, target);
                        if p < k - 1 {
                            assert(has_key(pre_front, key));
                        }
                    }
                }
                assert forall|key: usize, l: usize| #[trigger]
                    link_has(frontlinks@, key, l) <==> (exists|p: int|
                        0 <= p < k && front_entry_covers(
                            #[trigger] list@[p],
                            key,
                            source,
                            target,
                            l,
                        )) by {
                    if link_has(frontlinks@, key, l) {
                        if link_has(pre_front, key, l) {
                            let p = choose|p: int|
                                0 <= p < k - 1 && front_entry_covers(
                                    #[trigger] list@[p],
                                    key,
                                    source,
                                    target,
                                    l,
                                );
                            assert(front_entry_covers(list@[p], key, source, target, l));
                        } else {
                            assert(front_entry_covers(entry, key, source, target, l));
                        }
                    }
                    if exists|p: int|
                        0 <= p < k && front_entry_covers(
                            #[trigger] list@[p],
                            key,
                            source,
                            target,
                            l,
                        ) {
                        let p = choose|p: int|
                            0 <= p < k && front_entry_covers(
                                #[trigger] list@[p],
                                key,
                                source,
                                target,
                                l,
                            );
                        if p < k - 1 {
                            assert(link_has(pre_front, key, l));
                        }
                    }
                }
            }
        }
        proof {
            assert(found) by {
                let p = choose|p: int| 0 <= p < list@.len() && (#[trigger] list@[p]).0 == edge;
            }
        }

        // drop the fused pair and every incident edge
        let ghost removed = Set::new(
            |e: usize|
                olde.dom().contains(e) && (olde[e].0 == source || olde[e].0 == target || olde[e].1
                    == source || olde[e].1 == target),
        );
        let src_kind = graph_remove_node(&mut self.graph, source);
        let tgt_kind = graph_remove_node(&mut self.graph, target);
        proof {
            assert(self.nodes() =~= oldn.remove(source).remove(target));
            assert(self.edges() =~= Map::new(
                |e: usize| olde.dom().contains(e) && !removed.contains(e),
                |e: usize| olde[e],
            ));
            assert(self.edges().dom() =~= olde.dom().difference(removed));
            assert(removed.subset_of(olde.dom()));
            vstd::set_lib::lemma_len_subset(removed, olde.dom());
            // the incident ids enumerate a subset of the removed edges
            inc_ids_card(inc_ids, removed);
            assert(olde.dom() =~= olde.dom().difference(removed) + removed);
            vstd::set_lib::lemma_set_disjoint_lens(olde.dom().difference(removed), removed);
            assert(self.edges().dom().len() == olde.dom().len() - removed.len());
            assert(removed.len() >= inc_ids.len());
            assert(self.edges().dom().len() + backlinks@.len() + frontlinks@.len() < olde.dom().len());
        }

        // fuse the pair into one node and rewire the gathered connections
        let contr = TensorContraction::new(src_kind, tgt_kind);
        let ghost gcontr = contr;
        let new_node = graph_add_node(&mut self.graph, TensorKind::Contraction(Box::new(contr)));
        let ghost mid_nodes = self.nodes();
        let ghost mid_edges = self.edges();
        let ghost mut aids: Seq<usize> = Seq::empty();
        let mut i: usize = 0;
        while i < backlinks.len()
            invariant
                i <= backlinks@.len(),
                self.nodes() == mid_nodes,
                self.wf(),
                self.edges().dom().finite(),
                self.edges().dom().len() <= mid_edges.dom().len() + i,
                mid_nodes.dom().contains(new_node),
                new_node < 0xFFFF_FFFF,
                mid_edges.dom().len() + backlinks@.len() + frontlinks@.len() < olde.dom().len(),
                olde.dom().len() < 0xFFFF_FFFF,
                forall|p: int|
                    0 <= p < backlinks@.len() ==> mid_nodes.dom().contains(
                        (#[trigger] backlinks@[p]).0,
                    ) && backlinks@[p].0 != new_node && backlinks@[p].0 < 0xFFFF_FFFF
                        && backlinks@[p].1.wf() && backlinks@[p].1@.len() > 0,
                forall|e: usize| #[trigger]
                    mid_edges.dom().contains(e) ==> self.edges().dom().contains(e)
                        && self.edges()[e] == mid_edges[e],
                aids.len() == i,
                forall|p: int|
                    0 <= p < i ==> self.edges().dom().contains(#[trigger] aids[p])
                        && !mid_edges.dom().contains(aids[p]) && self.edges()[aids[p]].0
                        == backlinks@[p].0 && self.edges()[aids[p]].1 == new_node && self.edges()[
                    aids[p]].2@ == backlinks@[p].1@,
                forall|e: usize| #[trigger]
                    self.edges().dom().contains(e) ==> mid_edges.dom().contains(e) || (exists|
                        p: int,
                    | 0 <= p < i && #[trigger] aids[p] == e),
            decreases backlinks@.len() - i,
        {
            let n = backlinks[i].0;
            let w = backlinks[i].1.clone();
            let ghost pre_e = self.edges();
            let added = graph_add_edge(&mut self.graph, n, new_node, w);
            proof {
                let pre_aids = aids;
                aids = aids.push(added);
                assert forall|e: usize| #[trigger]
                    self.edges().dom().contains(e) implies mid_edges.dom().contains(e) || (exists|
                    p: int,
                | 0 <= p < i + 1 && #[trigger] aids[p] == e) by {
                    if e != added {
                        assert(pre_e.dom().contains(e));
                        if !mid_edges.dom().contains(e) {
                            let p = choose|p: int| 0 <= p < i && #[trigger] pre_aids[p] == e;
                            assert(aids[p] == e);
                        }
                    } else {
                        assert(aids[i as int] == e);
                    }
                }
            }
            i = i + 1;
        }
        let ghost back_edges = self.edges();
        let ghost mut fids: Seq<usize> = Seq::empty();
        let mut j: usize = 0;
        while j < frontlinks.len()
            invariant
                j <= frontlinks@.len(),
                self.nodes() == mid_nodes,
                self.wf(),
                self.edges().dom().finite(),
                self.edges().dom().len() <= back_edges.dom().len() + j,
                back_edges.dom().len() <= mid_edges.dom().len() + backlinks@.len(),
                mid_nodes.dom().contains(new_node),
                new_node < 0xFFFF_FFFF,
                mid_edges.dom().len() + backlinks@.len() + frontlinks@.len() < olde.dom().len(),
                olde.dom().len() < 0xFFFF_FFFF,
                aids.len() == backlinks@.len(),
                forall|p: int|
                    0 <= p < frontlinks@.len() ==> mid_nodes.dom().contains(
                        (#[trigger] frontlinks@[p]).0,
                    ) && frontlinks@[p].0 != new_node && frontlinks@[p].0 < 0xFFFF_FFFF
                        && frontlinks@[p].1.wf() && frontlinks@[p].1@.len() > 0,
                forall|e: usize| #[trigger]
                    back_edges.dom().contains(e) ==> self.edges().dom().contains(e)
                        && self.edges()[e] == back_edges[e],
                forall|e: usize| #[trigger]
                    mid_edges.dom().contains(e) ==> back_edges.dom().contains(e) && back_edges[e]
                        == mid_edges[e],
                forall|p: int|
                    0 <= p < aids.len() ==> back_edges.dom().contains(#[trigger] aids[p])
                        && !mid_edges.dom().contains(aids[p]) && back_edges[aids[p]].0
                        == backlinks@[p].0 && back_edges[aids[p]].1 == new_node && back_edges[aids[
                    p]].2@ == backlinks@[p].1@,
                forall|e: usize| #[trigger]
                    back_edges.dom().contains(e) ==> mid_edges.dom().contains(e) || (exists|p: int|
                        0 <= p < aids.len() && #[trigger] aids[p] == e),
                fids.len() == j,
                forall|p: int|
                    0 <= p < j ==> self.edges().dom().contains(#[trigger] fids[p])
                        && !back_edges.dom().contains(fids[p]) && self.edges()[fids[p]].0
                        == new_node && self.edges()[fids[p]].1 == frontlinks@[p].0 && self.edges()[
                    fids[p]].2@ == frontlinks@[p].1@,
                forall|e: usize| #[trigger]
                    self.edges().dom().contains(e) ==> back_edges.dom().contains(e) || (exists|
                        p: int,
                    | 0 <= p < j && #[trigger] fids[p] == e),
            decreases frontlinks@.len() - j,
        {
            let n = frontlinks[j].0;
            let w = frontlinks[j].1.clone();
            let ghost pre_e = self.edges();
            let added = graph_add_edge(&mut self.graph, new_node, n, w);
            proof {
                let pre_fids = fids;
                fids = fids.push(added);
                assert forall|e: usize| #[trigger]
                    self.edges().dom().contains(e) implies back_edges.dom().contains(e) || (exists|
                    p: int,
                | 0 <= p < j + 1 && #[trigger] fids[p] == e) by {
                    if e != added {
                        assert(pre_e.dom().contains(e));
                        if !back_edges.dom().contains(e) {
                            let p = choose|p: int| 0 <= p < j && #[trigger] pre_fids[p] == e;
                            assert(fids[p] == e);
                        }
                    } else {
                        assert(fids[j as int] == e);
                    }
                }
            }
            j = j + 1;
        }
        proof {
            broadcast use vstd::set::axiom_set_insert_len, vstd::set::axiom_set_remove_len;

            assert(self.nodes().dom().len() == oldn.dom().len() - 1);

            // assemble the rewiring law
            let fe = self.edges();
            let c = new_node;
            // no surviving or rewired endpoint can be the new node except by
            // construction: the new index is vacant in the reduced node map
            assert forall|e: usize| #[trigger]
                mid_edges.dom().contains(e) implies edge_untouched(olde, e, source, target)
                && mid_edges[e] == olde[e] && mid_edges[e].0 != c && mid_edges[e].1 != c by {
                assert(olde.dom().contains(e));
                assert(oldn.dom().contains(olde[e].0) && oldn.dom().contains(olde[e].1));
                assert(oldn.remove(source).remove(target).dom().contains(olde[e].0));
                assert(oldn.remove(source).remove(target).dom().contains(olde[e].1));
            }
            // the gathered lanes now read over the old edge map
            assert forall|key: usize, l: usize| #[trigger]
                link_has(backlinks@, key, l) implies old_in_covers(olde, key, source, target, l) by {
                let p = choose|p: int|
                    0 <= p < k && back_entry_covers(#[trigger] list@[p], key, source, target, l);
                assert(olde.dom().contains(list@[p].0));
                assert(olde[list@[p].0] == (list@[p].1, list@[p].2, list@[p].3));
            }
            assert forall|key: usize, l: usize|
                key != source && key != target && old_in_covers(
                    olde,
                    key,
                    source,
                    target,
                    l,
                ) implies #[trigger] link_has(backlinks@, key, l) by {
                let e0 = choose|e0: usize|
                    #![auto]
                    olde.dom().contains(e0) && olde[e0].0 == key && (olde[e0].1 == source || olde[
                        e0
                    ].1 == target) && olde[e0].2@.contains(l);
                let p = choose|p: int| 0 <= p < list@.len() && (#[trigger] list@[p]).0 == e0;
                assert(back_entry_covers(list@[p], key, source, target, l));
            }
            assert forall|key: usize| old_in_neighbour(olde, key, source, target) implies
                #[trigger] has_key(backlinks@, key) by {
                let e0 = choose|e0: usize|
                    #![auto]
                    olde.dom().contains(e0) && olde[e0].0 == key && (olde[e0].1 == source || olde[
                        e0
                    ].1 == target);
                let p = choose|p: int| 0 <= p < list@.len() && (#[trigger] list@[p]).0 == e0;
                assert(back_entry_key(list@[p], key, source, target));
            }
            assert forall|key: usize, l: usize| #[trigger]
                link_has(frontlinks@, key, l) implies old_out_covers(
                olde,
                key,
                source,
                target,
                l,
            ) by {
                let p = choose|p: int|
                    0 <= p < k && front_entry_covers(#[trigger] list@[p], key, source, target, l);
                assert(olde.dom().contains(list@[p].0));
                assert(olde[list@[p].0] == (list@[p].1, list@[p].2, list@[p].3));
            }
            assert forall|key: usize, l: usize|
                key != source && key != target && old_out_covers(
                    olde,
                    key,
                    source,
                    target,
                    l,
                ) implies #[trigger] link_has(frontlinks@, key, l) by {
                let e0 = choose|e0: usize|
                    #![auto]
                    olde.dom().contains(e0) && olde[e0].1 == key && (olde[e0].0 == source || olde[
                        e0
                    ].0 == target) && olde[e0].2@.contains(l);
                let p = choose|p: int| 0 <= p < list@.len() && (#[trigger] list@[p]).0 == e0;
                assert(front_entry_covers(list@[p], key, source, target, l));
            }
            assert forall|key: usize| old_out_neighbour(olde, key, source, target) implies
                #[trigger] has_key(frontlinks@, key) by {
                let e0 = choose|e0: usize|
                    #![auto]
                    olde.dom().contains(e0) && olde[e0].1 == key && (olde[e0].0 == source || olde[
                        e0
                    ].0 == target);
                let p = choose|p: int| 0 <= p < list@.len() && (#[trigger] list@[p]).0 == e0;
                assert(front_entry_key(list@[p], key, source, target));
            }

            // case split every final edge
            assert forall|e: usize| #[trigger] fe.dom().contains(e) implies {
                ||| (edge_untouched(olde, e, source, target) && fe[e] == olde[e])
                ||| (fe[e].1 == c && fe[e].0 != c && old_in_neighbour(olde, fe[e].0, source, target)
                    && (forall|l: usize| #[trigger]
                    fe[e].2@.contains(l) <==> old_in_covers(olde, fe[e].0, source, target, l)))
                ||| (fe[e].0 == c && fe[e].1 != c && old_out_neighbour(
                    olde,
                    fe[e].1,
                    source,
                    target,
                ) && (forall|l: usize| #[trigger]
                    fe[e].2@.contains(l) <==> old_out_covers(olde, fe[e].1, source, target, l)))
            } by {
                if mid_edges.dom().contains(e) {
                    assert(fe[e] == olde[e]);
                } else if back_edges.dom().contains(e) {
                    let p = choose|p: int| 0 <= p < aids.len() && #[trigger] aids[p] == e;
                    let w = backlinks@[p].0;
                    assert(fe[e].0 == w && fe[e].1 == c);
                    assert(w != source && w != target && w != c);
                    assert(has_key(backlinks@, w)) by {
                        assert(backlinks@[p].0 == w);
                    }
                    assert(old_in_neighbour(olde, w, source, target)) by {
                        let p0 = choose|p0: int|
                            0 <= p0 < k && back_entry_key(#[trigger] list@[p0], w, source, target);
                        assert(olde.dom().contains(list@[p0].0));
                        assert(olde[list@[p0].0] == (list@[p0].1, list@[p0].2, list@[p0].3));
                    }
                    assert forall|l: usize| #[trigger]
                        fe[e].2@.contains(l) <==> old_in_covers(olde, w, source, target, l) by {
                        if fe[e].2@.contains(l) {
                            assert(backlinks@[p].1@.contains(l));
                            assert(link_has(backlinks@, w, l)) by {
                                assert(backlinks@[p].0 == w && backlinks@[p].1@.contains(l));
                            }
                        }
                        if old_in_covers(olde, w, source, target, l) {
                            assert(link_has(backlinks@, w, l));
                            let q = choose|q: int|
                                0 <= q < backlinks@.len() && (#[trigger] backlinks@[q]).0 == w
                                    && backlinks@[q].1@.contains(l);
                            assert(q == p) by {
                                if q != p {
                                    assert(backlinks@[q].0 != backlinks@[p].0);
                                }
                            }
                            assert(fe[e].2@.contains(l));
                        }
                    }
                } else {
                    let p = choose|p: int| 0 <= p < fids.len() && #[trigger] fids[p] == e;
                    let w = frontlinks@[p].0;
                    assert(fe[e].0 == c && fe[e].1 == w);
                    assert(w != source && w != target && w != c);
                    assert(old_out_neighbour(olde, w, source, target)) by {
                        assert(has_key(frontlinks@, w)) by {
                            assert(frontlinks@[p].0 == w);
                        }
                        let p0 = choose|p0: int|
                            0 <= p0 < k && front_entry_key(#[trigger] list@[p0], w, source, target);
                        assert(olde.dom().contains(list@[p0].0));
                        assert(olde[list@[p0].0] == (list@[p0].1, list@[p0].2, list@[p0].3));
                    }
                    assert forall|l: usize| #[trigger]
                        fe[e].2@.contains(l) <==> old_out_covers(olde, w, source, target, l) by {
                        if fe[e].2@.contains(l) {
                            assert(frontlinks@[p].1@.contains(l));
                            assert(link_has(frontlinks@, w, l)) by {
                                assert(frontlinks@[p].0 == w && frontlinks@[p].1@.contains(l));
                            }
                        }
                        if old_out_covers(olde, w, source, target, l) {
                            assert(link_has(frontlinks@, w, l));
                            let q = choose|q: int|
                                0 <= q < frontlinks@.len() && (#[trigger] frontlinks@[q]).0 == w
                                    && frontlinks@[q].1@.contains(l);
                            assert(q == p) by {
                                if q != p {
                                    assert(frontlinks@[q].0 != frontlinks@[p].0);
                                }
                            }
                            assert(fe[e].2@.contains(l));
                        }
                    }
                }
            }
            // every outside neighbour keeps one connection per direction
            assert forall|w: usize| #[trigger]
                old_in_neighbour(olde, w, source, target) implies exists|e: usize|
                #![auto]
                fe.dom().contains(e) && fe[e].0 == w && fe[e].1 == c by {
                assert(has_key(backlinks@, w));
                let p = choose|p: int|
                    0 <= p < backlinks@.len() && (#[trigger] backlinks@[p]).0 == w;
                assert(back_edges.dom().contains(aids[p]));
                assert(fe.dom().contains(aids[p]));
                assert(fe[aids[p]].0 == w && fe[aids[p]].1 == c);
            }
            assert forall|w: usize| #[trigger]
                old_out_neighbour(olde, w, source, target) implies exists|e: usize|
                #![auto]
                fe.dom().contains(e) && fe[e].0 == c && fe[e].1 == w by {
                assert(has_key(frontlinks@, w));
                let p = choose|p: int|
                    0 <= p < frontlinks@.len() && (#[trigger] frontlinks@[p]).0 == w;
                assert(fe.dom().contains(fids[p]));
                assert(fe[fids[p]].0 == c && fe[fids[p]].1 == w);
            }
            // a final edge into the new node can only be a rewired
            // incoming one, so its index in the gathered list is fixed by
            // its source
            assert forall|e1: usize|
                fe.dom().contains(e1) && fe[e1].1 == c implies exists|p: int|
                0 <= p < aids.len() && #[trigger] aids[p] == e1 by {
                assert(!mid_edges.dom().contains(e1));
                if !back_edges.dom().contains(e1) {
                    let q = choose|q: int| 0 <= q < fids.len() && #[trigger] fids[q] == e1;
                    assert(fe[e1].1 == frontlinks@[q].0);
                    assert(false);
                }
            }
            assert forall|e1: usize|
                fe.dom().contains(e1) && fe[e1].0 == c implies exists|q: int|
                0 <= q < fids.len() && #[trigger] fids[q] == e1 by {
                assert(!mid_edges.dom().contains(e1));
                if back_edges.dom().contains(e1) {
                    if !mid_edges.dom().contains(e1) {
                        let p = choose|p: int| 0 <= p < aids.len() && #[trigger] aids[p] == e1;
                        assert(fe[e1].0 == backlinks@[p].0);
                        assert(false);
                    }
                }
            }
            // uniqueness per neighbour and direction
            assert forall|e1: usize, e2: usize|
                #![trigger fe.dom().contains(e1), fe.dom().contains(e2)]
                fe.dom().contains(e1) && fe.dom().contains(e2) && fe[e1].1 == c && fe[e2].1 == c
                    && fe[e1].0 == fe[e2].0 implies e1 == e2 by {
                let p1 = choose|p: int| 0 <= p < aids.len() && #[trigger] aids[p] == e1;
                let p2 = choose|p: int| 0 <= p < aids.len() && #[trigger] aids[p] == e2;
                assert(fe[e1].0 == backlinks@[p1].0);
                assert(fe[e2].0 == backlinks@[p2].0);
                assert(p1 == p2) by {
                    if p1 != p2 {
                        assert(backlinks@[p1].0 != backlinks@[p2].0);
                    }
                }
            }
            assert forall|e1: usize, e2: usize|
                #![trigger fe.dom().contains(e1), fe.dom().contains(e2)]
                fe.dom().contains(e1) && fe.dom().contains(e2) && fe[e1].0 == c && fe[e2].0 == c
                    && fe[e1].1 == fe[e2].1 implies e1 == e2 by {
                let p1 = choose|q: int| 0 <= q < fids.len() && #[trigger] fids[q] == e1;
                let p2 = choose|q: int| 0 <= q < fids.len() && #[trigger] fids[q] == e2;
                assert(fe[e1].1 == frontlinks@[p1].0);
                assert(fe[e2].1 == frontlinks@[p2].0);
                assert(p1 == p2) by {
                    if p1 != p2 {
                        assert(frontlinks@[p1].0 != frontlinks@[p2].0);
                    }
                }
            }
            assert(rewired_edges_ok(olde, fe, source, target, c));
        }
    }
}

/// A set of node indices, backed by hashbrown's hash set.  The hash set's
/// declaration carries an allocator type parameter that cannot be declared
/// here, so the collection lives in an opaque struct of its own.
#[verifier::external_body]
struct NodeSet {
    inner: hashbrown::HashSet<usize>,
}

/// The node indices a node set holds.
pub uninterp spec fn node_set_of(s: NodeSet) -> Set<usize>;

/// Relies on hashbrown's HashSet::new: the new set is empty.
#[verifier::external_body]
fn node_set_new() -> (s: NodeSet)
    ensures
        node_set_of(s) == Set::<usize>::empty(),
{
    NodeSet { inner: hashbrown::HashSet::new() }
}

/// Relies on hashbrown's HashSet::insert: it adds the value and reports
/// whether the value was absent.
#[verifier::external_body]
fn node_set_insert(s: &mut NodeSet, v: usize) -> (r: bool)
    ensures
        node_set_of(*final(s)) == node_set_of(*old(s)).insert(v),
        r == !node_set_of(*old(s)).contains(v),
{
    s.inner.insert(v)
}

/// Relies on hashbrown's HashSet::contains.
#[verifier::external_body]
fn node_set_contains(s: &NodeSet, v: usize) -> (r: bool)
    ensures
        r == node_set_of(*s).contains(v),
{
    s.inner.contains(&v)
}

impl TensorNetwork {
    /// Performs one contractor iteration: finds the contractible edges,
    /// keeps those of the lowest contraction rank, greedily selects a
    /// maximal set of them with pairwise distinct endpoints, and fuses each
    /// selected edge.
    ///
    /// The node count falls by exactly the number of fused edges and the
    /// edge count never grows; a return of zero means no edge of the
    /// network was contractible, and the network is left untouched.
    #[verifier::rlimit(100)]
    #[verifier::spinoff_prover]
    pub fn contract_round(&mut self) -> (fused: usize)
        requires
            old(self).wf(),
            old(self).nodes().dom().len() < 0xFFFF_FFFF,
            old(self).edges().dom().len() < 0xFFFF_FFFF,
        ensures
            final(self).wf(),
            final(self).nodes().dom().len() + fused == old(self).nodes().dom().len(),
            final(self).edges().dom().len() + fused <= old(self).edges().dom().len(),
            fused == 0 ==> *final(self) == *old(self),
            fused == 0 <==> (forall|e: usize| !old(self).is_contractible(e)),
            fuse_reach_n(old(self).nodes(), final(self).nodes(), fused as nat),
            // the fused edges were contractible at the minimal contraction
            // rank, pairwise endpoint-disjoint, and maximal: every other
            // minimal-rank contractible edge shares an endpoint with one
            fused > 0 ==> exists|chosen: Seq<(usize, usize, usize)>, lowest: int|
                #[trigger] round_choice(*old(self), chosen, lowest) && chosen.len() == fused,
    {
        let list = graph_edge_list(&self.graph);
        let mut cands: Vec<(usize, usize, usize, usize)> = Vec::new();
        let mut k: usize = 0;
        while k < list.len()
            invariant
                *self == *old(self),
                self.wf(),
                k <= list@.len(),
                forall|p: int|
                    0 <= p < list@.len() ==> self.edges().dom().contains((#[trigger] list@[p]).0)
                        && self.edges()[list@[p].0] == (list@[p].1, list@[p].2, list@[p].3),
                forall|e: usize|
                    self.edges().dom().contains(e) ==> exists|p: int|
                        0 <= p < list@.len() && (#[trigger] list@[p]).0 == e,
                forall|q: int|
                    0 <= q < cands@.len() ==> {
                        let (e, a, b, rank) = #[trigger] cands@[q];
                        &&& self.edges().dom().contains(e)
                        &&& self.edges()[e].0 == a
                        &&& self.edges()[e].1 == b
                        &&& a != b
                        &&& self.is_contractible(e)
                        &&& contraction_rank_is(self.nodes(), self.edges()[e], rank as int)
                    },
                forall|p: int|
                    0 <= p < k && self.is_contractible((#[trigger] list@[p]).0) ==> exists|q: int|
                        0 <= q < cands@.len() && (#[trigger] cands@[q]).0 == list@[p].0,
            decreases list@.len() - k,
        {
            let e = list[k].0;
            let a = list[k].1;
            let b = list[k].2;
            proof {
                assert(self.edges().dom().contains(e));
                assert(self.nodes().dom().contains(a));
                assert(self.nodes().dom().contains(b));
            }
            let ghost pre_cands = cands@;
            let an = graph_node_ref(&self.graph, a);
            let sa = an.span();
            let bn = graph_node_ref(&self.graph, b);
            let sb = bn.span();
            let joined = sa.inner_join(&sb);
            let contractible = match &joined {
                Some(s) => s.eq(&list[k].3),
                None => false,
            };
            if contractible {
                proof {
                    match joined {
                        Some(ref sj) => {
                            assert(sj@ == self.edges()[e].2@);
                            assert forall|l: usize|
                                self.edges()[e].2@.contains(l) <==> (self.nodes()[a].on_lane(l)
                                    && self.nodes()[b].on_lane(l)) by {
                                assert(sj@.contains(l) <==> (sa@.contains(l) && sb@.contains(l)));
                            }
                            assert(self.is_contractible(e));
                        },
                        None => {
                            assert(false);
                        },
                    }
                }
                let u = sa.full_join(&sb);
                proof {
                    lemma_kind_bounded(self.nodes()[a]);
                    lemma_kind_bounded(self.nodes()[b]);
                    crate::span::lemma_ascending_bounds(u@);
                    assert(u@.contains(u@[0]));
                    assert(u@.contains(u@.last()));
                    let m = u@.last();
                    assert(m < MAX_LANES) by {
                        if sa@.contains(m) {
                            assert(self.nodes()[a].on_lane(m));
                        } else {
                            assert(sb@.contains(m));
                            assert(self.nodes()[b].on_lane(m));
                        }
                    }
                }
                let rank = u.end() - u.start() + 1;
                proof {
                    assert(contraction_rank_is(self.nodes(), self.edges()[e], rank as int)) by {
                        let lo = u@[0];
                        let hi = u@.last();
                        assert(pair_on(self.nodes(), self.edges()[e], lo)) by {
                            assert(sa@.contains(lo) || sb@.contains(lo));
                        }
                        assert(pair_on(self.nodes(), self.edges()[e], hi)) by {
                            assert(sa@.contains(hi) || sb@.contains(hi));
                        }
                        assert forall|m: usize|
                            pair_on(self.nodes(), self.edges()[e], m) implies lo <= m <= hi by {
                            assert(u@.contains(m)) by {
                                if self.nodes()[a].on_lane(m) {
                                    assert(sa@.contains(m));
                                } else {
                                    assert(sb@.contains(m));
                                }
                            }
                        }
                    }
                }
                cands.push((e, a, b, rank));
            } else {
                proof {
                    if self.is_contractible(e) {
                        let w = self.edges()[e].2;
                        match joined {
                            Some(s) => {
                                assert forall|l: usize| s@.contains(l) <==> w@.contains(l) by {}
                                crate::span::lemma_ascending_unique(s@, w@);
                                assert(false);
                            },
                            None => {
                                assert(w@.len() > 0);
                                assert(w@.contains(w@[0]));
                                assert(false);
                            },
                        }
                    }
                }
            }
            k = k + 1;
            proof {
                assert forall|p: int|
                    0 <= p < k && self.is_contractible(
                        (#[trigger] list@[p]).0,
                    ) implies exists|q: int|
                    0 <= q < cands@.len() && (#[trigger] cands@[q]).0 == list@[p].0 by {
                    if p < k - 1 {
                        let q = choose|q: int|
                            0 <= q < pre_cands.len() && (#[trigger] pre_cands[q]).0 == list@[p].0;
                        assert(cands@[q].0 == list@[p].0);
                    } else {
                        assert(cands@[cands@.len() - 1].0 == e);
                    }
                }
            }
        }
        if cands.len() == 0 {
            proof {
                assert forall|e: usize| !self.is_contractible(e) by {
                    if self.edges().dom().contains(e) {
                        let p = choose|p: int|
                            0 <= p < list@.len() && (#[trigger] list@[p]).0 == e;
                    }
                }
            }
            return 0;
        }

        // the lowest contraction rank among the contractible edges
        let mut lowest: usize = cands[0].3;
        let mut i: usize = 1;
        while i < cands.len()
            invariant
                i <= cands@.len(),
                cands@.len() > 0,
                exists|q: int| 0 <= q < cands@.len() && (#[trigger] cands@[q]).3 == lowest,
                forall|q: int| 0 <= q < i ==> lowest <= (#[trigger] cands@[q]).3,
            decreases cands@.len() - i,
        {
            if cands[i].3 < lowest {
                lowest = cands[i].3;
            }
            i = i + 1;
        }
        proof {
            assert(cands@[0].3 == cands@[0].3);
        }

        // greedily select lowest-rank edges with pairwise distinct endpoints
        let mut visited = node_set_new();
        let mut sel: Vec<(usize, usize, usize)> = Vec::new();
        let mut i2: usize = 0;
        while i2 < cands.len()
            invariant
                *self == *old(self),
                self.wf(),
                i2 <= cands@.len(),
                forall|q: int|
                    0 <= q < cands@.len() ==> {
                        let (e, a, b, rank) = #[trigger] cands@[q];
                        &&& self.edges().dom().contains(e)
                        &&& self.edges()[e].0 == a
                        &&& self.edges()[e].1 == b
                        &&& a != b
                        &&& self.is_contractible(e)
                        &&& contraction_rank_is(self.nodes(), self.edges()[e], rank as int)
                    },
                forall|p: int|
                    0 <= p < sel@.len() ==> {
                        let (e, a, b) = #[trigger] sel@[p];
                        &&& self.edges().dom().contains(e)
                        &&& self.edges()[e].0 == a
                        &&& self.edges()[e].1 == b
                        &&& a != b
                        &&& node_set_of(visited).contains(a)
                        &&& node_set_of(visited).contains(b)
                        &&& self.is_contractible(e)
                        &&& contraction_rank_is(self.nodes(), self.edges()[e], lowest as int)
                    },
                forall|x: usize|
                    #[trigger] node_set_of(visited).contains(x) ==> exists|p: int|
                        0 <= p < sel@.len() && ((#[trigger] sel@[p]).1 == x || sel@[p].2 == x),
                forall|q: int|
                    0 <= q < i2 && (#[trigger] cands@[q]).3 == lowest ==> exists|p: int|
                        0 <= p < sel@.len() && ((#[trigger] sel@[p]).0 == cands@[q].0 || sel@[p].1
                            == cands@[q].1 || sel@[p].1 == cands@[q].2 || sel@[p].2 == cands@[q].1
                            || sel@[p].2 == cands@[q].2),
                forall|p1: int, p2: int|
                    0 <= p1 < p2 < sel@.len() ==> (#[trigger] sel@[p1]).1 != (
                    #[trigger] sel@[p2]).1 && sel@[p1].1 != sel@[p2].2 && sel@[p1].2 != sel@[p2].1
                        && sel@[p1].2 != sel@[p2].2,
                sel@.len() == 0 ==> (forall|x: usize| !node_set_of(visited).contains(x)),
                (exists|q: int| 0 <= q < i2 && (#[trigger] cands@[q]).3 == lowest) ==> sel@.len()
                    > 0,
            decreases cands@.len() - i2,
        {
            let e = cands[i2].0;
            let a = cands[i2].1;
            let b = cands[i2].2;
            let rank = cands[i2].3;
            let ghost pre_sel = sel@;
            let ghost pre_vis = node_set_of(visited);
            let mut pushed = false;
            if rank == lowest && !node_set_contains(&visited, a) && !node_set_contains(&visited, b)
            {
                node_set_insert(&mut visited, a);
                node_set_insert(&mut visited, b);
                sel.push((e, a, b));
                pushed = true;
            }
            i2 = i2 + 1;
            proof {
                assert forall|x: usize|
                    #[trigger] node_set_of(visited).contains(x) implies exists|p: int|
                    0 <= p < sel@.len() && ((#[trigger] sel@[p]).1 == x || sel@[p].2 == x) by {
                    if pre_vis.contains(x) {
                        let p = choose|p: int|
                            0 <= p < pre_sel.len() && ((#[trigger] pre_sel[p]).1 == x
                                || pre_sel[p].2 == x);
                        assert(sel@[p].1 == x || sel@[p].2 == x);
                    } else {
                        assert(pushed && (x == a || x == b));
                        assert(sel@[sel@.len() - 1].1 == x || sel@[sel@.len() - 1].2 == x);
                    }
                }
                assert forall|q: int|
                    0 <= q < i2 && (#[trigger] cands@[q]).3 == lowest implies exists|p: int|
                    0 <= p < sel@.len() && ((#[trigger] sel@[p]).0 == cands@[q].0 || sel@[p].1
                        == cands@[q].1 || sel@[p].1 == cands@[q].2 || sel@[p].2 == cands@[q].1
                        || sel@[p].2 == cands@[q].2) by {
                    if q < i2 - 1 {
                        let p = choose|p: int|
                            0 <= p < pre_sel.len() && ((#[trigger] pre_sel[p]).0 == cands@[q].0
                                || pre_sel[p].1 == cands@[q].1 || pre_sel[p].1 == cands@[q].2
                                || pre_sel[p].2 == cands@[q].1 || pre_sel[p].2 == cands@[q].2);
                        assert(sel@[p] == pre_sel[p]);
                    } else {
                        if pushed {
                            assert(sel@[sel@.len() - 1].0 == cands@[q].0);
                        } else {
                            let x = if pre_vis.contains(a) {
                                a
                            } else {
                                b
                            };
                            assert(pre_vis.contains(x));
                            let p = choose|p: int|
                                0 <= p < pre_sel.len() && ((#[trigger] pre_sel[p]).1 == x
                                    || pre_sel[p].2 == x);
                            assert(sel@[p] == pre_sel[p]);
                        }
                    }
                }
            }
        }
        proof {
            let q = choose|q: int| 0 <= q < cands@.len() && (#[trigger] cands@[q]).3 == lowest;
            assert(sel@.len() > 0);
            assert(self.is_contractible(cands@[q].0));
            assert(exists|e2: usize| old(self).is_contractible(e2));
            assert forall|e2: usize, rk2: int|
                self.is_contractible(e2) && #[trigger] contraction_rank_is(
                    self.nodes(),
                    self.edges()[e2],
                    rk2,
                ) implies lowest <= rk2 by {
                let p0 = choose|p: int| 0 <= p < list@.len() && (#[trigger] list@[p]).0 == e2;
                let q2 = choose|q2: int|
                    0 <= q2 < cands@.len() && (#[trigger] cands@[q2]).0 == e2;
                lemma_rank_unique(self.nodes(), self.edges()[e2], rk2, cands@[q2].3 as int);
            }
            assert forall|e2: usize, rk2: int|
                self.is_contractible(e2) && #[trigger] contraction_rank_is(
                    self.nodes(),
                    self.edges()[e2],
                    rk2,
                ) && rk2 == lowest as int implies exists|p: int|
                0 <= p < sel@.len() && ((#[trigger] sel@[p]).0 == e2 || sel@[p].1 == self.edges()[
                    e2
                ].0 || sel@[p].1 == self.edges()[e2].1 || sel@[p].2 == self.edges()[e2].0 || sel@[
                    p
                ].2 == self.edges()[e2].1) by {
                let p0 = choose|p: int| 0 <= p < list@.len() && (#[trigger] list@[p]).0 == e2;
                let q2 = choose|q2: int|
                    0 <= q2 < cands@.len() && (#[trigger] cands@[q2]).0 == e2;
                lemma_rank_unique(self.nodes(), self.edges()[e2], rk2, cands@[q2].3 as int);
                assert(cands@[q2].3 == lowest);
                let p = choose|p: int|
                    0 <= p < sel@.len() && ((#[trigger] sel@[p]).0 == cands@[q2].0 || sel@[p].1
                        == cands@[q2].1 || sel@[p].1 == cands@[q2].2 || sel@[p].2 == cands@[q2].1
                        || sel@[p].2 == cands@[q2].2);
                assert(cands@[q2].1 == self.edges()[e2].0 && cands@[q2].2 == self.edges()[e2].1);
            }
            assert(round_choice(*old(self), sel@, lowest as int));
        }
        let ghost round_witness_rank: int = lowest as int;
        let ghost round_witness: Seq<(usize, usize, usize)> = sel@;

        // fuse the selected edges
        let ghost n0 = self.nodes().dom().len();
        let ghost e0 = self.edges().dom().len();
        let mut j: usize = 0;
        while j < sel.len()
            invariant
                self.wf(),
                j <= sel@.len(),
                round_choice(*old(self), round_witness, round_witness_rank),
                round_witness.len() == sel@.len(),
                fuse_reach_n(old(self).nodes(), self.nodes(), j as nat),
                self.nodes().dom().len() + j == n0,
                self.edges().dom().len() + j <= e0,
                n0 < 0xFFFF_FFFF,
                e0 < 0xFFFF_FFFF,
                forall|p: int|
                    j <= p < sel@.len() ==> {
                        let (e, a, b) = #[trigger] sel@[p];
                        &&& self.edges().dom().contains(e)
                        &&& self.edges()[e].0 == a
                        &&& self.edges()[e].1 == b
                    },
                forall|p1: int, p2: int|
                    0 <= p1 < p2 < sel@.len() ==> (#[trigger] sel@[p1]).1 != (
                    #[trigger] sel@[p2]).1 && sel@[p1].1 != sel@[p2].2 && sel@[p1].2 != sel@[p2].1
                        && sel@[p1].2 != sel@[p2].2,
            decreases sel@.len() - j,
        {
            let ghost pre = self.edges();
            let ghost pren = *self;
            let e = sel[j].0;
            self.contract_edge(e);
            proof {
                assert(fuse_step(pren.nodes(), self.nodes())) by {
                    let (c, b) = choose|c: usize, b: Box<TensorContraction>|
                        #![auto]
                        {
                            &&& b.lhs == pren.nodes()[pren.edges()[e].0]
                            &&& b.rhs == pren.nodes()[pren.edges()[e].1]
                            &&& b.wf()
                            &&& self.nodes() == pren.nodes().remove(pren.edges()[e].0).remove(
                                pren.edges()[e].1,
                            ).insert(c, TensorKind::Contraction(b))
                            &&& rewired_edges_ok(
                                pren.edges(),
                                self.edges(),
                                pren.edges()[e].0,
                                pren.edges()[e].1,
                                c,
                            )
                        };
                    let s0 = pren.edges()[e].0;
                    let t0 = pren.edges()[e].1;
                    assert(pren.nodes().dom().contains(s0) && pren.nodes().dom().contains(t0)
                        && s0 != t0);
                }
                lemma_fuse_append(old(self).nodes(), pren.nodes(), self.nodes(), j as nat);
                assert forall|p: int|
                    j + 1 <= p < sel@.len() implies {
                    let (e2, a2, b2) = #[trigger] sel@[p];
                    &&& self.edges().dom().contains(e2)
                    &&& self.edges()[e2].0 == a2
                    &&& self.edges()[e2].1 == b2
                } by {
                    assert(edge_untouched(pre, sel@[p].0, pre[sel@[j as int].0].0, pre[sel@[
                        j as int].0].1));
                }
            }
            j = j + 1;
        }
        sel.len()
    }

    /// Contracts the network to a collection of edge-free tensors: rounds
    /// of lowest-rank fusions run until no edge is contractible, and the
    /// surviving nodes are drained in index order.
    pub fn contract(self) -> (r: Vec<TensorKind>)
        requires
            self.wf(),
            self.nodes().dom().len() < 0xFFFF_FFFF,
            self.edges().dom().len() < 0xFFFF_FFFF,
        ensures
            forall|k: int| 0 <= k < r@.len() ==> (#[trigger] r@[k]).wf(),
            // the result is exactly the node values of a network reached
            // from the input by fusion steps and left with no contractible
            // edge
            exists|g: StableDiGraph<TensorKind, Span>, n: nat| #[trigger] drained_from(
                self.nodes(),
                r@,
                g,
                n,
            ),
            // a network with no contractible edge is already in normal
            // form: its node values come back unchanged
            (forall|e: usize| !self.is_contractible(e)) ==> same_node_values(r@, self.nodes()),
    {
        let mut this = self;
        let ghost start = self;
        let ghost mut steps: nat = 0;
        loop
            invariant
                this.wf(),
                this.nodes().dom().len() < 0xFFFF_FFFF,
                this.edges().dom().len() < 0xFFFF_FFFF,
                fuse_reach_n(start.nodes(), this.nodes(), steps),
                (forall|e: usize| !start.is_contractible(e)) ==> this == start,
            ensures
                this.wf(),
                fuse_reach_n(start.nodes(), this.nodes(), steps),
                forall|e: usize| !this.is_contractible(e),
                (forall|e: usize| !start.is_contractible(e)) ==> this == start,
            decreases this.nodes().dom().len(),
        {
            let ghost pre_round = this;
            let ghost pre_steps = steps;
            let fused = this.contract_round();
            proof {
                lemma_fuse_trans(start.nodes(), pre_round.nodes(), this.nodes(), steps,
                fused as nat);
                steps = steps + fused as nat;
            }
            if fused == 0 {
                break;
            }
            proof {
                if forall|e: usize| !start.is_contractible(e) {
                    assert(false);
                }
            }
        }
        let ghost gfin = this.graph;
        let ghost final_steps = steps;
        let ids = graph_node_ids(&this.graph);
        let ghost orig = this.nodes();
        proof {
            assert(start == self);
            if forall|e: usize| !self.is_contractible(e) {
                assert(this == start);
                assert(orig == self.nodes());
            }
            assert(ids@.len() == orig.dom().len());
        }
        let mut out: Vec<TensorKind> = Vec::new();
        let mut i: usize = 0;
        while i < ids.len()
            invariant
                i <= ids@.len(),
                out@.len() == i,
                forall|p1: int, p2: int| 0 <= p1 < p2 < ids@.len() ==> ids@[p1] < ids@[p2],
                forall|p: int|
                    i <= p < ids@.len() ==> this.nodes().dom().contains(#[trigger] ids@[p])
                        && ids@[p] < 0xFFFF_FFFF && this.nodes()[ids@[p]] == orig[ids@[p]]
                        && orig[ids@[p]].wf(),
                forall|k: int| 0 <= k < out@.len() ==> (#[trigger] out@[k]).wf(),
                forall|k: int| 0 <= k < out@.len() ==> #[trigger] out@[k] == orig[ids@[k]],
                forall|p: int|
                    0 <= p < ids@.len() ==> orig.dom().contains(#[trigger] ids@[p]),
            decreases ids@.len() - i,
        {
            let kind = graph_remove_node(&mut this.graph, ids[i]);
            out.push(kind);
            i = i + 1;
        }
        proof {
            assert(out@.len() == orig.dom().len());
            assert(ids@.no_duplicates());
            assert forall|k: int|
                0 <= k < ids@.len() implies orig.dom().contains(#[trigger] ids@[k]) && out@[k]
                == orig[ids@[k]] by {
                assert(orig.dom().contains(ids@[k]));
                assert(out@[k] == orig[ids@[k]]);
            }
            assert forall|n: usize| #[trigger] orig.dom().contains(n) implies ids@.contains(n) by {
                let k = choose|k: int| 0 <= k < ids@.len() && #[trigger] ids@[k] == n;
            }
            assert(same_node_values(out@, orig));
            assert(orig == net_nodes(gfin));
            assert(graph_ok(gfin));
            assert forall|e: usize| !(TensorNetwork { graph: gfin }).is_contractible(e) by {}
            assert(drained_from(start.nodes(), out@, gfin, final_steps));
            if forall|e: usize| !self.is_contractible(e) {
                assert(orig == self.nodes());
                assert(same_node_values(out@, self.nodes()));
            }
        }
        out
    }
}

/// The strictly ascending incident edge ids enumerate distinct members of
/// the removed set, so the removed set is at least that large.
proof fn inc_ids_card(inc_ids: Seq<usize>, removed: Set<usize>)
    requires
        crate::span::strictly_ascending(inc_ids),
        removed.finite(),
        forall|p: int| 0 <= p < inc_ids.len() ==> removed.contains(#[trigger] inc_ids[p]),
    ensures
        removed.len() >= inc_ids.len(),
{
    assert(inc_ids.no_duplicates());
    inc_ids.unique_seq_to_set();
    assert forall|l: usize| inc_ids.to_set().contains(l) implies removed.contains(l) by {}
    vstd::set_lib::lemma_len_subset(inc_ids.to_set(), removed);
}

/// Holds when some entry of a gathered connection list carries the given
/// key.
pub open spec fn has_key(s: Seq<(usize, Span)>, key: usize) -> bool {
    exists|p: int| 0 <= p < s.len() && (#[trigger] s[p]).0 == key
}

/// Holds when some entry of a gathered connection list carries the given
/// key with a span containing the given lane.
pub open spec fn link_has(s: Seq<(usize, Span)>, key: usize, l: usize) -> bool {
    exists|p: int| 0 <= p < s.len() && (#[trigger] s[p]).0 == key && s[p].1@.contains(l)
}

/// Folds a connection into a gathered list: a key already listed has the
/// new span joined into its entry, a new key is appended.  Keys stay
/// distinct; the recorded lanes of the key grow by exactly the new span's
/// lanes, and every other key's lanes are untouched.
fn merge_link(links: &mut Vec<(usize, Span)>, n: usize, w: Span)
    requires
        w.wf(),
        w@.len() > 0,
        forall|p: int|
            0 <= p < old(links)@.len() ==> (#[trigger] old(links)@[p]).1.wf()
                && old(links)@[p].1@.len() > 0,
        forall|p1: int, p2: int|
            0 <= p1 < p2 < old(links)@.len() ==> old(links)@[p1].0 != old(links)@[p2].0,
    ensures
        final(links)@.len() <= old(links)@.len() + 1,
        forall|p: int|
            0 <= p < final(links)@.len() ==> (#[trigger] final(links)@[p]).1.wf()
                && final(links)@[p].1@.len() > 0,
        forall|p1: int, p2: int|
            0 <= p1 < p2 < final(links)@.len() ==> final(links)@[p1].0 != final(links)@[p2].0,
        forall|p: int|
            0 <= p < final(links)@.len() ==> ((#[trigger] final(links)@[p]).0 == n || exists|q: int|
                0 <= q < old(links)@.len() && (#[trigger] old(links)@[q]).0 == final(links)@[p].0),
        forall|key: usize| #[trigger]
            has_key(final(links)@, key) <==> (has_key(old(links)@, key) || key == n),
        forall|l: usize| #[trigger]
            link_has(final(links)@, n, l) <==> (link_has(old(links)@, n, l) || w@.contains(l)),
        forall|key: usize, l: usize|
            key != n ==> (#[trigger] link_has(final(links)@, key, l) <==> link_has(
                old(links)@,
                key,
                l,
            )),
    decreases old(links)@.len(),
{
    let mut i: usize = 0;
    while i < links.len()
        invariant
            i <= links@.len(),
            links@ == old(links)@,
            w.wf(),
            w@.len() > 0,
            forall|p: int| 0 <= p < i ==> (#[trigger] links@[p]).0 != n,
            forall|p: int|
                0 <= p < links@.len() ==> (#[trigger] links@[p]).1.wf() && links@[p].1@.len() > 0,
            forall|p1: int, p2: int| 0 <= p1 < p2 < links@.len() ==> links@[p1].0 != links@[p2].0,
        decreases links@.len() - i,
    {
        if links[i].0 == n {
            proof {
                assert(links@[i as int].1.wf() && links@[i as int].1@.len() > 0);
            }
            let merged = links[i].1.full_join(&w);
            let ghost pre = links@;
            links.set(i, (n, merged));
            proof {
                assert forall|p: int|
                    0 <= p < links@.len() implies ((#[trigger] links@[p]).0 == n || exists|q: int|
                    0 <= q < pre.len() && (#[trigger] pre[q]).0 == links@[p].0) by {
                    if p != i {
                        assert(pre[p].0 == links@[p].0);
                    }
                }
                assert forall|key: usize| #[trigger]
                    has_key(links@, key) <==> (has_key(pre, key) || key == n) by {
                    if has_key(links@, key) {
                        let p = choose|p: int|
                            0 <= p < links@.len() && (#[trigger] links@[p]).0 == key;
                        if p != i {
                            assert(pre[p].0 == key);
                        }
                    }
                    if has_key(pre, key) {
                        let p = choose|p: int| 0 <= p < pre.len() && (#[trigger] pre[p]).0 == key;
                        if p != i {
                            assert(links@[p].0 == key);
                        } else {
                            assert(links@[i as int].0 == n && key == n);
                        }
                    }
                    if key == n {
                        assert(links@[i as int].0 == n);
                    }
                }
                assert forall|l: usize| #[trigger]
                    link_has(links@, n, l) <==> (link_has(pre, n, l) || w@.contains(l)) by {
                    if link_has(links@, n, l) {
                        let p = choose|p: int|
                            0 <= p < links@.len() && (#[trigger] links@[p]).0 == n
                                && links@[p].1@.contains(l);
                        assert(p == i) by {
                            if p != i {
                                assert(pre[p].0 == n);
                                assert(pre[i as int].0 == n);
                            }
                        }
                    }
                    if link_has(pre, n, l) {
                        let p = choose|p: int|
                            0 <= p < pre.len() && (#[trigger] pre[p]).0 == n && pre[p].1@.contains(
                                l,
                            );
                        assert(p == i) by {
                            if p != i {
                                assert(pre[p].0 == n && pre[i as int].0 == n);
                            }
                        }
                        assert(links@[i as int].1@.contains(l));
                    }
                    if w@.contains(l) {
                        assert(links@[i as int].1@.contains(l));
                    }
                }
                assert forall|key: usize, l: usize|
                    key != n implies (#[trigger] link_has(links@, key, l) <==> link_has(
                    pre,
                    key,
                    l,
                )) by {
                    if link_has(links@, key, l) {
                        let p = choose|p: int|
                            0 <= p < links@.len() && (#[trigger] links@[p]).0 == key
                                && links@[p].1@.contains(l);
                        assert(p != i);
                        assert(pre[p].0 == key && pre[p].1@.contains(l));
                    }
                    if link_has(pre, key, l) {
                        let p = choose|p: int|
                            0 <= p < pre.len() && (#[trigger] pre[p]).0 == key && pre[p].1@.contains(
                                l,
                            );
                        assert(p != i);
                        assert(links@[p].0 == key && links@[p].1@.contains(l));
                    }
                }
            }
            return ;
        }
        i = i + 1;
    }
    let ghost pre = links@;
    links.push((n, w));
    proof {
        assert(links@[links@.len() - 1] == (n, w));
        assert forall|p: int|
            0 <= p < links@.len() implies ((#[trigger] links@[p]).0 == n || exists|q: int|
            0 <= q < pre.len() && (#[trigger] pre[q]).0 == links@[p].0) by {
            if p < pre.len() {
                assert(pre[p].0 == links@[p].0);
            }
        }
        assert(!has_key(pre, n)) by {
            if has_key(pre, n) {
                let p = choose|p: int| 0 <= p < pre.len() && (#[trigger] pre[p]).0 == n;
            }
        }
        assert forall|key: usize| #[trigger]
            has_key(links@, key) <==> (has_key(pre, key) || key == n) by {
            if has_key(links@, key) {
                let p = choose|p: int| 0 <= p < links@.len() && (#[trigger] links@[p]).0 == key;
                if p < pre.len() {
                    assert(pre[p].0 == key);
                }
            }
            if has_key(pre, key) {
                let p = choose|p: int| 0 <= p < pre.len() && (#[trigger] pre[p]).0 == key;
                assert(links@[p].0 == key);
            }
        }
        assert forall|l: usize| #[trigger]
            link_has(links@, n, l) <==> (link_has(pre, n, l) || w@.contains(l)) by {
            if link_has(links@, n, l) {
                let p = choose|p: int|
                    0 <= p < links@.len() && (#[trigger] links@[p]).0 == n && links@[p].1@.contains(
                        l,
                    );
                if p < pre.len() {
                    assert(pre[p].0 == n);
                    assert(false);
                }
            }
            if link_has(pre, n, l) {
                let p = choose|p: int|
                    0 <= p < pre.len() && (#[trigger] pre[p]).0 == n && pre[p].1@.contains(l);
                assert(false);
            }
            if w@.contains(l) {
                assert(links@[links@.len() - 1].0 == n && links@[links@.len() - 1].1@.contains(l));
            }
        }
        assert forall|key: usize, l: usize|
            key != n implies (#[trigger] link_has(links@, key, l) <==> link_has(pre, key, l)) by {
            if link_has(links@, key, l) {
                let p = choose|p: int|
                    0 <= p < links@.len() && (#[trigger] links@[p]).0 == key && links@[p].1@.contains(
                        l,
                    );
                assert(p < pre.len());
                assert(pre[p].0 == key && pre[p].1@.contains(l));
            }
            if link_has(pre, key, l) {
                let p = choose|p: int|
                    0 <= p < pre.len() && (#[trigger] pre[p]).0 == key && pre[p].1@.contains(l);
                assert(links@[p].0 == key && links@[p].1@.contains(l));
            }
        }
    }
}

} // verus!
