//! The FHE computation graph: operation nodes and the data-flow DAG that
//! connects them, stored in a `petgraph` directed graph.

use vstd::prelude::*;

verus! {

/// `petgraph::graph::Graph`, known to Verus as an opaque type; what the
/// library reads of a graph goes through [`pet_nodes`] and [`pet_edges`].
#[verifier::external_type_specification]
#[verifier::external_body]
#[verifier::reject_recursive_types(N)]
#[verifier::reject_recursive_types(E)]
#[verifier::reject_recursive_types(Ty)]
#[verifier::reject_recursive_types(Ix)]
pub struct ExPetGraph<N, E, Ty, Ix>(petgraph::graph::Graph<N, E, Ty, Ix>);

/// `petgraph::Directed`, the edge-type marker of directed graphs, known to
/// Verus as an opaque type.
#[verifier::external_type_specification]
#[verifier::external_body]
pub struct ExPetDirected(petgraph::Directed);

/// Metadata carried by every ciphertext-valued node.
#[derive(Clone, Copy, Debug, PartialEq, Eq, Structural)]
pub struct CtMeta {
    /// FHE level (number of remaining rescale budgets).
    pub level: Option<usize>,
    /// Current scale factor, as the IEEE-754 bit pattern of an `f64`.
    pub scale_bits: Option<u64>,
}

impl CtMeta {
    /// Metadata with neither level nor scale known.
    pub fn unknown() -> (r: Self)
        ensures
            r.level is None,
            r.scale_bits is None,
    {
        CtMeta { level: None, scale_bits: None }
    }
}

/// One FHE operation of a computation graph.
#[derive(Clone, Debug, PartialEq)]
pub enum IrNode {
    /// Input ciphertext (a named program input).
    InputCt { name: String, meta: CtMeta },
    /// Input plaintext constant.
    InputPt { name: String },
    /// Output node (marks a value as a program result).
    Output { name: String },
    /// Ciphertext + ciphertext addition.
    AddCtCt { meta: CtMeta },
    /// Ciphertext + plaintext addition.
    AddCtPt { meta: CtMeta },
    /// Ciphertext - ciphertext subtraction.
    SubCtCt { meta: CtMeta },
    /// Ciphertext negation.
    NegCt { meta: CtMeta },
    /// Ciphertext × ciphertext multiplication (before relinearization).
    MulCtCt { meta: CtMeta },
    /// Ciphertext × plaintext multiplication.
    MulCtPt { meta: CtMeta },
    /// Relinearization (degree 2 back to degree 1).
    Relinearize { meta: CtMeta },
    /// Rescale (drop one RNS limb, divide the scale by one prime).
    Rescale { meta: CtMeta },
    /// Modulus switch (drop levels without adjusting the scale).
    ModSwitch { target_level: usize, meta: CtMeta },
    /// Slot rotation by `step` positions.
    Rotate { step: i32, meta: CtMeta },
    /// Complex conjugation of all slots.
    Conjugate { meta: CtMeta },
}

impl IrNode {
    /// The metadata of the node's output when it produces a ciphertext.
    pub open spec fn meta_of(self) -> Option<CtMeta> {
        match self {
            IrNode::InputCt { meta, .. } => Some(meta),
            IrNode::InputPt { .. } => None,
            IrNode::Output { .. } => None,
            IrNode::AddCtCt { meta } => Some(meta),
            IrNode::AddCtPt { meta } => Some(meta),
            IrNode::SubCtCt { meta } => Some(meta),
            IrNode::NegCt { meta } => Some(meta),
            IrNode::MulCtCt { meta } => Some(meta),
            IrNode::MulCtPt { meta } => Some(meta),
            IrNode::Relinearize { meta } => Some(meta),
            IrNode::Rescale { meta } => Some(meta),
            IrNode::ModSwitch { meta, .. } => Some(meta),
            IrNode::Rotate { meta, .. } => Some(meta),
            IrNode::Conjugate { meta } => Some(meta),
        }
    }

    /// The name of the node's operation: the variant's name.
    pub open spec fn op_label(self) -> Seq<char> {
        match self {
            IrNode::InputCt { .. } => "InputCt"@,
            IrNode::InputPt { .. } => "InputPt"@,
            IrNode::Output { .. } => "Output"@,
            IrNode::AddCtCt { .. } => "AddCtCt"@,
            IrNode::AddCtPt { .. } => "AddCtPt"@,
            IrNode::SubCtCt { .. } => "SubCtCt"@,
            IrNode::NegCt { .. } => "NegCt"@,
            IrNode::MulCtCt { .. } => "MulCtCt"@,
            IrNode::MulCtPt { .. } => "MulCtPt"@,
            IrNode::Relinearize { .. } => "Relinearize"@,
            IrNode::Rescale { .. } => "Rescale"@,
            IrNode::ModSwitch { .. } => "ModSwitch"@,
            IrNode::Rotate { .. } => "Rotate"@,
            IrNode::Conjugate { .. } => "Conjugate"@,
        }
    }

    /// The output metadata of this node, if it produces a ciphertext.
    pub fn ct_meta(&self) -> (r: Option<&CtMeta>)
        ensures
            match self.meta_of() {
                Some(m) => r matches Some(x) && *x == m,
                None => r is None,
            },
    {
        match self {
            IrNode::InputCt { meta, .. } => Some(meta),
            IrNode::InputPt { .. } => None,
            IrNode::Output { .. } => None,
            IrNode::AddCtCt { meta } => Some(meta),
            IrNode::AddCtPt { meta } => Some(meta),
            IrNode::SubCtCt { meta } => Some(meta),
            IrNode::NegCt { meta } => Some(meta),
            IrNode::MulCtCt { meta } => Some(meta),
            IrNode::MulCtPt { meta } => Some(meta),
            IrNode::Relinearize { meta } => Some(meta),
            IrNode::Rescale { meta } => Some(meta),
            IrNode::ModSwitch { meta, .. } => Some(meta),
            IrNode::Rotate { meta, .. } => Some(meta),
            IrNode::Conjugate { meta } => Some(meta),
        }
    }

    /// Human-readable operation name.
    pub fn op_name(&self) -> (r: &'static str)
        ensures
            r@ == self.op_label(),
    {
        match self {
            IrNode::InputCt { .. } => "InputCt",
            IrNode::InputPt { .. } => "InputPt",
            IrNode::Output { .. } => "Output",
            IrNode::AddCtCt { .. } => "AddCtCt",
            IrNode::AddCtPt { .. } => "AddCtPt",
            IrNode::SubCtCt { .. } => "SubCtCt",
            IrNode::NegCt { .. } => "NegCt",
            IrNode::MulCtCt { .. } => "MulCtCt",
            IrNode::MulCtPt { .. } => "MulCtPt",
            IrNode::Relinearize { .. } => "Relinearize",
            IrNode::Rescale { .. } => "Rescale",
            IrNode::ModSwitch { .. } => "ModSwitch",
            IrNode::Rotate { .. } => "Rotate",
            IrNode::Conjugate { .. } => "Conjugate",
        }
    }
}

/// The nodes of a `petgraph` graph of IR nodes, by index.
pub uninterp spec fn pet_nodes(g: petgraph::graph::DiGraph<IrNode, ()>) -> Seq<IrNode>;

/// The edges of a `petgraph` graph of IR nodes as `(source, target)` index
/// pairs, in the order they were added.
pub uninterp spec fn pet_edges(g: petgraph::graph::DiGraph<IrNode, ()>) -> Seq<(usize, usize)>;

/// Calls `petgraph::graph::Graph::new`: a graph with no nodes and no edges.
#[verifier::external_body]
fn pet_new() -> (g: petgraph::graph::DiGraph<IrNode, ()>)
    ensures
        pet_nodes(g) == Seq::<IrNode>::empty(),
        pet_edges(g) == Seq::<(usize, usize)>::empty(),
{
    petgraph::graph::DiGraph::new()
}

/// Calls `petgraph::graph::Graph::add_node`, which pushes the node and returns
/// the previous node count as its index; it asserts that this index is not
/// `u32::MAX`.
#[verifier::external_body]
fn pet_add_node(g: &mut petgraph::graph::DiGraph<IrNode, ()>, node: IrNode) -> (r: usize)
    requires
        pet_nodes(*old(g)).len() < u32::MAX,
    ensures
        r == pet_nodes(*old(g)).len(),
        pet_nodes(*final(g)) == pet_nodes(*old(g)).push(node),
        pet_edges(*final(g)) == pet_edges(*old(g)),
{
    g.add_node(node).index()
}

/// Calls `petgraph::graph::Graph::add_edge`, which appends the edge; it
/// panics when either endpoint is not a node and asserts that the new edge's
/// index is not `u32::MAX`.
#[verifier::external_body]
fn pet_add_edge(g: &mut petgraph::graph::DiGraph<IrNode, ()>, from: usize, to: usize)
    requires
        from < pet_nodes(*old(g)).len(),
        to < pet_nodes(*old(g)).len(),
        pet_edges(*old(g)).len() < u32::MAX,
    ensures
        pet_nodes(*final(g)) == pet_nodes(*old(g)),
        pet_edges(*final(g)) == pet_edges(*old(g)).push((from, to)),
{
    g.add_edge(petgraph::graph::NodeIndex::new(from), petgraph::graph::NodeIndex::new(to), ());
}

/// Calls `petgraph::graph::Graph::node_count`: the number of nodes.
#[verifier::external_body]
fn pet_node_count(g: &petgraph::graph::DiGraph<IrNode, ()>) -> (r: usize)
    ensures
        r == pet_nodes(*g).len(),
{
    g.node_count()
}

/// Calls `petgraph::graph::Graph::edge_count`: the number of edges.
#[verifier::external_body]
fn pet_edge_count(g: &petgraph::graph::DiGraph<IrNode, ()>) -> (r: usize)
    ensures
        r == pet_edges(*g).len(),
{
    g.edge_count()
}

/// Indexes a `petgraph` graph by node (`Index<NodeIndex>`): the weight of
/// node `i`; the indexing panics for a missing node.
#[verifier::external_body]
fn pet_node(g: &petgraph::graph::DiGraph<IrNode, ()>, i: usize) -> (r: &IrNode)
    requires
        i < pet_nodes(*g).len(),
    ensures
        *r == pet_nodes(*g)[i as int],
{
    &g[petgraph::graph::NodeIndex::new(i)]
}

/// Indexes a `petgraph` graph mutably by node (`IndexMut<NodeIndex>`): the
/// weight of node `i`, which the caller may overwrite; the edges stay as they
/// are. The indexing panics for a missing node.
#[verifier::external_body]
fn pet_node_mut(g: &mut petgraph::graph::DiGraph<IrNode, ()>, i: usize) -> (r: &mut IrNode)
    requires
        i < pet_nodes(*old(g)).len(),
    ensures
        *r == pet_nodes(*old(g))[i as int],
        pet_nodes(*final(g)) == pet_nodes(*old(g)).update(i as int, *final(r)),
        pet_edges(*final(g)) == pet_edges(*old(g)),
{
    &mut g[petgraph::graph::NodeIndex::new(i)]
}

/// The sources of the edges into node `i`, in the order those edges were added.
pub open spec fn sources_into(edges: Seq<(usize, usize)>, i: usize) -> Seq<usize>
    decreases edges.len(),
{
    if edges.len() == 0 {
        Seq::empty()
    } else {
        let earlier = sources_into(edges.drop_last(), i);
        if edges.last().1 == i {
            earlier.push(edges.last().0)
        } else {
            earlier
        }
    }
}

/// Calls `petgraph::graph::Graph::neighbors_directed(i, Incoming)` and
/// collects the indices. Its documentation lists, for a directed graph, the
/// sources of all edges into `i`, most recently added edge first.
#[verifier::external_body]
fn pet_predecessors(g: &petgraph::graph::DiGraph<IrNode, ()>, i: usize) -> (r: Vec<usize>)
    requires
        i < pet_nodes(*g).len(),
    ensures
        r@ == sources_into(pet_edges(*g), i).reverse(),
{
    g.neighbors_directed(petgraph::graph::NodeIndex::new(i), petgraph::Direction::Incoming).map(
        |n| n.index(),
    ).collect()
}

/// `order` lists each of the nodes `0..n` once, and every edge goes from an
/// earlier entry to a later one.
pub open spec fn is_topological_order(n: nat, edges: Seq<(usize, usize)>, order: Seq<usize>) -> bool {
    &&& order.len() == n
    &&& forall|i: int| 0 <= i < n ==> (#[trigger] order[i] as nat) < n
    &&& forall|i: int, j: int| 0 <= i < j < n ==> #[trigger] order[i] != #[trigger] order[j]
    &&& forall|e: int| 0 <= e < edges.len() ==> edge_goes_forward(n, order, #[trigger] edges[e])
}

/// Some entry of `order` before position `n` lists the edge's source, and a
/// later one its target.
pub open spec fn edge_goes_forward(n: nat, order: Seq<usize>, edge: (usize, usize)) -> bool {
    exists|i: int, j: int|
        #![trigger order[i], order[j]]
        0 <= i < j < n && order[i] == edge.0 && order[j] == edge.1
}

/// The order that `petgraph::algo::toposort` returns for a graph with `n`
/// nodes and the given edge list, when it returns one.
pub uninterp spec fn pet_toposort(n: nat, edges: Seq<(usize, usize)>) -> Seq<usize>;

/// Calls `petgraph::algo::toposort` and gives the node indices of its order.
///
/// Its documentation: for an acyclic graph it returns the nodes in
/// topological order (each before its successors), and otherwise a `Cycle`
/// error, self loops counting as cycles. Its source reads only the node count
/// and the edge lists, hence the name over those two.
#[verifier::external_body]
fn pet_topological_order(g: &petgraph::graph::DiGraph<IrNode, ()>) -> (r: Option<Vec<usize>>)
    ensures
        match r {
            Some(order) => {
                &&& order@ == pet_toposort(pet_nodes(*g).len(), pet_edges(*g))
                &&& is_topological_order(pet_nodes(*g).len(), pet_edges(*g), order@)
            },
            None => forall|order: Seq<usize>|
                !is_topological_order(pet_nodes(*g).len(), pet_edges(*g), order),
        },
{
    match petgraph::algo::toposort(g, None) {
        Ok(order) => Some(order.into_iter().map(|n| n.index()).collect()),
        Err(_) => None,
    }
}

/// Identifies a node of an [`IrGraph`]: its position in insertion order.
#[derive(Clone, Copy, Debug, PartialEq, Eq, Hash, Structural)]
pub struct NodeIndex(pub usize);

impl NodeIndex {
    /// The index of the `x`-th node added.
    pub fn new(x: usize) -> (r: Self)
        ensures
            r.0 == x,
    {
        NodeIndex(x)
    }

    /// The position of the node in insertion order.
    pub fn index(self) -> (r: usize)
        ensures
            r == self.0,
    {
        self.0
    }
}

/// Errors of graph queries and passes.
#[derive(Clone, Debug)]
pub enum IrError {
    /// The graph contains a cycle (FHE programs must be acyclic).
    CycleDetected,
    /// No node has this index.
    NodeNotFound(NodeIndex),
    /// A type error, with its description.
    TypeError(String),
    /// A pass failed.
    PassError { pass: &'static str, message: String },
}

/// A directed acyclic graph of FHE operations: an edge from node A to node B
/// means "B consumes the output of A".
pub struct IrGraph {
    /// The underlying `petgraph` directed graph.
    pub graph: petgraph::graph::DiGraph<IrNode, ()>,
}

impl IrGraph {
    /// The nodes, by index.
    pub open spec fn nodes(&self) -> Seq<IrNode> {
        pet_nodes(self.graph)
    }

    /// The edges as `(source, target)` pairs, in the order they were added.
    pub open spec fn edges(&self) -> Seq<(usize, usize)> {
        pet_edges(self.graph)
    }

    /// An empty graph.
    pub fn new() -> (r: Self)
        ensures
            r.nodes() == Seq::<IrNode>::empty(),
            r.edges() == Seq::<(usize, usize)>::empty(),
    {
        IrGraph { graph: pet_new() }
    }

    /// Add a node, returning its index (the previous node count).
    pub fn add_node(&mut self, node: IrNode) -> (r: NodeIndex)
        requires
            old(self).nodes().len() < u32::MAX,
        ensures
            r.0 == old(self).nodes().len(),
            final(self).nodes() == old(self).nodes().push(node),
            final(self).edges() == old(self).edges(),
    {
        NodeIndex(pet_add_node(&mut self.graph, node))
    }

    /// Add a data-flow edge from `from` to `to` (`to` uses `from`'s output).
    pub fn add_edge(&mut self, from: NodeIndex, to: NodeIndex)
        requires
            from.0 < old(self).nodes().len(),
            to.0 < old(self).nodes().len(),
            old(self).edges().len() < u32::MAX,
        ensures
            final(self).nodes() == old(self).nodes(),
            final(self).edges() == old(self).edges().push((from.0, to.0)),
    {
        pet_add_edge(&mut self.graph, from.0, to.0);
    }

    /// A topological ordering of the nodes (inputs before their users).
    ///
    /// Fails with `CycleDetected` exactly when the graph has no topological
    /// order, that is, when it has a cycle.
    pub fn topological_order(&self) -> (r: Result<Vec<NodeIndex>, IrError>)
        ensures
            match r {
                Ok(order) => {
                    &&& order@.len() == pet_toposort(self.nodes().len(), self.edges()).len()
                    &&& forall|k: int|
                        0 <= k < order@.len() ==> #[trigger] order@[k].0 == pet_toposort(
                            self.nodes().len(),
                            self.edges(),
                        )[k]
                    &&& is_topological_order(
                        self.nodes().len(),
                        self.edges(),
                        pet_toposort(self.nodes().len(), self.edges()),
                    )
                },
                Err(e) => {
                    &&& e is CycleDetected
                    &&& forall|order: Seq<usize>|
                        !is_topological_order(self.nodes().len(), self.edges(), order)
                },
            },
    {
        match pet_topological_order(&self.graph) {
            Some(order) => {
                let mut out: Vec<NodeIndex> = Vec::new();
                let mut k: usize = 0;
                while k < order.len()
                    invariant
                        k <= order@.len(),
                        out@.len() == k,
                        forall|t: int| 0 <= t < k ==> #[trigger] out@[t].0 == order@[t],
                    decreases order@.len() - k,
                {
                    out.push(NodeIndex(order[k]));
                    k = k + 1;
                }
                Ok(out)
            },
            None => Err(IrError::CycleDetected),
        }
    }

    /// The node at `idx`; `NodeNotFound(idx)` when there is none.
    pub fn node(&self, idx: NodeIndex) -> (r: Result<&IrNode, IrError>)
        ensures
            idx.0 < self.nodes().len() ==> (r matches Ok(n) && *n == self.nodes()[idx.0 as int]),
            idx.0 >= self.nodes().len() ==> (r matches Err(e) && e == IrError::NodeNotFound(idx)),
    {
        if idx.0 < pet_node_count(&self.graph) {
            Ok(pet_node(&self.graph, idx.0))
        } else {
            Err(IrError::NodeNotFound(idx))
        }
    }

    /// The node at `idx`, mutably; `NodeNotFound(idx)` when there is none.
    ///
    /// Writing through the reference replaces that node and nothing else.
    pub fn node_mut(&mut self, idx: NodeIndex) -> (r: Result<&mut IrNode, IrError>)
        ensures
            idx.0 < old(self).nodes().len() ==> (r matches Ok(n) && *n == old(self).nodes()[idx.0 as int]
                && final(self).nodes() == old(self).nodes().update(idx.0 as int, *final(n))
                && final(self).edges() == old(self).edges()),
            idx.0 >= old(self).nodes().len() ==> (r matches Err(e) && e == IrError::NodeNotFound(idx)
                && final(self).nodes() == old(self).nodes() && final(self).edges() == old(self).edges()),
    {
        if idx.0 < pet_node_count(&self.graph) {
            Ok(pet_node_mut(&mut self.graph, idx.0))
        } else {
            Err(IrError::NodeNotFound(idx))
        }
    }

    /// The predecessors (inputs) of `idx`, most recently connected first;
    /// none for a missing node.
    pub fn predecessors(&self, idx: NodeIndex) -> (r: Vec<NodeIndex>)
        ensures
            idx.0 < self.nodes().len() ==> {
                &&& r@.len() == sources_into(self.edges(), idx.0).len()
                &&& forall|k: int|
                    0 <= k < r@.len() ==> #[trigger] r@[k].0 == sources_into(
                        self.edges(),
                        idx.0,
                    ).reverse()[k]
            },
            idx.0 >= self.nodes().len() ==> r@.len() == 0,
    {
        let mut out: Vec<NodeIndex> = Vec::new();
        if idx.0 < pet_node_count(&self.graph) {
            let preds = pet_predecessors(&self.graph, idx.0);
            let mut k: usize = 0;
            while k < preds.len()
                invariant
                    k <= preds@.len(),
                    out@.len() == k,
                    forall|t: int| 0 <= t < k ==> #[trigger] out@[t].0 == preds@[t],
                decreases preds@.len() - k,
            {
                out.push(NodeIndex(preds[k]));
                k = k + 1;
            }
        }
        out
    }

    /// Number of nodes in the graph.
    pub fn node_count(&self) -> (r: usize)
        ensures
            r == self.nodes().len(),
    {
        pet_node_count(&self.graph)
    }

    /// Number of edges in the graph.
    pub fn edge_count(&self) -> (r: usize)
        ensures
            r == self.edges().len(),
    {
        pet_edge_count(&self.graph)
    }
}

impl Default for IrGraph {
    fn default() -> (r: Self)
        ensures
            r.nodes() == Seq::<IrNode>::empty(),
            r.edges() == Seq::<(usize, usize)>::empty(),
    {
        IrGraph::new()
    }
}

/// Every edge goes from an earlier node to a later one, and both exist.
pub open spec fn edges_forward(n: nat, edges: Seq<(usize, usize)>) -> bool {
    forall|e: int| 0 <= e < edges.len() ==> #[trigger] edges[e].0 < edges[e].1 && edges[e].1 < n
}

/// The node that stands for a ciphertext input named `name`.
pub open spec fn is_input_ct(node: IrNode, name: Seq<char>) -> bool {
    node matches IrNode::InputCt { name: s, meta } && s@ == name && meta == unknown_meta()
}

/// The node that stands for a plaintext input named `name`.
pub open spec fn is_input_pt(node: IrNode, name: Seq<char>) -> bool {
    node matches IrNode::InputPt { name: s } && s@ == name
}

/// The node that marks an output named `name`.
pub open spec fn is_output(node: IrNode, name: Seq<char>) -> bool {
    node matches IrNode::Output { name: s } && s@ == name
}

/// Metadata with neither level nor scale known.
pub open spec fn unknown_meta() -> CtMeta {
    CtMeta { level: None, scale_bits: None }
}

/// Fluent construction of [`IrGraph`]s: each operation adds one node, with an
/// edge from each of its operands.
pub struct IrBuilder {
    graph: IrGraph,
}

impl IrBuilder {
    /// The nodes added so far.
    pub closed spec fn nodes(&self) -> Seq<IrNode> {
        self.graph.nodes()
    }

    /// The edges added so far.
    pub closed spec fn edges(&self) -> Seq<(usize, usize)> {
        self.graph.edges()
    }

    /// The builder's graph is acyclic by construction: every edge leads from
    /// an operand to a node added after it.
    pub open spec fn wf(&self) -> bool {
        edges_forward(self.nodes().len(), self.edges())
    }

    /// A builder with an empty graph.
    pub fn new() -> (r: Self)
        ensures
            r.wf(),
            r.nodes() == Seq::<IrNode>::empty(),
            r.edges() == Seq::<(usize, usize)>::empty(),
    {
        IrBuilder { graph: IrGraph::new() }
    }

    /// Add an input ciphertext node.
    pub fn input_ct(&mut self, name: &str) -> (r: NodeIndex)
        requires
            old(self).wf(),
            old(self).nodes().len() < u32::MAX,
        ensures
            final(self).wf(),
            r.0 == old(self).nodes().len(),
            final(self).nodes().len() == old(self).nodes().len() + 1,
            final(self).nodes().drop_last() == old(self).nodes(),
            is_input_ct(final(self).nodes().last(), name@),
            final(self).edges() == old(self).edges(),
    {
        let node = IrNode::InputCt { name: name.to_owned(), meta: CtMeta::unknown() };
        let r = self.graph.add_node(node);
        proof {
            assert(self.nodes().drop_last() =~= old(self).nodes());
        }
        r
    }

    /// Add an input plaintext constant node.
    pub fn input_pt(&mut self, name: &str) -> (r: NodeIndex)
        requires
            old(self).wf(),
            old(self).nodes().len() < u32::MAX,
        ensures
            final(self).wf(),
            r.0 == old(self).nodes().len(),
            final(self).nodes().len() == old(self).nodes().len() + 1,
            final(self).nodes().drop_last() == old(self).nodes(),
            is_input_pt(final(self).nodes().last(), name@),
            final(self).edges() == old(self).edges(),
    {
        let node = IrNode::InputPt { name: name.to_owned() };
        let r = self.graph.add_node(node);
        proof {
            assert(self.nodes().drop_last() =~= old(self).nodes());
        }
        r
    }

    /// Add `node` with an edge from `a` to it.
    fn unary(&mut self, a: NodeIndex, node: IrNode) -> (r: NodeIndex)
        requires
            old(self).wf(),
            a.0 < old(self).nodes().len(),
            old(self).nodes().len() < u32::MAX,
            old(self).edges().len() < u32::MAX,
        ensures
            final(self).wf(),
            r.0 == old(self).nodes().len(),
            final(self).nodes() == old(self).nodes().push(node),
            final(self).edges() == old(self).edges().push((a.0, r.0)),
    {
        let r = self.graph.add_node(node);
        self.graph.add_edge(a, r);
        r
    }

    /// Add `node` with edges from `a` and then from `b` to it.
    fn binary(&mut self, a: NodeIndex, b: NodeIndex, node: IrNode) -> (r: NodeIndex)
        requires
            old(self).wf(),
            a.0 < old(self).nodes().len(),
            b.0 < old(self).nodes().len(),
            old(self).nodes().len() < u32::MAX,
            old(self).edges().len() + 1 < u32::MAX,
        ensures
            final(self).wf(),
            r.0 == old(self).nodes().len(),
            final(self).nodes() == old(self).nodes().push(node),
            final(self).edges() == old(self).edges().push((a.0, r.0)).push((b.0, r.0)),
    {
        let r = self.graph.add_node(node);
        self.graph.add_edge(a, r);
        self.graph.add_edge(b, r);
        r
    }

    /// Add a ciphertext + ciphertext addition of `a` and `b`.
    pub fn add_ct_ct(&mut self, a: NodeIndex, b: NodeIndex) -> (r: NodeIndex)
        requires
            old(self).wf(),
            a.0 < old(self).nodes().len(),
            b.0 < old(self).nodes().len(),
            old(self).nodes().len() < u32::MAX,
            old(self).edges().len() + 1 < u32::MAX,
        ensures
            final(self).wf(),
            r.0 == old(self).nodes().len(),
            final(self).nodes() == old(self).nodes().push(IrNode::AddCtCt { meta: unknown_meta() }),
            final(self).edges() == old(self).edges().push((a.0, r.0)).push((b.0, r.0)),
    {
        self.binary(a, b, IrNode::AddCtCt { meta: CtMeta::unknown() })
    }

    /// Add a ciphertext + plaintext addition of `ct` and `pt`.
    pub fn add_ct_pt(&mut self, ct: NodeIndex, pt: NodeIndex) -> (r: NodeIndex)
        requires
            old(self).wf(),
            ct.0 < old(self).nodes().len(),
            pt.0 < old(self).nodes().len(),
            old(self).nodes().len() < u32::MAX,
            old(self).edges().len() + 1 < u32::MAX,
        ensures
            final(self).wf(),
            r.0 == old(self).nodes().len(),
            final(self).nodes() == old(self).nodes().push(IrNode::AddCtPt { meta: unknown_meta() }),
            final(self).edges() == old(self).edges().push((ct.0, r.0)).push((pt.0, r.0)),
    {
        self.binary(ct, pt, IrNode::AddCtPt { meta: CtMeta::unknown() })
    }

    /// Add a ciphertext × ciphertext multiplication of `a` and `b`.
    pub fn mul_ct_ct(&mut self, a: NodeIndex, b: NodeIndex) -> (r: NodeIndex)
        requires
            old(self).wf(),
            a.0 < old(self).nodes().len(),
            b.0 < old(self).nodes().len(),
            old(self).nodes().len() < u32::MAX,
            old(self).edges().len() + 1 < u32::MAX,
        ensures
            final(self).wf(),
            r.0 == old(self).nodes().len(),
            final(self).nodes() == old(self).nodes().push(IrNode::MulCtCt { meta: unknown_meta() }),
            final(self).edges() == old(self).edges().push((a.0, r.0)).push((b.0, r.0)),
    {
        self.binary(a, b, IrNode::MulCtCt { meta: CtMeta::unknown() })
    }

    /// Add a relinearization of `ct`.
    pub fn relinearize(&mut self, ct: NodeIndex) -> (r: NodeIndex)
        requires
            old(self).wf(),
            ct.0 < old(self).nodes().len(),
            old(self).nodes().len() < u32::MAX,
            old(self).edges().len() < u32::MAX,
        ensures
            final(self).wf(),
            r.0 == old(self).nodes().len(),
            final(self).nodes() == old(self).nodes().push(IrNode::Relinearize { meta: unknown_meta() }),
            final(self).edges() == old(self).edges().push((ct.0, r.0)),
    {
        self.unary(ct, IrNode::Relinearize { meta: CtMeta::unknown() })
    }

    /// Add a rescale of `ct`.
    pub fn rescale(&mut self, ct: NodeIndex) -> (r: NodeIndex)
        requires
            old(self).wf(),
            ct.0 < old(self).nodes().len(),
            old(self).nodes().len() < u32::MAX,
            old(self).edges().len() < u32::MAX,
        ensures
            final(self).wf(),
            r.0 == old(self).nodes().len(),
            final(self).nodes() == old(self).nodes().push(IrNode::Rescale { meta: unknown_meta() }),
            final(self).edges() == old(self).edges().push((ct.0, r.0)),
    {
        self.unary(ct, IrNode::Rescale { meta: CtMeta::unknown() })
    }

    /// Add a rotation of `ct` by `step` slots.
    pub fn rotate(&mut self, ct: NodeIndex, step: i32) -> (r: NodeIndex)
        requires
            old(self).wf(),
            ct.0 < old(self).nodes().len(),
            old(self).nodes().len() < u32::MAX,
            old(self).edges().len() < u32::MAX,
        ensures
            final(self).wf(),
            r.0 == old(self).nodes().len(),
            final(self).nodes() == old(self).nodes().push(
                IrNode::Rotate { step, meta: unknown_meta() },
            ),
            final(self).edges() == old(self).edges().push((ct.0, r.0)),
    {
        self.unary(ct, IrNode::Rotate { step, meta: CtMeta::unknown() })
    }

    /// Mark `ct` as an output named `name`.
    pub fn output(&mut self, ct: NodeIndex, name: &str) -> (r: NodeIndex)
        requires
            old(self).wf(),
            ct.0 < old(self).nodes().len(),
            old(self).nodes().len() < u32::MAX,
            old(self).edges().len() < u32::MAX,
        ensures
            final(self).wf(),
            r.0 == old(self).nodes().len(),
            final(self).nodes().len() == old(self).nodes().len() + 1,
            final(self).nodes().drop_last() == old(self).nodes(),
            is_output(final(self).nodes().last(), name@),
            final(self).edges() == old(self).edges().push((ct.0, r.0)),
    {
        let r = self.unary(ct, IrNode::Output { name: name.to_owned() });
        proof {
            assert(self.nodes().drop_last() =~= old(self).nodes());
        }
        r
    }

    /// The completed graph.
    pub fn build(self) -> (g: IrGraph)
        ensures
            g.nodes() == self.nodes(),
            g.edges() == self.edges(),
    {
        self.graph
    }
}

impl Default for IrBuilder {
    fn default() -> (r: Self)
        ensures
            r.wf(),
            r.nodes() == Seq::<IrNode>::empty(),
            r.edges() == Seq::<(usize, usize)>::empty(),
    {
        IrBuilder::new()
    }
}

/// The nodes `0..n` in index order.
pub open spec fn index_order(n: nat) -> Seq<usize> {
    Seq::new(n, |i: int| i as usize)
}

/// A graph whose edges all lead forward (as every graph an [`IrBuilder`]
/// builds) is acyclic: listing its nodes in index order is a topological
/// order, so `topological_order` succeeds on it.
pub proof fn lemma_forward_graph_is_acyclic(n: nat, edges: Seq<(usize, usize)>)
    requires
        edges_forward(n, edges),
        n <= usize::MAX + 1,
    ensures
        is_topological_order(n, edges, index_order(n)),
{
    let order = index_order(n);
    assert forall|i: int| 0 <= i < n implies (#[trigger] order[i] as nat) == i by {}
    assert forall|i: int, j: int| 0 <= i < j < n implies #[trigger] order[i] != #[trigger] order[j] by {
        assert(order[i] as nat == i && order[j] as nat == j);
    }
    assert forall|e: int| 0 <= e < edges.len() implies edge_goes_forward(
        n,
        order,
        #[trigger] edges[e],
    ) by {
        let i = edges[e].0 as int;
        let j = edges[e].1 as int;
        assert(order[i] == edges[e].0 && order[j] == edges[e].1);
    }
}

} // verus!
