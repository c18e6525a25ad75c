//! Nodes, edges and the formula that owns them, with the mathematical model
//! that the contracts of the queries are stated over.

use crate::error::Error;
use crate::formula::literal::Literal;
use vstd::prelude::*;
use vstd::std_specs::convert::FromSpecImpl;

verus! {

/// The index of a node in the formula that holds it.
#[derive(Copy, Clone, Debug, PartialEq, Eq, Structural)]
pub struct NodeIndex(pub usize);

/// The index of an edge in the formula that holds it.
#[derive(Copy, Clone, Debug, PartialEq, Eq, Structural)]
pub struct EdgeIndex(pub usize);

impl From<usize> for NodeIndex {
    fn from(value: usize) -> (r: NodeIndex) {
        NodeIndex(value)
    }
}

impl FromSpecImpl<usize> for NodeIndex {
    open spec fn obeys_from_spec() -> bool {
        true
    }

    open spec fn from_spec(value: usize) -> NodeIndex {
        NodeIndex(value)
    }
}

impl From<NodeIndex> for usize {
    fn from(value: NodeIndex) -> (r: usize) {
        value.0
    }
}

impl FromSpecImpl<NodeIndex> for usize {
    open spec fn obeys_from_spec() -> bool {
        true
    }

    open spec fn from_spec(value: NodeIndex) -> usize {
        value.0
    }
}

impl From<usize> for EdgeIndex {
    fn from(value: usize) -> (r: EdgeIndex) {
        EdgeIndex(value)
    }
}

impl FromSpecImpl<usize> for EdgeIndex {
    open spec fn obeys_from_spec() -> bool {
        true
    }

    open spec fn from_spec(value: usize) -> EdgeIndex {
        EdgeIndex(value)
    }
}

impl From<EdgeIndex> for usize {
    fn from(value: EdgeIndex) -> (r: usize) {
        value.0
    }
}

impl FromSpecImpl<EdgeIndex> for usize {
    open spec fn obeys_from_spec() -> bool {
        true
    }

    open spec fn from_spec(value: EdgeIndex) -> usize {
        value.0
    }
}

/// The model of a node: its kind and, for an internal node, the indices of
/// its outgoing edges in stored order.
pub enum NodeModel {
    And(Seq<nat>),
    Or(Seq<nat>),
    True,
    False,
}

/// The model of an edge: the node it enters and the literals it propagates.
pub struct EdgeModel {
    pub target: nat,
    pub propagated: Seq<Literal>,
}

/// The model of a formula: a number of variables, and nodes and edges
/// addressed by their position. Node 0 is the root.
pub struct Formula {
    pub n_vars: nat,
    pub nodes: Seq<NodeModel>,
    pub edges: Seq<EdgeModel>,
}

impl NodeModel {
    /// The outgoing edges of a node; a leaf has none.
    pub open spec fn edge_list(self) -> Seq<nat> {
        match self {
            NodeModel::And(es) => es,
            NodeModel::Or(es) => es,
            NodeModel::True => Seq::empty(),
            NodeModel::False => Seq::empty(),
        }
    }
}

impl Formula {
    /// The edges that leave node `n`, in stored order.
    pub open spec fn edge_list(self, n: int) -> Seq<nat> {
        self.nodes[n].edge_list()
    }

    /// The `i`-th edge that leaves node `n`.
    pub open spec fn edge(self, n: int, i: int) -> EdgeModel {
        self.edges[self.edge_list(n)[i] as int]
    }

    /// The node that the `i`-th edge of node `n` enters.
    pub open spec fn child(self, n: int, i: int) -> int {
        self.edge(n, i).target as int
    }

    /// Every index that the formula holds names something that exists, and
    /// every literal speaks of a known variable.
    pub open spec fn well_indexed(self) -> bool {
        &&& self.nodes.len() > 0
        &&& 2 * self.n_vars <= usize::MAX + 1
        &&& forall|n: int, i: int|
            0 <= n < self.nodes.len() && 0 <= i < self.edge_list(n).len() ==> (
            #[trigger] self.edge_list(n)[i]) < self.edges.len()
        &&& forall|e: int|
            0 <= e < self.edges.len() ==> (#[trigger] self.edges[e]).target < self.nodes.len()
        &&& forall|e: int, j: int|
            0 <= e < self.edges.len() && 0 <= j < self.edges[e].propagated.len() ==> (
            #[trigger] self.edges[e].propagated[j]).var() < self.n_vars
    }

    /// `rank` gives each node a number that is larger than that of each of
    /// its children.
    pub open spec fn ranked_by(self, rank: Seq<nat>) -> bool {
        &&& rank.len() == self.nodes.len()
        &&& forall|n: int, i: int|
            0 <= n < self.nodes.len() && 0 <= i < self.edge_list(n).len() ==> rank[
            #[trigger] self.child(n, i)] < rank[n]
    }

    /// The graph has no cycle.
    pub open spec fn is_dag(self) -> bool {
        exists|rank: Seq<nat>| self.ranked_by(rank)
    }

    /// A ranking of the nodes, where the graph has no cycle.
    pub open spec fn rank(self) -> Seq<nat> {
        choose|rank: Seq<nat>| self.ranked_by(rank)
    }

    /// The formula is one that the queries accept: well indexed and without
    /// cycle.
    pub open spec fn wf(self) -> bool {
        self.well_indexed() && self.is_dag()
    }

    /// In a well-formed formula each child of a node has a smaller rank than
    /// that node, and is itself a node of the formula.
    pub proof fn lemma_child(self, n: int, i: int)
        requires
            self.wf(),
            0 <= n < self.nodes.len(),
            0 <= i < self.edge_list(n).len(),
        ensures
            0 <= self.child(n, i) < self.nodes.len(),
            self.rank()[self.child(n, i)] < self.rank()[n],
            self.edge_list(n)[i] < self.edges.len(),
            self.rank().len() == self.nodes.len(),
    {
        assert(self.ranked_by(self.rank()));
        assert(self.edge_list(n)[i] < self.edges.len());
        assert(self.edges[self.edge_list(n)[i] as int].target < self.nodes.len());
    }
}

/// A node of a Decision-DNNF.
///
/// There is no literal node: a literal is an edge that enters a true node
/// and propagates the literal.
#[derive(Debug, PartialEq, Eq)]
pub enum Node {
    /// A conjunction node, with the edges to its children.
    And(Vec<EdgeIndex>),
    /// A disjunction node, with the edges to its children.
    Or(Vec<EdgeIndex>),
    /// A true node.
    True,
    /// A false node.
    False,
}

/// The numbers that a list of edge indices holds.
pub open spec fn edge_numbers(edges: Seq<EdgeIndex>) -> Seq<nat> {
    Seq::new(edges.len(), |i: int| edges[i].0 as nat)
}

/// The numbers that a list of node indices holds.
pub open spec fn node_numbers(nodes: Seq<NodeIndex>) -> Seq<nat> {
    Seq::new(nodes.len(), |i: int| nodes[i].0 as nat)
}

impl View for Node {
    type V = NodeModel;

    open spec fn view(&self) -> NodeModel {
        match self {
            Node::And(es) => NodeModel::And(edge_numbers(es@)),
            Node::Or(es) => NodeModel::Or(edge_numbers(es@)),
            Node::True => NodeModel::True,
            Node::False => NodeModel::False,
        }
    }
}

impl Node {
    /// Adds an edge to an internal node. A leaf takes no edge.
    pub fn add_edge(&mut self, index: EdgeIndex) -> (r: Result<(), Error>)
        ensures
            old(self)@ is And ==> r is Ok && final(self)@ == NodeModel::And(
                old(self)@.edge_list().push(index.0 as nat),
            ),
            old(self)@ is Or ==> r is Ok && final(self)@ == NodeModel::Or(
                old(self)@.edge_list().push(index.0 as nat),
            ),
            old(self)@ is True || old(self)@ is False ==> r == Err::<(), Error>(Error::EdgeFromLeaf)
                && final(self)@ == old(self)@,
    {
        match self {
            Node::And(v) => {
                let ghost before = v@;
                v.push(index);
                assert(edge_numbers(v@) =~= edge_numbers(before).push(index.0 as nat));
                Ok(())
            },
            Node::Or(v) => {
                let ghost before = v@;
                v.push(index);
                assert(edge_numbers(v@) =~= edge_numbers(before).push(index.0 as nat));
                Ok(())
            },
            Node::True => Err(Error::EdgeFromLeaf),
            Node::False => Err(Error::EdgeFromLeaf),
        }
    }

    /// Builds the node that the letter `label` stands for in the d4 format:
    /// `a`, `o`, `t` or `f`.
    pub fn from_label(label: u8) -> (r: Option<Node>)
        ensures
            label == 0x61 ==> r is Some && r->0@ == NodeModel::And(Seq::<nat>::empty()),
            label == 0x6f ==> r is Some && r->0@ == NodeModel::Or(Seq::<nat>::empty()),
            label == 0x74 ==> r is Some && r->0@ == NodeModel::True,
            label == 0x66 ==> r is Some && r->0@ == NodeModel::False,
            label != 0x61 && label != 0x6f && label != 0x74 && label != 0x66 ==> r is None,
    {
        if label == 0x61 {
            let v: Vec<EdgeIndex> = Vec::new();
            assert(edge_numbers(v@) =~= Seq::<nat>::empty());
            Some(Node::And(v))
        } else if label == 0x6f {
            let v: Vec<EdgeIndex> = Vec::new();
            assert(edge_numbers(v@) =~= Seq::<nat>::empty());
            Some(Node::Or(v))
        } else if label == 0x74 {
            Some(Node::True)
        } else if label == 0x66 {
            Some(Node::False)
        } else {
            None
        }
    }

    /// Returns the edges that leave this node; a leaf has none.
    pub fn edge_indices(&self) -> (r: &[EdgeIndex])
        ensures
            edge_numbers(r@) == self@.edge_list(),
    {
        match self {
            Node::And(v) => v.as_slice(),
            Node::Or(v) => v.as_slice(),
            Node::True => {
                let r: &[EdgeIndex] = &[];
                assert(edge_numbers(r@) =~= Seq::<nat>::empty());
                r
            },
            Node::False => {
                let r: &[EdgeIndex] = &[];
                assert(edge_numbers(r@) =~= Seq::<nat>::empty());
                r
            },
        }
    }
}

/// An edge enters a node and propagates literals.
#[derive(Debug, PartialEq, Eq)]
pub struct Edge {
    target: NodeIndex,
    propagated: Vec<Literal>,
}

impl View for Edge {
    type V = EdgeModel;

    closed spec fn view(&self) -> EdgeModel {
        EdgeModel { target: self.target.0 as nat, propagated: self.propagated@ }
    }
}

impl Edge {
    /// Returns the target of the edge.
    #[must_use]
    pub fn target(&self) -> (t: NodeIndex)
        ensures
            t.0 == self@.target,
    {
        self.target
    }

    /// Returns the literals propagated by the edge.
    #[must_use]
    pub fn propagated(&self) -> (p: &[Literal])
        ensures
            p@ == self@.propagated,
    {
        self.propagated.as_slice()
    }

    /// Builds an edge from its target and the literals it propagates.
    pub fn from_raw_data(target: NodeIndex, propagated: Vec<Literal>) -> (e: Edge)
        ensures
            e@ == (EdgeModel { target: target.0 as nat, propagated: propagated@ }),
    {
        Edge { target, propagated }
    }

    /// Gives the edge another target.
    pub fn set_target(&mut self, target: NodeIndex)
        ensures
            final(self)@ == (EdgeModel {
                target: target.0 as nat,
                propagated: old(self)@.propagated,
            }),
    {
        self.target = target;
    }
}

/// The models of a list of nodes.
pub open spec fn node_models(nodes: Seq<Node>) -> Seq<NodeModel> {
    Seq::new(nodes.len(), |i: int| nodes[i]@)
}

/// The models of a list of edges.
pub open spec fn edge_models(edges: Seq<Edge>) -> Seq<EdgeModel> {
    Seq::new(edges.len(), |i: int| edges[i]@)
}

/// A Decision-DNNF formula: a rooted graph of conjunction and disjunction
/// nodes over the leaves true and false, whose edges propagate literals.
/// Node 0 is the root.
#[derive(Debug)]
pub struct DecisionDNNF {
    n_vars: usize,
    nodes: Vec<Node>,
    edges: Vec<Edge>,
}

impl View for DecisionDNNF {
    type V = Formula;

    closed spec fn view(&self) -> Formula {
        Formula {
            n_vars: self.n_vars as nat,
            nodes: node_models(self.nodes@),
            edges: edge_models(self.edges@),
        }
    }
}

impl DecisionDNNF {
    /// The numbers of a formula in memory fit in a machine word.
    pub proof fn lemma_fits(&self)
        ensures
            crate::laws::codec::fits(self@),
    {
        let f = self@;
        assert(self.nodes.len() <= usize::MAX && self.edges.len() <= usize::MAX);
        assert forall|n: int| 0 <= n < f.nodes.len() implies crate::laws::codec::node_fits(
            #[trigger] f.nodes[n],
        ) by {
            assert(f.nodes[n] == self.nodes@[n]@);
            match self.nodes@[n] {
                Node::And(es) => {
                    assert(es.len() <= usize::MAX);
                },
                Node::Or(es) => {
                    assert(es.len() <= usize::MAX);
                },
                _ => {},
            }
        }
        assert forall|e: int| 0 <= e < f.edges.len() implies crate::laws::codec::edge_fits(
            #[trigger] f.edges[e],
        ) by {
            assert(f.edges[e] == self.edges@[e]@);
            assert(self.edges@[e].propagated.len() <= usize::MAX);
        }
    }

    /// Builds a formula from its number of variables, its nodes and its
    /// edges. Nothing is checked.
    pub fn from_raw_data(n_vars: usize, nodes: Vec<Node>, edges: Vec<Edge>) -> (r: DecisionDNNF)
        ensures
            r@ == (Formula {
                n_vars: n_vars as nat,
                nodes: node_models(nodes@),
                edges: edge_models(edges@),
            }),
    {
        DecisionDNNF { n_vars, nodes, edges }
    }

    /// Updates the number of variables.
    ///
    /// The new number must not be lower than the current one. This is how a
    /// caller tells of variables that the formula never mentions: the true
    /// formula, for one, reads the same whatever the number of variables.
    pub fn update_n_vars(&mut self, n_vars: usize)
        requires
            n_vars >= old(self)@.n_vars,
        ensures
            final(self)@ == (Formula { n_vars: n_vars as nat, ..old(self)@ }),
    {
        self.n_vars = n_vars;
    }

    /// Returns the number of variables of this formula.
    #[must_use]
    pub fn n_vars(&self) -> (n: usize)
        ensures
            n == self@.n_vars,
    {
        self.n_vars
    }

    /// Returns the number of nodes of this formula.
    #[must_use]
    pub fn n_nodes(&self) -> (n: usize)
        ensures
            n == self@.nodes.len(),
    {
        self.nodes.len()
    }

    /// Returns the number of edges of this formula.
    #[must_use]
    pub fn n_edges(&self) -> (n: usize)
        ensures
            n == self@.edges.len(),
    {
        self.edges.len()
    }

    /// Returns the nodes of this formula.
    pub fn nodes(&self) -> (r: &Vec<Node>)
        ensures
            node_models(r@) == self@.nodes,
            r@.len() == self@.nodes.len(),
    {
        &self.nodes
    }

    /// Returns the edges of this formula.
    pub fn edges(&self) -> (r: &Vec<Edge>)
        ensures
            edge_models(r@) == self@.edges,
            r@.len() == self@.edges.len(),
    {
        &self.edges
    }

    /// Returns the node at `index`.
    pub fn node(&self, index: NodeIndex) -> (r: &Node)
        requires
            index.0 < self@.nodes.len(),
        ensures
            r@ == self@.nodes[index.0 as int],
    {
        &self.nodes[index.0]
    }

    /// Returns the edge at `index`.
    pub fn edge(&self, index: EdgeIndex) -> (r: &Edge)
        requires
            index.0 < self@.edges.len(),
        ensures
            r@ == self@.edges[index.0 as int],
    {
        &self.edges[index.0]
    }
}

} // verus!
