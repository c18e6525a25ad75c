//! Bottom-up traversals: a value computed for each node from the values of
//! its children, along every path from the root.

use crate::formula::decision_dnnf::edge_numbers;
use crate::formula::decision_dnnf::node_numbers;
use crate::formula::decision_dnnf::DecisionDNNF;
use crate::formula::decision_dnnf::EdgeIndex;
use crate::formula::decision_dnnf::Formula;
use crate::formula::decision_dnnf::Node;
use crate::formula::decision_dnnf::NodeIndex;
use crate::formula::decision_dnnf::NodeModel;
use crate::formula::literal::Literal;
use vstd::prelude::*;

verus! {

/// What an algorithm offers to be applied bottom-up to a formula by a
/// [`BottomUpTraversal`]: a value for each kind of node, given the path from
/// the root to the node and, for an internal node, the literals and the
/// value of each of its branches.
///
/// An algorithm may say which values its functions give, by the four
/// relations below. One that says nothing allows any value.
pub trait BottomUpVisitor<T> {
    /// Whether `r` may be the value of a conjunction node reached along
    /// `path`, whose branches have the literals and the values `children`.
    open spec fn and_gives(
        &self,
        f: Formula,
        path: Seq<nat>,
        children: Seq<(Seq<Literal>, T)>,
        r: T,
    ) -> bool {
        true
    }

    /// Whether `r` may be the value of a disjunction node reached along
    /// `path`, whose branches have the literals and the values `children`.
    open spec fn or_gives(
        &self,
        f: Formula,
        path: Seq<nat>,
        children: Seq<(Seq<Literal>, T)>,
        r: T,
    ) -> bool {
        true
    }

    /// Whether `r` may be the value of a true node reached along `path`.
    open spec fn true_gives(&self, f: Formula, path: Seq<nat>, r: T) -> bool {
        true
    }

    /// Whether `r` may be the value of a false node reached along `path`.
    open spec fn false_gives(&self, f: Formula, path: Seq<nat>, r: T) -> bool {
        true
    }

    /// Creates the value of a conjunction node from those of its children.
    fn merge_for_and(
        &self,
        ddnnf: &DecisionDNNF,
        path: &[NodeIndex],
        children: Vec<(&[Literal], T)>,
    ) -> (r: T)
        ensures
            self.and_gives(ddnnf@, node_numbers(path@), branch_values(children@), r),
    ;

    /// Creates the value of a disjunction node from those of its children.
    fn merge_for_or(
        &self,
        ddnnf: &DecisionDNNF,
        path: &[NodeIndex],
        children: Vec<(&[Literal], T)>,
    ) -> (r: T)
        ensures
            self.or_gives(ddnnf@, node_numbers(path@), branch_values(children@), r),
    ;

    /// Creates the value of a true node.
    fn new_for_true(&self, ddnnf: &DecisionDNNF, path: &[NodeIndex]) -> (r: T)
        ensures
            self.true_gives(ddnnf@, node_numbers(path@), r),
    ;

    /// Creates the value of a false node.
    fn new_for_false(&self, ddnnf: &DecisionDNNF, path: &[NodeIndex]) -> (r: T)
        ensures
            self.false_gives(ddnnf@, node_numbers(path@), r),
    ;
}

/// The literals and the value of each branch of a node.
pub open spec fn branch_values<T>(children: Seq<(&[Literal], T)>) -> Seq<(Seq<Literal>, T)> {
    Seq::new(children.len(), |i: int| (children[i].0@, children[i].1))
}

/// A structure used to apply an algorithm to a formula in a bottom-up
/// fashion.
///
/// The traversal follows all the paths from the root to the leaves: a node
/// with several ancestors is reached several times. This takes more time,
/// and less memory, than an algorithm that keeps what it computed for each
/// node.
#[verifier::reject_recursive_types(T)]
pub struct BottomUpTraversal<T> {
    visitor: Box<dyn BottomUpVisitor<T>>,
}

impl<T> BottomUpTraversal<T> {
    /// Whether `r` may be the value that the algorithm of the traversal
    /// gives to the node `n` reached along the nodes of `above`: the value
    /// that the algorithm may give to a node of this kind reached along
    /// `above` and `n`, for an internal node from values that it may give to
    /// the targets of its edges, each reached along `above`, `n` and the
    /// target, in the order of the edges.
    pub closed spec fn gives(&self, f: Formula, above: Seq<nat>, n: int, r: T) -> bool
        decreases f.rank()[n], 1nat, 0nat,
        when f.wf() && 0 <= n < f.nodes.len()
    {
        let path = above.push(n as nat);
        match f.nodes[n] {
            NodeModel::And(_) => exists|children: Seq<(Seq<Literal>, T)>|
                self.children_given(f, path, n, f.edge_list(n).len() as int, children)
                    && #[trigger] self.visitor.and_gives(f, path, children, r),
            NodeModel::Or(_) => exists|children: Seq<(Seq<Literal>, T)>|
                self.children_given(f, path, n, f.edge_list(n).len() as int, children)
                    && #[trigger] self.visitor.or_gives(f, path, children, r),
            NodeModel::True => self.visitor.true_gives(f, path, r),
            NodeModel::False => self.visitor.false_gives(f, path, r),
        }
    }

    /// Whether `children` holds, for each of the first `i` edges of the
    /// node `n` reached along `path`, the literals of the edge and a value
    /// that the algorithm of the traversal may give to its target.
    pub closed spec fn children_given(
        &self,
        f: Formula,
        path: Seq<nat>,
        n: int,
        i: int,
        children: Seq<(Seq<Literal>, T)>,
    ) -> bool
        decreases f.rank()[n], 0nat, i,
        when f.wf() && 0 <= n < f.nodes.len() && 0 <= i <= f.edge_list(n).len()
    {
        if i == 0 {
            children.len() == 0
        } else {
            proof {
                f.lemma_child(n, i - 1);
            }
            &&& children.len() == i
            &&& children[i - 1].0 == f.edge(n, i - 1).propagated
            &&& self.gives(f, path, f.child(n, i - 1), children[i - 1].1)
            &&& self.children_given(f, path, n, i - 1, children.drop_last())
        }
    }

    /// A value that the algorithm may give to an internal node from values
    /// that it may give to the targets of the edges is a value that it may
    /// give to the node.
    proof fn lemma_gives(
        &self,
        f: Formula,
        above: Seq<nat>,
        n: int,
        children: Seq<(Seq<Literal>, T)>,
        r: T,
    )
        requires
            f.wf(),
            0 <= n < f.nodes.len(),
            self.children_given(f, above.push(n as nat), n, f.edge_list(n).len() as int, children),
            f.nodes[n] is And ==> self.visitor.and_gives(f, above.push(n as nat), children, r),
            f.nodes[n] is Or ==> self.visitor.or_gives(f, above.push(n as nat), children, r),
            f.nodes[n] is And || f.nodes[n] is Or,
        ensures
            self.gives(f, above, n, r),
    {
    }

    /// Builds a new traversal given an algorithm that works in a bottom-up
    /// fashion.
    #[must_use]
    pub fn new(visitor: Box<dyn BottomUpVisitor<T>>) -> (r: Self) {
        Self { visitor }
    }

    /// Makes the traversal, and returns the value that the algorithm gives
    /// to the root.
    #[must_use]
    pub fn traverse(&self, ddnnf: &DecisionDNNF) -> (r: T)
        requires
            ddnnf@.wf(),
        ensures
            self.gives(ddnnf@, Seq::empty(), 0, r),
    {
        let mut path: Vec<NodeIndex> = Vec::new();
        proof {
            assert(node_numbers(path@) =~= Seq::<nat>::empty());
        }
        self.traverse_for(ddnnf, NodeIndex(0), &mut path)
    }

    /// Computes the value of the node `node_index`, reached along `path`.
    fn traverse_for(&self, ddnnf: &DecisionDNNF, node_index: NodeIndex, path: &mut Vec<NodeIndex>) -> (r:
        T)
        requires
            ddnnf@.wf(),
            node_index.0 < ddnnf@.nodes.len(),
        ensures
            final(path)@ == old(path)@,
            self.gives(ddnnf@, node_numbers(old(path)@), node_index.0 as int, r),
        decreases ddnnf@.rank()[node_index.0 as int], 1nat,
    {
        let ghost before = path@;
        let ghost f = ddnnf@;
        let ghost n = node_index.0 as int;
        path.push(node_index);
        proof {
            assert(node_numbers(path@) =~= node_numbers(before).push(n as nat));
        }
        let result = match ddnnf.node(node_index) {
            Node::And(v) => {
                let new_children = self.compute_new_children(ddnnf, node_index, v, path);
                let ghost values = branch_values(new_children@);
                let r = self.visitor.merge_for_and(ddnnf, path.as_slice(), new_children);
                proof {
                    let along = node_numbers(before).push(n as nat);
                    assert(node_numbers(path@) == along);
                    assert(self.children_given(f, along, n, f.edge_list(n).len() as int, values)
                        && self.visitor.and_gives(f, along, values, r));
                    self.lemma_gives(f, node_numbers(before), n, values, r);
                }
                r
            },
            Node::Or(v) => {
                let new_children = self.compute_new_children(ddnnf, node_index, v, path);
                let ghost values = branch_values(new_children@);
                let r = self.visitor.merge_for_or(ddnnf, path.as_slice(), new_children);
                proof {
                    let along = node_numbers(before).push(n as nat);
                    assert(node_numbers(path@) == along);
                    assert(self.children_given(f, along, n, f.edge_list(n).len() as int, values)
                        && self.visitor.or_gives(f, along, values, r));
                    self.lemma_gives(f, node_numbers(before), n, values, r);
                }
                r
            },
            Node::True => {
                let r = self.visitor.new_for_true(ddnnf, path.as_slice());
                proof {
                    assert(self.gives(f, node_numbers(before), n, r));
                }
                r
            },
            Node::False => {
                let r = self.visitor.new_for_false(ddnnf, path.as_slice());
                proof {
                    assert(self.gives(f, node_numbers(before), n, r));
                }
                r
            },
        };
        path.pop();
        proof {
            assert(path@ =~= before);
        }
        result
    }

    /// Computes the literals and the values of the branches of the node
    /// `node_index`, whose edges are `edges`, reached along `path`.
    #[verifier::loop_isolation(false)]
    fn compute_new_children<'a>(
        &self,
        ddnnf: &'a DecisionDNNF,
        node_index: NodeIndex,
        edges: &Vec<EdgeIndex>,
        path: &mut Vec<NodeIndex>,
    ) -> (r: Vec<(&'a [Literal], T)>)
        requires
            ddnnf@.wf(),
            node_index.0 < ddnnf@.nodes.len(),
            edge_numbers(edges@) == ddnnf@.edge_list(node_index.0 as int),
        ensures
            final(path)@ == old(path)@,
            r@.len() == edges@.len(),
            forall|i: int|
                0 <= i < r@.len() ==> (#[trigger] r@[i]).0@ == ddnnf@.edge(
                    node_index.0 as int,
                    i,
                ).propagated,
            self.children_given(
                ddnnf@,
                node_numbers(old(path)@),
                node_index.0 as int,
                edges@.len() as int,
                branch_values(r@),
            ),
        decreases ddnnf@.rank()[node_index.0 as int], 0nat,
    {
        let ghost f = ddnnf@;
        let ghost n = node_index.0 as int;
        let ghost along = node_numbers(path@);
        let mut out: Vec<(&'a [Literal], T)> = Vec::new();
        let mut i: usize = 0;
        while i < edges.len()
            invariant
                i <= edges.len(),
                path@ == old(path)@,
                out@.len() == i,
                forall|j: int| 0 <= j < i ==> (#[trigger] out@[j]).0@ == f.edge(n, j).propagated,
                self.children_given(f, along, n, i as int, branch_values(out@)),
            decreases edges.len() - i,
        {
            proof {
                f.lemma_child(n, i as int);
                assert(edge_numbers(edges@)[i as int] == edges@[i as int].0);
            }
            let edge = ddnnf.edge(edges[i]);
            let new_child = self.traverse_for(ddnnf, edge.target(), path);
            let ghost values = branch_values(out@);
            out.push((edge.propagated(), new_child));
            proof {
                assert(branch_values(out@).drop_last() =~= values);
            }
            i = i + 1;
        }
        out
    }
}

/// A visitor that applies a pair of visitors at once.
#[verifier::reject_recursive_types(T)]
#[verifier::reject_recursive_types(U)]
pub struct BiBottomUpVisitor<T, U> {
    visitor_t: Box<dyn BottomUpVisitor<T>>,
    visitor_u: Box<dyn BottomUpVisitor<U>>,
}

/// The literals of each branch of a node with the first part of its value.
pub open spec fn first_parts<T, U>(children: Seq<(Seq<Literal>, (T, U))>) -> Seq<
    (Seq<Literal>, T),
> {
    Seq::new(children.len(), |i: int| (children[i].0, children[i].1.0))
}

/// The literals of each branch of a node with the second part of its
/// value.
pub open spec fn second_parts<T, U>(children: Seq<(Seq<Literal>, (T, U))>) -> Seq<
    (Seq<Literal>, U),
> {
    Seq::new(children.len(), |i: int| (children[i].0, children[i].1.1))
}

impl<T, U> BiBottomUpVisitor<T, U> {
    /// Builds a new visitor that applies the given pair of visitors.
    #[must_use]
    pub fn new(visitor_t: Box<dyn BottomUpVisitor<T>>, visitor_u: Box<dyn BottomUpVisitor<U>>) -> (r:
        Self) {
        Self { visitor_t, visitor_u }
    }
}

/// Splits the values of the branches of a node between the two visitors of
/// a pair: each gets the literals of each branch with its part of the
/// value, in the same order.
pub fn split_children<'a, T, U>(children: Vec<(&'a [Literal], (T, U))>) -> (r: (
    Vec<(&'a [Literal], T)>,
    Vec<(&'a [Literal], U)>,
))
    ensures
        r.0@.len() == children@.len(),
        r.1@.len() == children@.len(),
        forall|j: int|
            0 <= j < children@.len() ==> (#[trigger] r.0@[j]).0@ == children@[j].0@ && r.0@[j].1
                == children@[j].1.0,
        forall|j: int|
            0 <= j < children@.len() ==> (#[trigger] r.1@[j]).0@ == children@[j].0@ && r.1@[j].1
                == children@[j].1.1,
{
    let ghost all = children@;
    let mut children = children;
    let mut firsts: Vec<(&'a [Literal], T)> = Vec::new();
    let mut seconds: Vec<(&'a [Literal], U)> = Vec::new();
    let ghost n = children@.len();
    while children.len() > 0
        invariant
            children@.len() <= n,
            all.len() == n,
            children@ == all.take(children@.len() as int),
            firsts@.len() == n - children@.len(),
            seconds@.len() == n - children@.len(),
            forall|j: int|
                0 <= j < firsts@.len() ==> (#[trigger] firsts@[j]).0@ == all[n - 1 - j].0@
                    && firsts@[j].1 == all[n - 1 - j].1.0,
            forall|j: int|
                0 <= j < seconds@.len() ==> (#[trigger] seconds@[j]).0@ == all[n - 1 - j].0@
                    && seconds@[j].1 == all[n - 1 - j].1.1,
        decreases children.len(),
    {
        let ghost before = children@;
        let ghost k = children@.len() - 1;
        match children.pop() {
            Some((propagated, (c_t, c_u))) => {
                proof {
                    assert(before[k] == all[k]);
                    assert(children@ =~= all.take(children@.len() as int));
                }
                firsts.push((propagated, c_t));
                seconds.push((propagated, c_u));
            },
            None => {},
        }
    }
    let firsts = reversed(firsts);
    let seconds = reversed(seconds);
    (firsts, seconds)
}

/// Returns the items of `items` from the last to the first.
pub fn reversed<X>(items: Vec<X>) -> (r: Vec<X>)
    ensures
        r@.len() == items@.len(),
        forall|j: int| 0 <= j < r@.len() ==> (#[trigger] r@[j]) == items@[items@.len() - 1 - j],
{
    let mut items = items;
    let ghost all = items@;
    let mut out: Vec<X> = Vec::new();
    while items.len() > 0
        invariant
            items@ == all.take(items@.len() as int),
            out@.len() == all.len() - items@.len(),
            forall|j: int| 0 <= j < out@.len() ==> (#[trigger] out@[j]) == all[all.len() - 1 - j],
        decreases items.len(),
    {
        match items.pop() {
            Some(x) => {
                out.push(x);
                proof {
                    assert(items@ =~= all.take(items@.len() as int));
                }
            },
            None => {},
        }
    }
    out
}

impl<T, U> BottomUpVisitor<(T, U)> for BiBottomUpVisitor<T, U> {
    /// A pair of values, each of which its visitor may give to the node
    /// from its parts of the values of the branches.
    closed spec fn and_gives(
        &self,
        f: Formula,
        path: Seq<nat>,
        children: Seq<(Seq<Literal>, (T, U))>,
        r: (T, U),
    ) -> bool {
        self.visitor_t.and_gives(f, path, first_parts(children), r.0) && self.visitor_u.and_gives(
            f,
            path,
            second_parts(children),
            r.1,
        )
    }

    /// A pair of values, each of which its visitor may give to the node
    /// from its parts of the values of the branches.
    closed spec fn or_gives(
        &self,
        f: Formula,
        path: Seq<nat>,
        children: Seq<(Seq<Literal>, (T, U))>,
        r: (T, U),
    ) -> bool {
        self.visitor_t.or_gives(f, path, first_parts(children), r.0) && self.visitor_u.or_gives(
            f,
            path,
            second_parts(children),
            r.1,
        )
    }

    /// A pair of values, each of which its visitor may give to the node.
    closed spec fn true_gives(&self, f: Formula, path: Seq<nat>, r: (T, U)) -> bool {
        self.visitor_t.true_gives(f, path, r.0) && self.visitor_u.true_gives(f, path, r.1)
    }

    /// A pair of values, each of which its visitor may give to the node.
    closed spec fn false_gives(&self, f: Formula, path: Seq<nat>, r: (T, U)) -> bool {
        self.visitor_t.false_gives(f, path, r.0) && self.visitor_u.false_gives(f, path, r.1)
    }

    fn merge_for_and(
        &self,
        ddnnf: &DecisionDNNF,
        path: &[NodeIndex],
        children: Vec<(&[Literal], (T, U))>,
    ) -> (r: (T, U)) {
        let ghost all = branch_values(children@);
        let (children_t, children_u) = split_children(children);
        proof {
            assert(branch_values(children_t@) =~= first_parts(all));
            assert(branch_values(children_u@) =~= second_parts(all));
        }
        (
            self.visitor_t.merge_for_and(ddnnf, path, children_t),
            self.visitor_u.merge_for_and(ddnnf, path, children_u),
        )
    }

    fn merge_for_or(
        &self,
        ddnnf: &DecisionDNNF,
        path: &[NodeIndex],
        children: Vec<(&[Literal], (T, U))>,
    ) -> (r: (T, U)) {
        let ghost all = branch_values(children@);
        let (children_t, children_u) = split_children(children);
        proof {
            assert(branch_values(children_t@) =~= first_parts(all));
            assert(branch_values(children_u@) =~= second_parts(all));
        }
        (
            self.visitor_t.merge_for_or(ddnnf, path, children_t),
            self.visitor_u.merge_for_or(ddnnf, path, children_u),
        )
    }

    fn new_for_true(&self, ddnnf: &DecisionDNNF, path: &[NodeIndex]) -> (r: (T, U)) {
        (self.visitor_t.new_for_true(ddnnf, path), self.visitor_u.new_for_true(ddnnf, path))
    }

    fn new_for_false(&self, ddnnf: &DecisionDNNF, path: &[NodeIndex]) -> (r: (T, U)) {
        (self.visitor_t.new_for_false(ddnnf, path), self.visitor_u.new_for_false(ddnnf, path))
    }
}

} // verus!
