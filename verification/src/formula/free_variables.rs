//! Free variables: the variables that a part of a formula leaves open.
//!
//! A variable is free at the root when no edge of the formula speaks of it.
//! It is free in a child of a disjunction node when some other child of that
//! node speaks of it and this child does not.

use crate::formula::assumptions::Assumptions;
use crate::formula::decision_dnnf::DecisionDNNF;
use crate::formula::decision_dnnf::Formula;
use crate::formula::decision_dnnf::Node;
use crate::formula::decision_dnnf::NodeIndex;
use crate::formula::decision_dnnf::NodeModel;
use crate::formula::involved_vars::complement;
use crate::formula::involved_vars::literal_vars;
use crate::formula::involved_vars::literals_of;
use crate::formula::involved_vars::symmetric_difference;
use crate::formula::involved_vars::InvolvedVars;
use crate::formula::literal::Literal;
use vstd::prelude::*;

verus! {

impl Formula {
    /// The variables involved at node `n`: those of the literals of the
    /// edges that can be reached from it.
    pub open spec fn involved(self, n: int) -> Set<nat>
        decreases self.rank()[n], 1nat, 0nat,
        when self.wf() && 0 <= n < self.nodes.len()
    {
        self.involved_upto(n, self.edge_list(n).len() as int)
    }

    /// The variables involved in the first `i` branches of node `n`.
    pub open spec fn involved_upto(self, n: int, i: int) -> Set<nat>
        decreases self.rank()[n], 0nat, i,
        when self.wf() && 0 <= n < self.nodes.len() && 0 <= i <= self.edge_list(n).len()
    {
        if i == 0 {
            Set::empty()
        } else {
            self.involved_upto(n, i - 1).union(self.branch_vars(n, i - 1))
        }
    }

    /// The variables of the `i`-th branch of node `n`: those that its edge
    /// propagates and those involved at its target.
    pub open spec fn branch_vars(self, n: int, i: int) -> Set<nat>
        decreases self.rank()[n], 0nat, 0nat,
        when self.wf() && 0 <= n < self.nodes.len() && 0 <= i < self.edge_list(n).len()
    {
        proof {
            self.lemma_child(n, i);
        }
        literal_vars(self.edge(n, i).propagated).union(self.involved(self.child(n, i)))
    }

    /// The variables that are free in the `i`-th branch of node `n`: those
    /// involved at the node that the branch does not speak of.
    pub open spec fn or_free_set(self, n: int, i: int) -> Set<nat> {
        symmetric_difference(self.branch_vars(n, i), self.involved(n))
    }

    /// The free variables of the `i`-th branch of node `n` as negative
    /// literals, in increasing order of variable.
    pub open spec fn or_free_vars(self, n: int, i: int) -> Seq<Literal> {
        literals_of(self.or_free_set(n, i), 0, self.n_vars, false)
    }

    /// The free variables of each branch of node `n`, where it is a
    /// disjunction node; no list for another node.
    pub open spec fn node_free_vars(self, n: int) -> Seq<Seq<Literal>> {
        if self.nodes[n] is Or {
            Seq::new(self.edge_list(n).len(), |i: int| self.or_free_vars(n, i))
        } else {
            Seq::empty()
        }
    }

    /// The variables that no edge reachable from the root speaks of, as
    /// negative literals in increasing order of variable.
    pub open spec fn root_free_vars(self) -> Seq<Literal> {
        literals_of(complement(self.involved(0), self.n_vars), 0, self.n_vars, false)
    }

    /// The variables involved at a node are variables of the formula, and
    /// those of a branch are involved at its node.
    pub proof fn lemma_involved_bounds(self, n: int)
        requires
            self.wf(),
            0 <= n < self.nodes.len(),
        ensures
            forall|v: nat| self.involved(n).contains(v) ==> v < self.n_vars,
            forall|i: int, v: nat|
                0 <= i < self.edge_list(n).len() && #[trigger] self.branch_vars(n, i).contains(v)
                    ==> self.involved(n).contains(v),
        decreases self.rank()[n], 1nat, 0nat,
    {
        self.lemma_involved_upto_bounds(n, self.edge_list(n).len() as int);
        assert(self.involved(n) == self.involved_upto(n, self.edge_list(n).len() as int));
    }

    /// The same, for the first `i` branches of a node.
    pub proof fn lemma_involved_upto_bounds(self, n: int, i: int)
        requires
            self.wf(),
            0 <= n < self.nodes.len(),
            0 <= i <= self.edge_list(n).len(),
        ensures
            forall|v: nat| self.involved_upto(n, i).contains(v) ==> v < self.n_vars,
            forall|j: int, v: nat|
                0 <= j < i && #[trigger] self.branch_vars(n, j).contains(v)
                    ==> self.involved_upto(n, i).contains(v),
        decreases self.rank()[n], 0nat, i,
    {
        if i > 0 {
            self.lemma_involved_upto_bounds(n, i - 1);
            self.lemma_child(n, i - 1);
            self.lemma_involved_bounds(self.child(n, i - 1));
            let p = self.edge(n, i - 1).propagated;
            assert(self.involved_upto(n, i) == self.involved_upto(n, i - 1).union(
                self.branch_vars(n, i - 1),
            ));
            assert(self.branch_vars(n, i - 1) == literal_vars(p).union(
                self.involved(self.child(n, i - 1)),
            ));
            assert forall|v: nat| literal_vars(p).contains(v) implies v < self.n_vars by {
                let k = choose|k: int| 0 <= k < p.len() && (#[trigger] p[k]).var() == v;
                assert(self.edges[self.edge_list(n)[i - 1] as int].propagated[k].var()
                    < self.n_vars);
            }
        } else {
            assert(self.involved_upto(n, i) == Set::<nat>::empty());
        }
    }
}


/// The lists that a nested vector of literals holds.
pub open spec fn nested_lists(v: Seq<Vec<Literal>>) -> Seq<Seq<Literal>> {
    Seq::new(v.len(), |c: int| v[c]@)
}

/// The lists of lists that a doubly nested vector of literals holds.
pub open spec fn nested_tables(v: Seq<Vec<Vec<Literal>>>) -> Seq<Seq<Seq<Literal>>> {
    Seq::new(v.len(), |n: int| nested_lists(v[n]@))
}

/// The free variables of every node of a formula.
pub open spec fn all_node_free_vars(f: Formula) -> Seq<Seq<Seq<Literal>>> {
    Seq::new(f.nodes.len(), |n: int| f.node_free_vars(n))
}

/// The literals of `literals` whose variable `mapping` leaves open, in the
/// same order.
pub open spec fn unassumed(literals: Seq<Literal>, mapping: Seq<Option<bool>>) -> Seq<Literal>
    decreases literals.len(),
{
    if literals.len() == 0 {
        Seq::empty()
    } else if literals.last().var() < mapping.len() && mapping[literals.last().var() as int]
        is Some {
        unassumed(literals.drop_last(), mapping)
    } else {
        unassumed(literals.drop_last(), mapping).push(literals.last())
    }
}

/// What is known of the nodes whose involved variables have been computed:
/// the set is the one the formula defines, and so are the free variables of
/// the branches of the node.
pub open spec fn tables_ok(
    f: Formula,
    involved_vars: Seq<Option<InvolvedVars>>,
    or_free_vars: Seq<Vec<Vec<Literal>>>,
) -> bool {
    &&& involved_vars.len() == f.nodes.len()
    &&& or_free_vars.len() == f.nodes.len()
    &&& forall|n: int|
        0 <= n < f.nodes.len() && (#[trigger] involved_vars[n]) is Some ==> {
            &&& involved_vars[n]->0.wf()
            &&& involved_vars[n]->0.capacity() == f.n_vars
            &&& involved_vars[n]->0@ == f.involved(n)
            &&& nested_lists(or_free_vars[n]@) == f.node_free_vars(n)
        }
}

/// Computes the free variables of a formula: first, for each node, the free
/// variables of each of its branches where the node is a disjunction (no
/// list for another node); then those of the root. All come as negative
/// literals in increasing order of variable.
pub fn compute(ddnnf: &DecisionDNNF) -> (r: (Vec<Vec<Vec<Literal>>>, Vec<Literal>))
    requires
        ddnnf@.wf(),
    ensures
        nested_tables(r.0@) == all_node_free_vars(ddnnf@),
        r.1@ == ddnnf@.root_free_vars(),
{
    let n_nodes = ddnnf.n_nodes();
    let mut involved_vars: Vec<Option<InvolvedVars>> = Vec::new();
    let mut or_free_vars: Vec<Vec<Vec<Literal>>> = Vec::new();
    let mut i: usize = 0;
    while i < n_nodes
        invariant
            i <= n_nodes,
            involved_vars@.len() == i,
            or_free_vars@.len() == i,
            forall|n: int| 0 <= n < i ==> (#[trigger] involved_vars@[n]) is None,
        decreases n_nodes - i,
    {
        involved_vars.push(None);
        or_free_vars.push(Vec::new());
        i = i + 1;
    }
    let mut n: usize = 0;
    while n < n_nodes
        invariant
            n <= n_nodes,
            n_nodes == ddnnf@.nodes.len(),
            ddnnf@.wf(),
            tables_ok(ddnnf@, involved_vars@, or_free_vars@),
            forall|m: int| 0 <= m < n ==> (#[trigger] involved_vars@[m]) is Some,
        decreases n_nodes - n,
    {
        compute_free_vars_from(ddnnf, NodeIndex(n), &mut involved_vars, &mut or_free_vars);
        n = n + 1;
    }
    let root_free_vars = match &involved_vars[0] {
        Some(involved) => involved.iter_missing_literals(),
        None => Vec::new(),
    };
    proof {
        assert forall|m: int| 0 <= m < n_nodes implies nested_tables(or_free_vars@)[m]
            == all_node_free_vars(ddnnf@)[m] by {
            assert(involved_vars@[m] is Some);
        }
        assert(nested_tables(or_free_vars@) =~= all_node_free_vars(ddnnf@));
    }
    (or_free_vars, root_free_vars)
}

/// Fills the tables for node `from` and for what can be reached from it,
/// unless that was done before.
fn compute_free_vars_from(
    ddnnf: &DecisionDNNF,
    from: NodeIndex,
    involved_vars: &mut Vec<Option<InvolvedVars>>,
    or_free_vars: &mut Vec<Vec<Vec<Literal>>>,
)
    requires
        ddnnf@.wf(),
        from.0 < ddnnf@.nodes.len(),
        tables_ok(ddnnf@, old(involved_vars)@, old(or_free_vars)@),
    ensures
        tables_ok(ddnnf@, final(involved_vars)@, final(or_free_vars)@),
        final(involved_vars)@[from.0 as int] is Some,
        forall|n: int|
            #![trigger old(involved_vars)@[n]]
            #![trigger final(involved_vars)@[n]]
            0 <= n < ddnnf@.nodes.len() && old(involved_vars)@[n] is Some ==> final(
                involved_vars
            )@[n] is Some,
    decreases ddnnf@.rank()[from.0 as int], 1nat,
{
    if involved_vars[from.0].is_some() {
        return ;
    }
    let ghost f = ddnnf@;
    let ghost n = from.0 as int;
    let involved = compute_involved_vars(ddnnf, from, involved_vars, or_free_vars);
    let mut lists: Vec<Vec<Literal>> = Vec::new();
    let node = ddnnf.node(from);
    if let Node::Or(edges) = node {
        let mut i: usize = 0;
        while i < edges.len()
            invariant
                i <= edges.len(),
                f == ddnnf@,
                n == from.0,
                f.wf(),
                0 <= n < f.nodes.len(),
                f.nodes[n] == NodeModel::Or(crate::formula::decision_dnnf::edge_numbers(edges@)),
                tables_ok(f, involved_vars@, or_free_vars@),
                forall|j: int|
                    0 <= j < edges@.len() ==> (#[trigger] involved_vars@[f.child(n, j)]) is Some,
                involved.wf(),
                involved.capacity() == f.n_vars,
                involved@ == f.involved(n),
                lists@.len() == i,
                forall|j: int| 0 <= j < i ==> (#[trigger] lists@[j])@ == f.or_free_vars(n, j),
            decreases edges.len() - i,
        {
            proof {
                f.lemma_child(n, i as int);
            }
            let edge = ddnnf.edge(edges[i]);
            let target = edge.target();
            assert(target.0 == f.child(n, i as int));
            let mut involved_in_child = match &involved_vars[target.0] {
                Some(s) => s.clone(),
                None => InvolvedVars::new(ddnnf.n_vars()),
            };
            involved_in_child.set_literals(edge.propagated());
            proof {
                assert(f.branch_vars(n, i as int) == literal_vars(
                    f.edge(n, i as int).propagated,
                ).union(f.involved(f.child(n, i as int))));
                assert(involved_in_child@ =~= f.branch_vars(n, i as int));
            }
            let free = InvolvedVars::iter_xor_neg_literals(&involved_in_child, &involved);
            lists.push(free);
            i = i + 1;
        }
        proof {
            assert(nested_lists(lists@) =~= f.node_free_vars(n));
        }
    } else {
        proof {
            assert(nested_lists(lists@) =~= f.node_free_vars(n));
        }
    }
    involved_vars.set(from.0, Some(involved));
    or_free_vars.set(from.0, lists);
}

/// Computes the variables involved at `node`, after filling the tables for
/// each of its children.
fn compute_involved_vars(
    ddnnf: &DecisionDNNF,
    node: NodeIndex,
    involved_vars: &mut Vec<Option<InvolvedVars>>,
    or_free_vars: &mut Vec<Vec<Vec<Literal>>>,
) -> (union: InvolvedVars)
    requires
        ddnnf@.wf(),
        node.0 < ddnnf@.nodes.len(),
        tables_ok(ddnnf@, old(involved_vars)@, old(or_free_vars)@),
    ensures
        tables_ok(ddnnf@, final(involved_vars)@, final(or_free_vars)@),
        union.wf(),
        union.capacity() == ddnnf@.n_vars,
        union@ == ddnnf@.involved(node.0 as int),
        forall|j: int|
            0 <= j < ddnnf@.edge_list(node.0 as int).len() ==> (#[trigger] final(involved_vars)@[ddnnf@.child(
                node.0 as int,
                j,
            )]) is Some,
        forall|n: int|
            #![trigger old(involved_vars)@[n]]
            #![trigger final(involved_vars)@[n]]
            0 <= n < ddnnf@.nodes.len() && old(involved_vars)@[n] is Some ==> final(
                involved_vars
            )@[n] is Some,
    decreases ddnnf@.rank()[node.0 as int], 0nat,
{
    let ghost f = ddnnf@;
    let ghost n = node.0 as int;
    let mut union = InvolvedVars::new(ddnnf.n_vars());
    let edges = ddnnf.node(node).edge_indices();
    let mut i: usize = 0;
    proof {
        assert(f.involved_upto(n, 0) == Set::<nat>::empty());
    }
    while i < edges.len()
        invariant
            i <= edges.len(),
            f == ddnnf@,
            n == node.0,
            f.wf(),
            0 <= n < f.nodes.len(),
            crate::formula::decision_dnnf::edge_numbers(edges@) == f.edge_list(n),
            tables_ok(f, involved_vars@, or_free_vars@),
            forall|j: int| 0 <= j < i ==> (#[trigger] involved_vars@[f.child(n, j)]) is Some,
            forall|m: int|
                #![trigger old(involved_vars)@[m]]
                #![trigger involved_vars@[m]]
                0 <= m < f.nodes.len() && old(involved_vars)@[m] is Some ==> involved_vars@[m]
                    is Some,
            union.wf(),
            union.capacity() == f.n_vars,
            union@ == f.involved_upto(n, i as int),
        decreases edges.len() - i,
    {
        proof {
            f.lemma_child(n, i as int);
        }
        let edge = ddnnf.edge(edges[i]);
        let target = edge.target();
        assert(target.0 == f.child(n, i as int));
        compute_free_vars_from(ddnnf, target, involved_vars, or_free_vars);
        match &involved_vars[target.0] {
            Some(s) => {
                union.or_assign(s);
            },
            None => {},
        }
        union.set_literals(edge.propagated());
        proof {
            assert(f.branch_vars(n, i as int) == literal_vars(f.edge(n, i as int).propagated).union(
                f.involved(f.child(n, i as int)),
            ));
            assert(f.involved_upto(n, i + 1) == f.involved_upto(n, i as int).union(
                f.branch_vars(n, i as int),
            ));
            assert(union@ =~= f.involved_upto(n, i + 1));
        }
        i = i + 1;
    }
    proof {
        assert(f.involved(n) == f.involved_upto(n, f.edge_list(n).len() as int));
        assert(edges@.len() == f.edge_list(n).len());
    }
    union
}

/// The free variables of the branches of the disjunction nodes, kept in one
/// flat list of literals with, for each node and each of its branches, the
/// place and the length of the part of the list that belongs to the branch.
///
/// The literals keep a polarity, so that the structure can also hold an
/// assignment of the free variables.
#[derive(Debug)]
pub struct OrFreeVariables {
    indices_and_lengths: Vec<Vec<(usize, usize)>>,
    data: Vec<Literal>,
}

impl OrFreeVariables {
    /// Each branch has its part of the flat list.
    pub closed spec fn wf(&self) -> bool {
        forall|n: int, c: int|
            0 <= n < self.indices_and_lengths@.len() && 0 <= c < self.indices_and_lengths@[n]@.len()
                ==> (#[trigger] self.indices_and_lengths@[n]@[c]).0
                + self.indices_and_lengths@[n]@[c].1 <= self.data@.len()
    }

    /// The lists of literals: for each node, for each of its branches.
    pub closed spec fn lists(&self) -> Seq<Seq<Seq<Literal>>> {
        Seq::new(
            self.indices_and_lengths@.len(),
            |n: int|
                Seq::new(
                    self.indices_and_lengths@[n]@.len(),
                    |c: int|
                        self.data@.subrange(
                            self.indices_and_lengths@[n]@[c].0 as int,
                            self.indices_and_lengths@[n]@[c].0 + self.indices_and_lengths@[n]@[c].1,
                        ),
                ),
        )
    }

    /// Flattens lists of literals given for each node and each branch.
    pub fn build(input_vec: Vec<Vec<Vec<Literal>>>) -> (r: Self)
        ensures
            r.wf(),
            r.lists() == nested_tables(input_vec@),
    {
        let mut indices_and_lengths: Vec<Vec<(usize, usize)>> = Vec::new();
        let mut data: Vec<Literal> = Vec::new();
        let mut n: usize = 0;
        while n < input_vec.len()
            invariant
                n <= input_vec.len(),
                indices_and_lengths@.len() == n,
                forall|m: int|
                    0 <= m < n ==> (#[trigger] indices_and_lengths@[m])@.len()
                        == input_vec@[m]@.len(),
                forall|m: int, c: int|
                    0 <= m < n && 0 <= c < indices_and_lengths@[m]@.len() ==> {
                        let entry = #[trigger] indices_and_lengths@[m]@[c];
                        &&& entry.0 + entry.1 <= data@.len()
                        &&& data@.subrange(entry.0 as int, entry.0 + entry.1)
                            == input_vec@[m]@[c]@
                    },
            decreases input_vec.len() - n,
        {
            let node_lists = &input_vec[n];
            let mut node_entries: Vec<(usize, usize)> = Vec::new();
            let mut c: usize = 0;
            while c < node_lists.len()
                invariant
                    c <= node_lists.len(),
                    n < input_vec.len(),
                    node_lists == input_vec@[n as int],
                    indices_and_lengths@.len() == n,
                    node_entries@.len() == c,
                    forall|m: int|
                        0 <= m < n ==> (#[trigger] indices_and_lengths@[m])@.len()
                            == input_vec@[m]@.len(),
                    forall|m: int, d: int|
                        0 <= m < n && 0 <= d < indices_and_lengths@[m]@.len() ==> {
                            let entry = #[trigger] indices_and_lengths@[m]@[d];
                            &&& entry.0 + entry.1 <= data@.len()
                            &&& data@.subrange(entry.0 as int, entry.0 + entry.1)
                                == input_vec@[m]@[d]@
                        },
                    forall|d: int|
                        0 <= d < c ==> {
                            let entry = #[trigger] node_entries@[d];
                            &&& entry.0 + entry.1 <= data@.len()
                            &&& data@.subrange(entry.0 as int, entry.0 + entry.1)
                                == node_lists@[d]@
                        },
                decreases node_lists.len() - c,
            {
                let free_vars = &node_lists[c];
                let start = data.len();
                let ghost before = data@;
                let mut k: usize = 0;
                while k < free_vars.len()
                    invariant
                        k <= free_vars.len(),
                        data@ == before + free_vars@.take(k as int),
                    decreases free_vars.len() - k,
                {
                    data.push(free_vars[k]);
                    assert(data@ =~= before + free_vars@.take(k + 1));
                    k = k + 1;
                }
                proof {
                    assert(free_vars@.take(k as int) =~= free_vars@);
                    assert(data@.subrange(start as int, start + free_vars@.len()) =~= free_vars@);
                    assert forall|m: int, d: int|
                        0 <= m < n && 0 <= d < indices_and_lengths@[m]@.len() implies {
                        let entry = #[trigger] indices_and_lengths@[m]@[d];
                        &&& entry.0 + entry.1 <= data@.len()
                        &&& data@.subrange(entry.0 as int, entry.0 + entry.1)
                            == input_vec@[m]@[d]@
                    } by {
                        let entry = indices_and_lengths@[m]@[d];
                        assert(data@.subrange(entry.0 as int, entry.0 + entry.1)
                            =~= before.subrange(entry.0 as int, entry.0 + entry.1));
                    }
                    assert forall|d: int| 0 <= d < c implies {
                        let entry = #[trigger] node_entries@[d];
                        &&& entry.0 + entry.1 <= data@.len()
                        &&& data@.subrange(entry.0 as int, entry.0 + entry.1) == node_lists@[d]@
                    } by {
                        let entry = node_entries@[d];
                        assert(data@.subrange(entry.0 as int, entry.0 + entry.1)
                            =~= before.subrange(entry.0 as int, entry.0 + entry.1));
                    }
                }
                node_entries.push((start, free_vars.len()));
                c = c + 1;
            }
            indices_and_lengths.push(node_entries);
            n = n + 1;
        }
        let r = Self { indices_and_lengths, data };
        proof {
            assert forall|m: int| 0 <= m < r.lists().len() implies r.lists()[m] == nested_tables(
                input_vec@,
            )[m] by {
                assert(r.lists()[m] =~= nested_tables(input_vec@)[m]);
            }
            assert(r.lists() =~= nested_tables(input_vec@));
        }
        r
    }

    /// Sets the polarity of every literal to negative.
    pub fn set_negative_literals(&mut self)
        requires
            old(self).wf(),
        ensures
            final(self).wf(),
            final(self).lists().len() == old(self).lists().len(),
            forall|n: int|
                0 <= n < old(self).lists().len() ==> (#[trigger] final(self).lists()[n]).len()
                    == old(self).lists()[n].len(),
            forall|n: int, c: int|
                0 <= n < old(self).lists().len() && 0 <= c < old(self).lists()[n].len() ==> (
                #[trigger] final(self).lists()[n][c]) == all_negative(old(self).lists()[n][c]),
    {
        let ghost before = self.data@;
        let mut k: usize = 0;
        while k < self.data.len()
            invariant
                k <= self.data@.len(),
                self.data@.len() == before.len(),
                self.indices_and_lengths == old(self).indices_and_lengths,
                forall|j: int| 0 <= j < k ==> (#[trigger] self.data@[j]) == before[j].negative(),
                forall|j: int| k <= j < before.len() ==> (#[trigger] self.data@[j]) == before[j],
            decreases self.data.len() - k,
        {
            let mut l = self.data[k];
            l.set_negative();
            self.data.set(k, l);
            k = k + 1;
        }
        proof {
            assert forall|n: int, c: int|
                0 <= n < old(self).lists().len() && 0 <= c < old(self).lists()[n].len() implies (
            #[trigger] self.lists()[n][c]) == all_negative(old(self).lists()[n][c]) by {
                let entry = self.indices_and_lengths@[n]@[c];
                assert(entry.0 + entry.1 <= before.len());
                assert(self.lists()[n][c] =~= all_negative(old(self).lists()[n][c]));
            }
        }
    }

    /// Returns, for each branch of the node `node`, the number of its free
    /// variables.
    pub fn iter_child_free_vars_lengths(&self, node: usize) -> (r: Vec<usize>)
        requires
            self.wf(),
            node < self.lists().len(),
        ensures
            r@.len() == self.lists()[node as int].len(),
            forall|c: int| 0 <= c < r@.len() ==> r@[c] == (#[trigger] self.lists()[node as int][c]).len(),
    {
        let entries = &self.indices_and_lengths[node];
        let mut out: Vec<usize> = Vec::new();
        let mut c: usize = 0;
        while c < entries.len()
            invariant
                c <= entries.len(),
                self.wf(),
                node < self.lists().len(),
                entries == self.indices_and_lengths@[node as int],
                out@.len() == c,
                forall|d: int| 0 <= d < c ==> out@[d] == (#[trigger] self.lists()[node as int][d]).len(),
            decreases entries.len() - c,
        {
            let (start, length) = entries[c];
            proof {
                assert(self.indices_and_lengths@[node as int]@[c as int].0 + length
                    <= self.data@.len());
            }
            out.push(length);
            c = c + 1;
        }
        out
    }

    /// Returns the number of branches that the node `node` has lists for.
    pub fn n_children(&self, node: usize) -> (r: usize)
        requires
            node < self.lists().len(),
        ensures
            r == self.lists()[node as int].len(),
    {
        self.indices_and_lengths[node].len()
    }

    /// Returns the number of nodes that the structure speaks of.
    pub fn n_nodes(&self) -> (r: usize)
        ensures
            r == self.lists().len(),
    {
        self.indices_and_lengths.len()
    }

    /// Returns the free variables of the branch `child_index` of the node
    /// `node`.
    #[must_use]
    pub fn child_free_vars(&self, node: usize, child_index: usize) -> (r: &[Literal])
        requires
            self.wf(),
            node < self.lists().len(),
            child_index < self.lists()[node as int].len(),
        ensures
            r@ == self.lists()[node as int][child_index as int],
    {
        let entry = self.indices_and_lengths[node][child_index];
        let start = entry.0;
        let length = entry.1;
        proof {
            assert(self.indices_and_lengths@[node as int]@[child_index as int] == entry);
            assert(start + length <= self.data.len());
        }
        vstd::slice::slice_subrange(self.data.as_slice(), start, start + length)
    }

    /// Returns the free variables of the branch `child_index` of the node
    /// `node`, so that their polarities can be changed.
    pub fn child_free_vars_mut(&mut self, node: usize, child_index: usize) -> (r: &mut [Literal])
        requires
            old(self).wf(),
            node < old(self).lists().len(),
            child_index < old(self).lists()[node as int].len(),
        ensures
            r@ == old(self).lists()[node as int][child_index as int],
    {
        let entry = self.indices_and_lengths[node][child_index];
        let start = entry.0;
        let length = entry.1;
        proof {
            assert(self.indices_and_lengths@[node as int]@[child_index as int] == entry);
            assert(start + length <= self.data.len());
        }
        let whole = self.data.as_mut_slice();
        let (_, rest) = whole.split_at_mut(start);
        let (part, _) = rest.split_at_mut(length);
        assert(part@ =~= old(self).lists()[node as int][child_index as int]);
        part
    }
}

/// Each literal of a list, made negative.
pub open spec fn all_negative(literals: Seq<Literal>) -> Seq<Literal> {
    Seq::new(literals.len(), |i: int| literals[i].negative())
}

/// The free variables of a formula: those of the root, and those of each
/// branch of each disjunction node. All are negative literals.
#[derive(Debug)]
pub struct FreeVariables {
    root_free_vars: Vec<Literal>,
    or_free_vars: OrFreeVariables,
}

impl FreeVariables {
    /// The free variables of the root.
    pub closed spec fn root(&self) -> Seq<Literal> {
        self.root_free_vars@
    }

    /// The free variables of each branch of each node.
    pub closed spec fn or_lists(&self) -> Seq<Seq<Seq<Literal>>> {
        self.or_free_vars.lists()
    }

    /// The structure is consistent.
    pub closed spec fn wf(&self) -> bool {
        self.or_free_vars.wf()
    }

    /// These are the free variables of the formula `f`.
    pub open spec fn describes(&self, f: Formula) -> bool {
        &&& self.wf()
        &&& self.root() == f.root_free_vars()
        &&& self.or_lists() == all_node_free_vars(f)
    }

    /// Computes the free variables of the given formula.
    pub fn compute(ddnnf: &DecisionDNNF) -> (r: Self)
        requires
            ddnnf@.wf(),
        ensures
            r.describes(ddnnf@),
    {
        let (or_free_vars, root_free_vars) = compute(ddnnf);
        Self { root_free_vars, or_free_vars: OrFreeVariables::build(or_free_vars) }
    }

    /// Returns the free variables of the root.
    #[must_use]
    pub fn root_free_vars(&self) -> (r: &[Literal])
        ensures
            r@ == self.root(),
    {
        self.root_free_vars.as_slice()
    }

    /// Returns the free variables of the branches of the disjunction nodes.
    #[must_use]
    pub fn or_free_vars(&self) -> (r: &OrFreeVariables)
        ensures
            r.lists() == self.or_lists(),
            self.wf() ==> r.wf(),
    {
        &self.or_free_vars
    }

    /// Returns the free variables that are left when the variables that
    /// `assumptions` fixes are taken out of each list.
    pub fn apply_assumptions(&self, assumptions: &Assumptions) -> (r: FreeVariables)
        requires
            self.wf(),
        ensures
            r.wf(),
            r.root() == unassumed(self.root(), assumptions@),
            r.or_lists().len() == self.or_lists().len(),
            forall|n: int|
                0 <= n < self.or_lists().len() ==> (#[trigger] r.or_lists()[n]).len()
                    == self.or_lists()[n].len(),
            forall|n: int, c: int|
                0 <= n < self.or_lists().len() && 0 <= c < self.or_lists()[n].len() ==> (
                #[trigger] r.or_lists()[n][c]) == unassumed(self.or_lists()[n][c], assumptions@),
    {
        let root_free_vars = keep_unassumed(self.root_free_vars.as_slice(), assumptions);
        let mut tables: Vec<Vec<Vec<Literal>>> = Vec::new();
        let n_nodes = self.or_free_vars.n_nodes();
        let mut n: usize = 0;
        while n < n_nodes
            invariant
                n <= n_nodes,
                n_nodes == self.or_lists().len(),
                self.wf(),
                tables@.len() == n,
                forall|m: int|
                    0 <= m < n ==> (#[trigger] tables@[m])@.len() == self.or_lists()[m].len(),
                forall|m: int, c: int|
                    0 <= m < n && 0 <= c < self.or_lists()[m].len() ==> (#[trigger] tables@[m]@[c])@
                        == unassumed(self.or_lists()[m][c], assumptions@),
            decreases n_nodes - n,
        {
            let n_children = self.or_free_vars.n_children(n);
            let mut lists: Vec<Vec<Literal>> = Vec::new();
            let mut c: usize = 0;
            while c < n_children
                invariant
                    c <= n_children,
                    n < n_nodes,
                    n_nodes == self.or_lists().len(),
                    n_children == self.or_lists()[n as int].len(),
                    self.wf(),
                    lists@.len() == c,
                    forall|d: int|
                        0 <= d < c ==> (#[trigger] lists@[d])@ == unassumed(
                            self.or_lists()[n as int][d],
                            assumptions@,
                        ),
                decreases n_children - c,
            {
                lists.push(keep_unassumed(self.or_free_vars.child_free_vars(n, c), assumptions));
                c = c + 1;
            }
            tables.push(lists);
            n = n + 1;
        }
        let or_free_vars = OrFreeVariables::build(tables);
        let r = FreeVariables { root_free_vars, or_free_vars };
        proof {
            assert forall|m: int, c: int|
                0 <= m < self.or_lists().len() && 0 <= c < self.or_lists()[m].len() implies (
            #[trigger] r.or_lists()[m][c]) == unassumed(self.or_lists()[m][c], assumptions@) by {
                assert(nested_tables(tables@)[m][c] == tables@[m]@[c]@);
            }
            assert forall|m: int| 0 <= m < self.or_lists().len() implies (
            #[trigger] r.or_lists()[m]).len() == self.or_lists()[m].len() by {
                assert(nested_tables(tables@)[m].len() == tables@[m]@.len());
            }
        }
        r
    }
}

/// Returns the literals of `literals` whose variable `assumptions` leaves
/// open, in the same order.
pub fn keep_unassumed(literals: &[Literal], assumptions: &Assumptions) -> (r: Vec<Literal>)
    ensures
        r@ == unassumed(literals@, assumptions@),
{
    let mut out: Vec<Literal> = Vec::new();
    let mut i: usize = 0;
    assert(literals@.take(0) =~= Seq::<Literal>::empty());
    while i < literals.len()
        invariant
            i <= literals.len(),
            out@ == unassumed(literals@.take(i as int), assumptions@),
        decreases literals.len() - i,
    {
        let l = literals[i];
        proof {
            assert(literals@.take(i + 1).drop_last() =~= literals@.take(i as int));
            assert(literals@.take(i + 1).last() == l);
        }
        let v = l.var_index();
        let assumed = v < assumptions.n_vars() && assumptions.get(v).is_some();
        if !assumed {
            out.push(l);
        }
        i = i + 1;
    }
    assert(literals@.take(i as int) =~= literals@);
    out
}

impl DecisionDNNF {
    /// Returns the free variables of this formula.
    pub fn free_vars(&self) -> (r: FreeVariables)
        requires
            self@.wf(),
        ensures
            r.describes(self@),
    {
        FreeVariables::compute(self)
    }
}

} // verus!
