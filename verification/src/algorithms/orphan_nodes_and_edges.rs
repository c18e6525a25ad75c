//! Orphans: the nodes and edges that cannot be reached from the root.

use crate::error::Error;
use crate::formula::decision_dnnf::edge_numbers;
use crate::formula::decision_dnnf::node_numbers;
use crate::formula::decision_dnnf::DecisionDNNF;
use crate::formula::decision_dnnf::Edge;
use crate::formula::decision_dnnf::EdgeModel;
use crate::formula::decision_dnnf::NodeModel;
use crate::formula::decision_dnnf::EdgeIndex;
use crate::formula::decision_dnnf::Formula;
use crate::formula::decision_dnnf::Node;
use crate::formula::decision_dnnf::NodeIndex;
use vstd::prelude::*;

verus! {

impl Formula {
    /// Whether node `n` can be reached from the root along at most `k`
    /// edges.
    pub open spec fn reachable_in(self, n: int, k: nat) -> bool
        decreases k,
    {
        n == 0 || (k > 0 && exists|m: int, i: int|
            0 <= m < self.nodes.len() && 0 <= i < self.edge_list(m).len() && #[trigger] self.child(
                m,
                i,
            ) == n && self.reachable_in(m, (k - 1) as nat))
    }

    /// Whether node `n` can be reached from the root.
    pub open spec fn reachable(self, n: int) -> bool {
        exists|k: nat| self.reachable_in(n, k)
    }

    /// Whether edge `e` leaves a node that can be reached from the root.
    pub open spec fn edge_reachable(self, e: int) -> bool {
        exists|m: int, i: int|
            0 <= m < self.nodes.len() && 0 <= i < self.edge_list(m).len() && #[trigger] self.edge_list(
                m,
            )[i] == e && self.reachable(m)
    }

    /// `rank` gives each node that can be reached from the root a number
    /// that is larger than that of each of its children.
    pub open spec fn ranked_from_root_by(self, rank: Seq<nat>) -> bool {
        &&& rank.len() == self.nodes.len()
        &&& forall|n: int, i: int|
            0 <= n < self.nodes.len() && 0 <= i < self.edge_list(n).len() && self.reachable(n)
                ==> rank[#[trigger] self.child(n, i)] < rank[n]
    }

    /// No cycle can be reached from the root.
    pub open spec fn is_dag_from_root(self) -> bool {
        exists|rank: Seq<nat>| self.ranked_from_root_by(rank)
    }

    /// The children of a node that can be reached from the root can be
    /// reached too.
    pub proof fn lemma_reachable_step(self, m: int, i: int)
        requires
            0 <= m < self.nodes.len(),
            0 <= i < self.edge_list(m).len(),
            self.reachable(m),
        ensures
            self.reachable(self.child(m, i)),
            self.edge_reachable(self.edge_list(m)[i] as int),
    {
        let k = choose|k: nat| self.reachable_in(m, k);
        assert(self.reachable_in(self.child(m, i), k + 1));
    }

    /// A graph where every node can be reached from the root, and no cycle
    /// can, has no cycle.
    pub proof fn lemma_all_reachable_dag(self)
        requires
            self.is_dag_from_root(),
            forall|n: int| 0 <= n < self.nodes.len() ==> self.reachable(n),
        ensures
            self.is_dag(),
    {
        let rank = choose|rank: Seq<nat>| self.ranked_from_root_by(rank);
        assert(self.ranked_by(rank));
    }
}

/// The number of entries of `seen` that are false.
pub open spec fn count_unseen(seen: Seq<bool>) -> nat
    decreases seen.len(),
{
    if seen.len() == 0 {
        0
    } else {
        count_unseen(seen.drop_last()) + if seen.last() {
            0nat
        } else {
            1nat
        }
    }
}

/// Marking an entry that was not marked leaves one unmarked entry less.
pub proof fn lemma_count_unseen_update(seen: Seq<bool>, i: int)
    requires
        0 <= i < seen.len(),
        !seen[i],
    ensures
        count_unseen(seen.update(i, true)) + 1 == count_unseen(seen),
    decreases seen.len(),
{
    if i == seen.len() - 1 {
        assert(seen.update(i, true).drop_last() =~= seen.drop_last());
    } else {
        lemma_count_unseen_update(seen.drop_last(), i);
        assert(seen.update(i, true).drop_last() =~= seen.drop_last().update(i, true));
    }
}

/// What holds of the marks during a search.
pub open spec fn search_inv(
    f: Formula,
    node_seen_once: Seq<bool>,
    node_seen_on_path: Seq<bool>,
    edge_seen: Seq<bool>,
    rank: Seq<nat>,
) -> bool {
    &&& node_seen_once.len() == f.nodes.len()
    &&& node_seen_on_path.len() == f.nodes.len()
    &&& edge_seen.len() == f.edges.len()
    &&& rank.len() == f.nodes.len()
    &&& forall|m: int| 0 <= m < f.nodes.len() && #[trigger] node_seen_once[m] ==> f.reachable(m)
    &&& forall|m: int|
        0 <= m < f.nodes.len() && #[trigger] node_seen_on_path[m] ==> node_seen_once[m]
    &&& forall|e: int| 0 <= e < f.edges.len() && #[trigger] edge_seen[e] ==> f.edge_reachable(e)
    &&& forall|m: int, i: int|
        0 <= m < f.nodes.len() && node_seen_once[m] && 0 <= i < f.edge_list(m).len()
            ==> edge_seen[#[trigger] f.edge_list(m)[i] as int]
    &&& forall|m: int, i: int|
        0 <= m < f.nodes.len() && node_seen_once[m] && !node_seen_on_path[m] && 0 <= i
            < f.edge_list(m).len() ==> {
            let c = #[trigger] f.child(m, i);
            &&& node_seen_once[c]
            &&& !node_seen_on_path[c]
            &&& rank[c] < rank[m]
        }
}

/// A structure that detects and removes orphan nodes and edges, that is,
/// nodes and edges that cannot be reached from the root of the
/// [`DecisionDNNF`].
pub struct OrphanFinder {
    orphan_nodes: Vec<NodeIndex>,
    orphan_edges: Vec<EdgeIndex>,
}

/// The indices below `hi` that `seen` does not mark, in increasing order.
pub open spec fn unseen_indices(seen: Seq<bool>, hi: int) -> Seq<nat>
    decreases hi,
{
    if hi <= 0 {
        Seq::empty()
    } else if seen[hi - 1] {
        unseen_indices(seen, hi - 1)
    } else {
        unseen_indices(seen, hi - 1).push((hi - 1) as nat)
    }
}

/// The marks of the nodes that can be reached from the root.
pub open spec fn reachable_nodes(f: Formula) -> Seq<bool> {
    Seq::new(f.nodes.len(), |n: int| f.reachable(n))
}

/// The marks of the edges that leave a node that can be reached from the
/// root.
pub open spec fn reachable_edges(f: Formula) -> Seq<bool> {
    Seq::new(f.edges.len(), |e: int| f.edge_reachable(e))
}

impl OrphanFinder {
    /// The orphan nodes, in increasing order.
    pub closed spec fn nodes(&self) -> Seq<nat> {
        node_numbers(self.orphan_nodes@)
    }

    /// The orphan edges, in increasing order.
    pub closed spec fn edges(&self) -> Seq<nat> {
        edge_numbers(self.orphan_edges@)
    }

    /// The orphans are those of the formula `f`: the nodes that cannot be
    /// reached from its root and the edges that leave such a node or no node.
    pub open spec fn describes(&self, f: Formula) -> bool {
        &&& self.nodes() == unseen_indices(reachable_nodes(f), f.nodes.len() as int)
        &&& self.edges() == unseen_indices(reachable_edges(f), f.edges.len() as int)
    }

    /// Searches the orphan nodes and edges.
    ///
    /// The search also detects the cycles that can be reached from the
    /// root: where there is one, an error is returned.
    pub fn search(ddnnf: &DecisionDNNF) -> (r: Result<Self, Error>)
        requires
            ddnnf@.well_indexed(),
        ensures
            r is Ok <==> ddnnf@.is_dag_from_root(),
            r matches Ok(finder) ==> finder.describes(ddnnf@),
            r matches Err(e) ==> e == Error::CycleDetected,
    {
        let ghost f = ddnnf@;
        let mut node_seen_once = new_marks(ddnnf.n_nodes());
        let mut node_seen_on_path = new_marks(ddnnf.n_nodes());
        let mut edge_seen_once = new_marks(ddnnf.n_edges());
        let mut rank: Ghost<Seq<nat>> = Ghost(Seq::new(f.nodes.len(), |n: int| 0nat));
        proof {
            assert(f.reachable_in(0, 0));
        }
        let found = Self::search_from(
            ddnnf,
            &mut node_seen_once,
            &mut node_seen_on_path,
            &mut edge_seen_once,
            NodeIndex(0),
            &mut rank,
        );
        match found {
            Err(e) => Err(e),
            Ok(()) => {
                proof {
                    lemma_search_complete(
                        f,
                        node_seen_once@,
                        node_seen_on_path@,
                        edge_seen_once@,
                        rank@,
                    );
                    assert(node_seen_once@ =~= reachable_nodes(f));
                    assert(edge_seen_once@ =~= reachable_edges(f));
                    assert(f.ranked_from_root_by(rank@));
                }
                let orphan_nodes = Self::unseen_nodes(&node_seen_once);
                let orphan_edges = Self::unseen_edges(&edge_seen_once);
                Ok(Self { orphan_nodes, orphan_edges })
            },
        }
    }

    /// Returns the indices that `seen` does not mark, as node indices in
    /// increasing order.
    fn unseen_nodes(seen: &Vec<bool>) -> (r: Vec<NodeIndex>)
        ensures
            node_numbers(r@) == unseen_indices(seen@, seen@.len() as int),
    {
        let mut out: Vec<NodeIndex> = Vec::new();
        let mut i: usize = 0;
        assert(node_numbers(out@) =~= unseen_indices(seen@, 0));
        while i < seen.len()
            invariant
                i <= seen.len(),
                node_numbers(out@) == unseen_indices(seen@, i as int),
            decreases seen.len() - i,
        {
            if !seen[i] {
                let ghost before = out@;
                out.push(NodeIndex(i));
                assert(node_numbers(out@) =~= node_numbers(before).push(i as nat));
            }
            i = i + 1;
        }
        out
    }

    /// Returns the indices that `seen` does not mark, as edge indices in
    /// increasing order.
    fn unseen_edges(seen: &Vec<bool>) -> (r: Vec<EdgeIndex>)
        ensures
            edge_numbers(r@) == unseen_indices(seen@, seen@.len() as int),
    {
        let mut out: Vec<EdgeIndex> = Vec::new();
        let mut i: usize = 0;
        assert(edge_numbers(out@) =~= unseen_indices(seen@, 0));
        while i < seen.len()
            invariant
                i <= seen.len(),
                edge_numbers(out@) == unseen_indices(seen@, i as int),
            decreases seen.len() - i,
        {
            if !seen[i] {
                let ghost before = out@;
                out.push(EdgeIndex(i));
                assert(edge_numbers(out@) =~= edge_numbers(before).push(i as nat));
            }
            i = i + 1;
        }
        out
    }

    /// Marks the node `node_index` and what can be reached from it, unless
    /// the node was marked before. A node that is met again while the search
    /// is below it closes a cycle.
    #[verifier::loop_isolation(false)]
    fn search_from(
        ddnnf: &DecisionDNNF,
        node_seen_once: &mut Vec<bool>,
        node_seen_on_path: &mut Vec<bool>,
        edge_seen: &mut Vec<bool>,
        node_index: NodeIndex,
        rank: &mut Ghost<Seq<nat>>,
    ) -> (r: Result<(), Error>)
        requires
            ddnnf@.well_indexed(),
            node_index.0 < ddnnf@.nodes.len(),
            ddnnf@.reachable(node_index.0 as int),
            search_inv(
                ddnnf@,
                old(node_seen_once)@,
                old(node_seen_on_path)@,
                old(edge_seen)@,
                old(rank)@,
            ),
            forall|order: Seq<nat>, p: int|
                #![trigger order[p]]
                ddnnf@.ranked_from_root_by(order) && 0 <= p < ddnnf@.nodes.len() && old(node_seen_on_path)@[p] ==> order[node_index.0 as int] < order[p],
        ensures
            r matches Err(e) ==> e == Error::CycleDetected && !ddnnf@.is_dag_from_root(),
            r is Ok ==> {
                &&& search_inv(
                    ddnnf@,
                    final(node_seen_once)@,
                    final(node_seen_on_path)@,
                    final(edge_seen)@,
                    final(rank)@,
                )
                &&& final(node_seen_on_path)@ == old(node_seen_on_path)@
                &&& final(node_seen_once)@[node_index.0 as int]
                &&& !final(node_seen_on_path)@[node_index.0 as int]
                &&& forall|m: int|
                    0 <= m < ddnnf@.nodes.len() && old(node_seen_once)@[m] ==> #[trigger] final(node_seen_once)@[m]
                &&& forall|m: int|
                    0 <= m < ddnnf@.nodes.len() && old(node_seen_once)@[m] && !old(node_seen_on_path)@[m] ==> #[trigger] final(rank)@[m] == old(rank)@[m]
                &&& count_unseen(final(node_seen_once)@) <= count_unseen(old(node_seen_once)@)
            },
        decreases count_unseen(old(node_seen_once)@),
    {
        let ghost f = ddnnf@;
        let ghost n = node_index.0 as int;
        if node_seen_on_path[node_index.0] {
            proof {
                assert forall|order: Seq<nat>| !f.ranked_from_root_by(order) by {
                    if f.ranked_from_root_by(order) {
                        assert(order[n] < order[n]);
                    }
                }
            }
            return Err(Error::CycleDetected);
        }
        if node_seen_once[node_index.0] {
            return Ok(());
        }
        let ghost seen_at_entry = node_seen_once@;
        let ghost path_at_entry = node_seen_on_path@;
        let ghost rank_at_entry = rank@;
        let edges = ddnnf.node(node_index).edge_indices();
        let mut k: usize = 0;
        while k < edges.len()
            invariant
                k <= edges.len(),
                edge_seen@.len() == f.edges.len(),
                node_seen_once@ == seen_at_entry,
                node_seen_on_path@ == path_at_entry,
                rank@ == rank_at_entry,
                forall|e: int| 0 <= e < f.edges.len() && #[trigger] edge_seen@[e] ==> f.edge_reachable(
                    e,
                ),
                forall|e: int|
                    0 <= e < f.edges.len() && old(edge_seen)@[e] ==> #[trigger] edge_seen@[e],
                forall|i: int| 0 <= i < k ==> edge_seen@[#[trigger] f.edge_list(n)[i] as int],
            decreases edges.len() - k,
        {
            proof {
                f.lemma_reachable_step(n, k as int);
                assert(f.edge_list(n)[k as int] < f.edges.len());
            }
            edge_seen.set(edges[k].0, true);
            k = k + 1;
        }
        node_seen_on_path.set(node_index.0, true);
        node_seen_once.set(node_index.0, true);
        proof {
            lemma_count_unseen_update(seen_at_entry, n);
        }
        let ghost mut top: nat = 0;
        let mut i: usize = 0;
        while i < edges.len()
            invariant
                i <= edges.len(),
                search_inv(f, node_seen_once@, node_seen_on_path@, edge_seen@, rank@),
                node_seen_on_path@ == path_at_entry.update(n, true),
                node_seen_once@[n],
                forall|m: int|
                    0 <= m < f.nodes.len() && seen_at_entry[m] ==> #[trigger] node_seen_once@[m],
                forall|m: int|
                    0 <= m < f.nodes.len() && seen_at_entry[m] && !path_at_entry[m]
                        ==> #[trigger] rank@[m] == rank_at_entry[m],
                count_unseen(node_seen_once@) + 1 <= count_unseen(seen_at_entry),
                forall|j: int|
                    0 <= j < i ==> {
                        let c = #[trigger] f.child(n, j);
                        &&& node_seen_once@[c]
                        &&& !node_seen_on_path@[c]
                        &&& rank@[c] < top
                    },
            decreases edges.len() - i,
        {
            proof {
                f.lemma_reachable_step(n, i as int);
                assert(f.edge_list(n)[i as int] < f.edges.len());
                assert(f.edges[f.edge_list(n)[i as int] as int].target < f.nodes.len());
            }
            let target = ddnnf.edge(edges[i]).target();
            let ghost c = f.child(n, i as int);
            assert(target.0 == c);
            proof {
                assert forall|order: Seq<nat>, p: int|
                    #![trigger order[p]]
                    f.ranked_from_root_by(order) && 0 <= p < f.nodes.len()
                        && node_seen_on_path@[p] implies order[c] < order[p] by {
                    assert(order[c] < order[n]);
                    if p != n {
                        assert(path_at_entry[p]);
                        assert(order[n] < order[p]);
                    }
                }
            }
            let ghost seen_before = node_seen_once@;
            let ghost path_before = node_seen_on_path@;
            let ghost rank_before = rank@;
            match Self::search_from(
                ddnnf,
                node_seen_once,
                node_seen_on_path,
                edge_seen,
                target,
                rank,
            ) {
                Err(e) => {
                    return Err(e);
                },
                Ok(()) => {},
            }
            proof {
                let old_top = top;
                top = if rank@[c] < top {
                    top
                } else {
                    rank@[c] + 1
                };
                assert forall|j: int| 0 <= j < i + 1 implies {
                    let d = #[trigger] f.child(n, j);
                    &&& node_seen_once@[d]
                    &&& !node_seen_on_path@[d]
                    &&& rank@[d] < top
                } by {
                    if j < i {
                        let d = f.child(n, j);
                        assert(seen_before[d] && !path_before[d] && rank_before[d] < old_top);
                        assert(rank@[d] == rank_before[d]);
                    }
                }
                assert forall|m: int|
                    0 <= m < f.nodes.len() && seen_at_entry[m] && !path_at_entry[m] implies (
                #[trigger] rank@[m]) == rank_at_entry[m] by {
                    assert(seen_before[m]);
                    assert(!path_before[m]);
                }
            }
            i = i + 1;
        }
        node_seen_on_path.set(node_index.0, false);
        proof {
            let before = rank@;
            rank@ = rank@.update(n, top);
            assert(node_seen_on_path@ =~= path_at_entry);
            assert forall|m: int, j: int|
                0 <= m < f.nodes.len() && node_seen_once@[m] && !node_seen_on_path@[m] && 0 <= j
                    < f.edge_list(m).len() implies {
                let c = #[trigger] f.child(m, j);
                &&& node_seen_once@[c]
                &&& !node_seen_on_path@[c]
                &&& rank@[c] < rank@[m]
            } by {
                let c = f.child(m, j);
                if m == n {
                    assert(before[c] < top);
                    assert(c != n);
                } else {
                    assert(!path_at_entry.update(n, true)[m]);
                    assert(c != n);
                }
            }
        }
        Ok(())
    }

    /// Removes the orphan nodes and edges from the formula: what is left
    /// keeps its order, and each index moves down by the number of orphans
    /// that were before it.
    #[verifier::loop_isolation(false)]
    pub fn remove_from_formula(&self, ddnnf: &mut DecisionDNNF)
        requires
            old(ddnnf)@.well_indexed(),
            self.describes(old(ddnnf)@),
        ensures
            final(ddnnf)@.n_vars == old(ddnnf)@.n_vars,
            final(ddnnf)@.nodes.len() + self.nodes().len() == old(ddnnf)@.nodes.len(),
            final(ddnnf)@.edges.len() + self.edges().len() == old(ddnnf)@.edges.len(),
            forall|n: int|
                #![trigger moved_down(orphan_node_marks(old(ddnnf)@), n)]
                0 <= n < old(ddnnf)@.nodes.len() && old(ddnnf)@.reachable(n) ==> 0 <= moved_down(
                    orphan_node_marks(old(ddnnf)@),
                    n,
                ) < final(ddnnf)@.nodes.len() && final(ddnnf)@.nodes[moved_down(
                    orphan_node_marks(old(ddnnf)@),
                    n,
                )] == moved_node(old(ddnnf)@.nodes[n], orphan_edge_marks(old(ddnnf)@)),
            forall|e: int|
                #![trigger moved_down(orphan_edge_marks(old(ddnnf)@), e)]
                0 <= e < old(ddnnf)@.edges.len() && old(ddnnf)@.edge_reachable(e) ==> 0
                    <= moved_down(orphan_edge_marks(old(ddnnf)@), e) < final(ddnnf)@.edges.len()
                    && final(ddnnf)@.edges[moved_down(orphan_edge_marks(old(ddnnf)@), e)]
                    == (EdgeModel {
                    target: moved_down(
                        orphan_node_marks(old(ddnnf)@),
                        old(ddnnf)@.edges[e].target as int,
                    ) as nat,
                    propagated: old(ddnnf)@.edges[e].propagated,
                }),
    {
        let ghost f = ddnnf@;
        let ghost marks = orphan_node_marks(f);
        let ghost edge_marks = orphan_edge_marks(f);
        let n_nodes = ddnnf.n_nodes();
        let n_edges = ddnnf.n_edges();
        let node_is_orphan = Self::marks_from_nodes(&self.orphan_nodes, n_nodes);
        let edge_is_orphan = Self::marks_from_edges(&self.orphan_edges, n_edges);
        proof {
            lemma_unseen_members(reachable_nodes(f), f.nodes.len() as int);
            lemma_unseen_members(reachable_edges(f), f.edges.len() as int);
            assert(node_is_orphan@ =~= marks) by {
                assert forall|i: int| 0 <= i < n_nodes implies node_is_orphan@[i] == marks[i] by {
                    if node_is_orphan@[i] {
                        let k = choose|k: int|
                            0 <= k < self.orphan_nodes@.len() && (
                            #[trigger] self.orphan_nodes@[k]).0 == i;
                        assert(self.nodes()[k] == i);
                        assert(self.nodes().contains(i as nat));
                    }
                    if marks[i] {
                        assert(self.nodes().contains(i as nat));
                        let k = choose|k: int| 0 <= k < self.nodes().len() && self.nodes()[k] == i;
                        assert(self.orphan_nodes@[k].0 == i);
                    }
                }
            }
            assert(edge_is_orphan@ =~= edge_marks) by {
                assert forall|i: int| 0 <= i < n_edges implies edge_is_orphan@[i]
                    == edge_marks[i] by {
                    if edge_is_orphan@[i] {
                        let k = choose|k: int|
                            0 <= k < self.orphan_edges@.len() && (
                            #[trigger] self.orphan_edges@[k]).0 == i;
                        assert(self.edges()[k] == i);
                        assert(self.edges().contains(i as nat));
                    }
                    if edge_marks[i] {
                        assert(self.edges().contains(i as nat));
                        let k = choose|k: int| 0 <= k < self.edges().len() && self.edges()[k] == i;
                        assert(self.orphan_edges@[k].0 == i);
                    }
                }
            }
            lemma_unseen_count(reachable_nodes(f), f.nodes.len() as int);
            lemma_unseen_count(reachable_edges(f), f.edges.len() as int);
        }
        let node_shift = shifts(&node_is_orphan);
        let edge_shift = shifts(&edge_is_orphan);
        let mut edges: Vec<Edge> = Vec::new();
        let mut e: usize = 0;
        while e < n_edges
            invariant
                e <= n_edges,
                edges@.len() == moved_down(edge_marks, e as int),
                forall|d: int|
                    #![trigger moved_down(edge_marks, d)]
                    0 <= d < e && !edge_marks[d] ==> 0 <= moved_down(edge_marks, d) < edges@.len()
                        && edges@[moved_down(edge_marks, d)]@ == (EdgeModel {
                        target: moved_down(marks, f.edges[d].target as int) as nat,
                        propagated: f.edges[d].propagated,
                    }),
            decreases n_edges - e,
        {
            proof {
                lemma_moved_down(edge_marks, e as int, e + 1);
                assert forall|d: int| 0 <= d < e && !edge_marks[d] implies 0 <= moved_down(
                    edge_marks,
                    d,
                ) < moved_down(edge_marks, e as int) by {
                    lemma_moved_down(edge_marks, d, e as int);
                }
            }
            if !edge_is_orphan[e] {
                let edge = ddnnf.edge(crate::formula::decision_dnnf::EdgeIndex(e));
                let target = edge.target().0;
                proof {
                    assert(f.edges[e as int].target < f.nodes.len());
                    lemma_moved_down(marks, target as int, f.nodes.len() as int);
                }
                let moved = target - node_shift[target];
                edges.push(
                    Edge::from_raw_data(
                        NodeIndex(moved),
                        vstd::slice::slice_to_vec(edge.propagated()),
                    ),
                );
            }
            e = e + 1;
        }
        let mut nodes: Vec<Node> = Vec::new();
        let mut n: usize = 0;
        while n < n_nodes
            invariant
                n <= n_nodes,
                nodes@.len() == moved_down(marks, n as int),
                forall|m: int|
                    #![trigger moved_down(marks, m)]
                    0 <= m < n && !marks[m] ==> 0 <= moved_down(marks, m) < nodes@.len()
                        && nodes@[moved_down(marks, m)]@ == moved_node(f.nodes[m], edge_marks),
            decreases n_nodes - n,
        {
            proof {
                lemma_moved_down(marks, n as int, n + 1);
                assert forall|m: int| 0 <= m < n && !marks[m] implies 0 <= moved_down(marks, m)
                    < moved_down(marks, n as int) by {
                    lemma_moved_down(marks, m, n as int);
                }
            }
            if !node_is_orphan[n] {
                let node = match ddnnf.node(NodeIndex(n)) {
                    Node::And(items) => Node::And(
                        Self::moved_edges(items, &edge_shift, Ghost(edge_marks), Ghost(f), Ghost(n as int)),
                    ),
                    Node::Or(items) => Node::Or(
                        Self::moved_edges(items, &edge_shift, Ghost(edge_marks), Ghost(f), Ghost(n as int)),
                    ),
                    Node::True => Node::True,
                    Node::False => Node::False,
                };
                proof {
                    assert(node@ == moved_node(f.nodes[n as int], edge_marks)) by {
                        match f.nodes[n as int] {
                            NodeModel::And(es) => {
                                assert(node@->And_0 =~= moved_node(
                                    f.nodes[n as int],
                                    edge_marks,
                                )->And_0);
                            },
                            NodeModel::Or(es) => {
                                assert(node@->Or_0 =~= moved_node(
                                    f.nodes[n as int],
                                    edge_marks,
                                )->Or_0);
                            },
                            _ => {},
                        }
                    }
                }
                nodes.push(node);
            }
            n = n + 1;
        }
        let n_vars = ddnnf.n_vars();
        *ddnnf = DecisionDNNF::from_raw_data(n_vars, nodes, edges);
        proof {
            assert forall|m: int| 0 <= m < f.nodes.len() && f.reachable(m) implies 0 <= moved_down(
                marks,
                m,
            ) < ddnnf@.nodes.len() by {
                lemma_moved_down(marks, m, f.nodes.len() as int);
            }
            assert forall|d: int| 0 <= d < f.edges.len() && f.edge_reachable(d) implies 0
                <= moved_down(edge_marks, d) < ddnnf@.edges.len() by {
                lemma_moved_down(edge_marks, d, f.edges.len() as int);
            }
        }
    }

    /// Returns the marks of the orphan nodes among `n` nodes.
    fn marks_from_nodes(orphans: &Vec<NodeIndex>, n: usize) -> (r: Vec<bool>)
        ensures
            r@.len() == n,
            forall|i: int|
                0 <= i < n ==> (#[trigger] r@[i] <==> exists|k: int|
                    0 <= k < orphans@.len() && (#[trigger] orphans@[k]).0 == i),
    {
        let mut marks = new_marks(n);
        let mut k: usize = 0;
        while k < orphans.len()
            invariant
                k <= orphans.len(),
                marks@.len() == n,
                forall|i: int|
                    0 <= i < n ==> (#[trigger] marks@[i] <==> exists|j: int|
                        0 <= j < k && (#[trigger] orphans@[j]).0 == i),
            decreases orphans.len() - k,
        {
            let index = orphans[k].0;
            let ghost before = marks@;
            if index < n {
                marks.set(index, true);
            }
            proof {
                assert forall|i: int| 0 <= i < n implies (#[trigger] marks@[i] <==> exists|j: int|
                    0 <= j < k + 1 && (#[trigger] orphans@[j]).0 == i) by {
                    if before[i] {
                        let j = choose|j: int| 0 <= j < k && (#[trigger] orphans@[j]).0 == i;
                        assert(0 <= j < k + 1 && orphans@[j].0 == i);
                    }
                    if i == index {
                        assert(orphans@[k as int].0 == i);
                    }
                }
            }
            k = k + 1;
        }
        marks
    }

    /// Returns the marks of the orphan edges among `n` edges.
    fn marks_from_edges(orphans: &Vec<EdgeIndex>, n: usize) -> (r: Vec<bool>)
        ensures
            r@.len() == n,
            forall|i: int|
                0 <= i < n ==> (#[trigger] r@[i] <==> exists|k: int|
                    0 <= k < orphans@.len() && (#[trigger] orphans@[k]).0 == i),
    {
        let mut marks = new_marks(n);
        let mut k: usize = 0;
        while k < orphans.len()
            invariant
                k <= orphans.len(),
                marks@.len() == n,
                forall|i: int|
                    0 <= i < n ==> (#[trigger] marks@[i] <==> exists|j: int|
                        0 <= j < k && (#[trigger] orphans@[j]).0 == i),
            decreases orphans.len() - k,
        {
            let index = orphans[k].0;
            let ghost before = marks@;
            if index < n {
                marks.set(index, true);
            }
            proof {
                assert forall|i: int| 0 <= i < n implies (#[trigger] marks@[i] <==> exists|j: int|
                    0 <= j < k + 1 && (#[trigger] orphans@[j]).0 == i) by {
                    if before[i] {
                        let j = choose|j: int| 0 <= j < k && (#[trigger] orphans@[j]).0 == i;
                        assert(0 <= j < k + 1 && orphans@[j].0 == i);
                    }
                    if i == index {
                        assert(orphans@[k as int].0 == i);
                    }
                }
            }
            k = k + 1;
        }
        marks
    }

    /// Returns the edges of a node that stays, renumbered.
    fn moved_edges(
        items: &Vec<EdgeIndex>,
        edge_shift: &Vec<usize>,
        Ghost(edge_marks): Ghost<Seq<bool>>,
        Ghost(f): Ghost<Formula>,
        Ghost(n): Ghost<int>,
    ) -> (r: Vec<EdgeIndex>)
        requires
            f.well_indexed(),
            0 <= n < f.nodes.len(),
            edge_numbers(items@) == f.edge_list(n),
            edge_marks.len() == f.edges.len(),
            edge_shift@.len() == f.edges.len() + 1,
            forall|i: int|
                0 <= i <= f.edges.len() ==> (#[trigger] edge_shift@[i]) == count_marked(
                    edge_marks,
                    i,
                ),
        ensures
            edge_numbers(r@) == Seq::new(
                items@.len(),
                |i: int| moved_down(edge_marks, items@[i].0 as int) as nat,
            ),
    {
        let mut out: Vec<EdgeIndex> = Vec::new();
        let mut i: usize = 0;
        while i < items.len()
            invariant
                i <= items.len(),
                f.well_indexed(),
                0 <= n < f.nodes.len(),
                edge_numbers(items@) == f.edge_list(n),
                edge_marks.len() == f.edges.len(),
                edge_shift@.len() == f.edges.len() + 1,
                forall|j: int|
                    0 <= j <= f.edges.len() ==> (#[trigger] edge_shift@[j]) == count_marked(
                        edge_marks,
                        j,
                    ),
                out@.len() == i,
                forall|j: int|
                    0 <= j < i ==> (#[trigger] out@[j]).0 == moved_down(
                        edge_marks,
                        items@[j].0 as int,
                    ),
            decreases items.len() - i,
        {
            let e = items[i].0;
            proof {
                assert(f.edge_list(n)[i as int] == e);
                assert(e < f.edges.len());
                lemma_count_marked_bound(edge_marks, e as int);
            }
            out.push(EdgeIndex(e - edge_shift[e]));
            i = i + 1;
        }
        proof {
            assert(edge_numbers(out@) =~= Seq::new(
                items@.len(),
                |i: int| moved_down(edge_marks, items@[i].0 as int) as nat,
            ));
        }
        out
    }

    /// Returns a slice of the indices of the orphan nodes.
    #[must_use]
    pub fn orphans_nodes(&self) -> (r: &[NodeIndex])
        ensures
            node_numbers(r@) == self.nodes(),
    {
        self.orphan_nodes.as_slice()
    }

    /// Returns a slice of the indices of the orphan edges.
    #[must_use]
    pub fn orphans_edges(&self) -> (r: &[EdgeIndex])
        ensures
            edge_numbers(r@) == self.edges(),
    {
        self.orphan_edges.as_slice()
    }
}

/// The marks of the nodes of `f` that cannot be reached from the root.
pub open spec fn orphan_node_marks(f: Formula) -> Seq<bool> {
    not_all(reachable_nodes(f))
}

/// The marks of the edges of `f` that leave no node that can be reached
/// from the root.
pub open spec fn orphan_edge_marks(f: Formula) -> Seq<bool> {
    not_all(reachable_edges(f))
}

/// The marks that are set where those of `marks` are not.
pub open spec fn not_all(marks: Seq<bool>) -> Seq<bool> {
    Seq::new(marks.len(), |i: int| !marks[i])
}

/// The list of the unmarked indices holds the unmarked indices and no
/// other.
pub proof fn lemma_unseen_members(seen: Seq<bool>, hi: int)
    requires
        0 <= hi <= seen.len(),
    ensures
        forall|i: nat|
            #[trigger] unseen_indices(seen, hi).contains(i) <==> (i < hi && !seen[i as int]),
    decreases hi,
{
    if hi > 0 {
        lemma_unseen_members(seen, hi - 1);
        let rest = unseen_indices(seen, hi - 1);
        let all = unseen_indices(seen, hi);
        assert forall|i: nat| #[trigger] all.contains(i) <==> (i < hi && !seen[i as int]) by {
            if all.contains(i) {
                let k = choose|k: int| 0 <= k < all.len() && all[k] == i;
                if k < rest.len() {
                    assert(rest[k] == i);
                    assert(rest.contains(i));
                } else {
                    assert(!seen[hi - 1]);
                    assert(i == hi - 1);
                }
            }
            if i < hi && !seen[i as int] {
                if i == hi - 1 {
                    assert(all[rest.len() as int] == i);
                } else {
                    assert(rest.contains(i));
                    let k = choose|k: int| 0 <= k < rest.len() && rest[k] == i;
                    assert(all[k] == i);
                }
            }
        }
    }
}

/// There are as many unmarked indices in the list as there are marks that
/// are not set.
pub proof fn lemma_unseen_count(seen: Seq<bool>, hi: int)
    requires
        0 <= hi <= seen.len(),
    ensures
        unseen_indices(seen, hi).len() == count_marked(not_all(seen), hi),
    decreases hi,
{
    if hi > 0 {
        lemma_unseen_count(seen, hi - 1);
    }
}

/// The number of marks that are set among the first `hi`.
pub open spec fn count_marked(marks: Seq<bool>, hi: int) -> nat
    decreases hi,
{
    if hi <= 0 {
        0
    } else {
        count_marked(marks, hi - 1) + if marks[hi - 1] {
            1nat
        } else {
            0nat
        }
    }
}

/// The index that `i` has once the marked indices are taken out and the
/// others moved down.
pub open spec fn moved_down(marks: Seq<bool>, i: int) -> int {
    i - count_marked(marks, i)
}

/// Fewer indices are marked among the first ones than there are indices,
/// and an index does not move below one that is before it.
pub proof fn lemma_moved_down(marks: Seq<bool>, a: int, b: int)
    requires
        0 <= a <= b <= marks.len(),
    ensures
        0 <= moved_down(marks, a) <= moved_down(marks, b),
        a < b && !marks[a] ==> moved_down(marks, a) < moved_down(marks, b),
    decreases b,
{
    if a < b {
        lemma_moved_down(marks, a, b - 1);
    } else {
        lemma_count_marked_bound(marks, a);
    }
}

/// No more indices are marked among the first ones than there are.
pub proof fn lemma_count_marked_bound(marks: Seq<bool>, hi: int)
    requires
        0 <= hi,
    ensures
        count_marked(marks, hi) <= hi,
    decreases hi,
{
    if hi > 0 {
        lemma_count_marked_bound(marks, hi - 1);
    }
}

/// A node with its edges renumbered as `marks` moves them.
pub open spec fn moved_node(node: NodeModel, marks: Seq<bool>) -> NodeModel {
    match node {
        NodeModel::And(es) => NodeModel::And(
            Seq::new(es.len(), |i: int| moved_down(marks, es[i] as int) as nat),
        ),
        NodeModel::Or(es) => NodeModel::Or(
            Seq::new(es.len(), |i: int| moved_down(marks, es[i] as int) as nat),
        ),
        NodeModel::True => NodeModel::True,
        NodeModel::False => NodeModel::False,
    }
}

/// Returns the number of marked indices before each index and before the
/// end.
fn shifts(marked: &Vec<bool>) -> (r: Vec<usize>)
    ensures
        r@.len() == marked@.len() + 1,
        forall|i: int| 0 <= i <= marked@.len() ==> (#[trigger] r@[i]) == count_marked(marked@, i),
{
    let mut out: Vec<usize> = Vec::new();
    out.push(0);
    let mut i: usize = 0;
    while i < marked.len()
        invariant
            i <= marked.len(),
            out@.len() == i + 1,
            forall|j: int| 0 <= j <= i ==> (#[trigger] out@[j]) == count_marked(marked@, j),
        decreases marked.len() - i,
    {
        proof {
            lemma_count_marked_bound(marked@, i as int);
        }
        let before = out[i];
        out.push(if marked[i] {
            before + 1
        } else {
            before
        });
        i = i + 1;
    }
    out
}

/// Returns `n` marks, none of them set.
pub fn new_marks(n: usize) -> (r: Vec<bool>)
    ensures
        r@.len() == n,
        forall|i: int| 0 <= i < n ==> !#[trigger] r@[i],
{
    let mut marks: Vec<bool> = Vec::new();
    let mut i: usize = 0;
    while i < n
        invariant
            i <= n,
            marks@.len() == i,
            forall|j: int| 0 <= j < i ==> !#[trigger] marks@[j],
        decreases n - i,
    {
        marks.push(false);
        i = i + 1;
    }
    marks
}

/// Once a search from the root is over, the marked nodes are those that can
/// be reached from the root, and the marked edges are those that leave
/// them.
pub proof fn lemma_search_complete(
    f: Formula,
    node_seen_once: Seq<bool>,
    node_seen_on_path: Seq<bool>,
    edge_seen: Seq<bool>,
    rank: Seq<nat>,
)
    requires
        f.well_indexed(),
        search_inv(f, node_seen_once, node_seen_on_path, edge_seen, rank),
        node_seen_once[0],
        forall|m: int| 0 <= m < f.nodes.len() ==> !#[trigger] node_seen_on_path[m],
    ensures
        forall|m: int| 0 <= m < f.nodes.len() ==> (#[trigger] node_seen_once[m] <==> f.reachable(m)),
        forall|e: int| 0 <= e < f.edges.len() ==> (#[trigger] edge_seen[e] <==> f.edge_reachable(e)),
        f.ranked_from_root_by(rank),
{
    assert forall|m: int| 0 <= m < f.nodes.len() && f.reachable(m) implies #[trigger] node_seen_once[m] by {
        let k = choose|k: nat| f.reachable_in(m, k);
        lemma_reachable_seen(f, node_seen_once, node_seen_on_path, edge_seen, rank, m, k);
    }
    assert forall|e: int| 0 <= e < f.edges.len() && f.edge_reachable(e) implies #[trigger] edge_seen[e] by {
        let (m, i) = choose|m: int, i: int|
            0 <= m < f.nodes.len() && 0 <= i < f.edge_list(m).len() && #[trigger] f.edge_list(m)[i]
                == e && f.reachable(m);
        assert(node_seen_once[m]);
    }
    assert forall|n: int, i: int|
        0 <= n < f.nodes.len() && 0 <= i < f.edge_list(n).len() && f.reachable(n) implies rank[
    #[trigger] f.child(n, i)] < rank[n] by {
        assert(node_seen_once[n]);
        assert(!node_seen_on_path[n]);
    }
}

/// Once a search from the root is over, a node that can be reached is
/// marked.
pub proof fn lemma_reachable_seen(
    f: Formula,
    node_seen_once: Seq<bool>,
    node_seen_on_path: Seq<bool>,
    edge_seen: Seq<bool>,
    rank: Seq<nat>,
    n: int,
    k: nat,
)
    requires
        f.well_indexed(),
        search_inv(f, node_seen_once, node_seen_on_path, edge_seen, rank),
        node_seen_once[0],
        forall|m: int| 0 <= m < f.nodes.len() ==> !#[trigger] node_seen_on_path[m],
        0 <= n < f.nodes.len(),
        f.reachable_in(n, k),
    ensures
        node_seen_once[n],
    decreases k,
{
    if n != 0 {
        let (m, i) = choose|m: int, i: int|
            0 <= m < f.nodes.len() && 0 <= i < f.edge_list(m).len() && #[trigger] f.child(m, i)
                == n && f.reachable_in(m, (k - 1) as nat);
        lemma_reachable_seen(
            f,
            node_seen_once,
            node_seen_on_path,
            edge_seen,
            rank,
            m,
            (k - 1) as nat,
        );
        assert(node_seen_once[m] && !node_seen_on_path[m]);
        assert(node_seen_once[f.child(m, i)]);
    }
}

} // verus!
