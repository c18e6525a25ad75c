//! What a state shows in a region stays shown where the state changes off
//! the region.

use crate::algorithms::counting::Query;
use crate::algorithms::direct_access::write_all;
use crate::algorithms::direct_access::write_free;
use crate::algorithms::direct_access::Trace;
use crate::algorithms::model_enumerator::lemma_propagated_in_range;
use crate::formula::decision_dnnf::Formula;
use crate::formula::decision_dnnf::NodeModel;
use crate::formula::involved_vars::literal_vars;
use crate::laws::regions::lemma_write_all_stable;
use crate::laws::regions::lemma_write_free_stable;
use vstd::arithmetic::power2::pow2;
use vstd::prelude::*;

verus! {

impl Formula {
    /// Whether two states are the same in the region of the `k`-th branch
    /// of node `n`: for the variables of the branch and for the disjunction
    /// nodes below its target.
    pub open spec fn same_on_branch(self, n: int, k: int, a: Trace, b: Trace) -> bool {
        &&& a.model.len() == b.model.len()
        &&& a.graph.len() == b.graph.len()
        &&& forall|v: int|
            0 <= v < a.model.len() && self.branch_vars(n, k).contains(v as nat) ==> (
            #[trigger] a.model[v]) == b.model[v]
        &&& forall|m: int|
            0 <= m < a.graph.len() && self.nodes[m] is Or && self.below(m, self.child(n, k)) ==> (
            #[trigger] a.graph[m]) == b.graph[m]
    }

    /// Whether two states are the same off the region of the `k`-th branch
    /// of node `n`.
    pub open spec fn off_branch(self, n: int, k: int, a: Trace, b: Trace) -> bool {
        &&& a.model.len() == b.model.len()
        &&& a.graph.len() == b.graph.len()
        &&& forall|v: int|
            0 <= v < a.model.len() && !self.branch_vars(n, k).contains(v as nat) ==> (
            #[trigger] a.model[v]) == b.model[v]
        &&& forall|m: int|
            0 <= m < a.graph.len() && self.nodes[m] is Or && !self.below(m, self.child(n, k)) ==> (
            #[trigger] a.graph[m]) == b.graph[m]
    }

    /// Whether two states are the same off the regions of the first `i`
    /// branches of node `n`.
    pub open spec fn off_branches(self, n: int, i: int, a: Trace, b: Trace) -> bool {
        &&& a.model.len() == b.model.len()
        &&& a.graph.len() == b.graph.len()
        &&& forall|v: int|
            0 <= v < a.model.len() && (forall|k: int|
                0 <= k < i ==> !(#[trigger] self.branch_vars(n, k)).contains(v as nat)) ==> (
            #[trigger] a.model[v]) == b.model[v]
        &&& forall|m: int|
            0 <= m < a.graph.len() && self.nodes[m] is Or && (forall|k: int|
                0 <= k < i ==> !self.below(m, #[trigger] self.child(n, k))) ==> (
            #[trigger] a.graph[m]) == b.graph[m]
    }

    /// Two states that are the same in the region of a node are the same in
    /// the region of each of its branches.
    pub proof fn lemma_same_on_branch(self, n: int, k: int, a: Trace, b: Trace)
        requires
            self.wf(),
            0 <= n < self.nodes.len(),
            0 <= k < self.edge_list(n).len(),
            self.same_on(n, a, b),
        ensures
            self.same_on_branch(n, k, a, b),
    {
        self.lemma_child_below(n, k);
        assert forall|m: int|
            0 <= m < a.graph.len() && self.nodes[m] is Or && self.below(
                m,
                self.child(n, k),
            ) implies (#[trigger] a.graph[m]) == b.graph[m] by {
            self.lemma_below_trans(m, self.child(n, k), n);
        }
    }

    /// Two states that are the same in the region of a branch are the same
    /// in the region of its target.
    pub proof fn lemma_same_on_child(self, n: int, k: int, a: Trace, b: Trace)
        requires
            self.wf(),
            0 <= n < self.nodes.len(),
            0 <= k < self.edge_list(n).len(),
            self.same_on_branch(n, k, a, b),
        ensures
            self.same_on(self.child(n, k), a, b),
            forall|v: int|
                0 <= v < a.model.len() && literal_vars(self.edge(n, k).propagated).contains(
                    v as nat,
                ) ==> a.model[v] == b.model[v],
    {
        self.lemma_child_below(n, k);
    }

    /// Two states that are the same off the region of a branch of a
    /// conjunction node are the same in the region of each other branch.
    pub proof fn lemma_other_branch(self, q: Query, n: int, k: int, j: int, a: Trace, b: Trace)
        requires
            self.regular(q),
            0 <= n < self.nodes.len(),
            self.nodes[n] is And,
            0 <= k < self.edge_list(n).len(),
            0 <= j < self.edge_list(n).len(),
            j != k,
            self.off_branch(n, k, a, b),
            self.calm(a),
            self.calm(b),
        ensures
            self.same_on_branch(n, j, a, b),
    {
        assert(self.decomposable_at(n));
        if j < k {
            assert(self.branch_vars(n, j).disjoint(self.branch_vars(n, k)));
        } else {
            assert(self.branch_vars(n, k).disjoint(self.branch_vars(n, j)));
        }
        assert forall|m: int|
            0 <= m < a.graph.len() && self.nodes[m] is Or && self.below(
                m,
                self.child(n, j),
            ) implies (#[trigger] a.graph[m]) == b.graph[m] by {
            if self.busy(m) {
                self.lemma_branches_apart(q, n, j, k, m);
            }
        }
    }

    /// Two states that are the same off the regions of the first branches of
    /// a conjunction node are the same in the region of each later branch.
    pub proof fn lemma_later_branch(self, q: Query, n: int, i: int, j: int, a: Trace, b: Trace)
        requires
            self.regular(q),
            0 <= n < self.nodes.len(),
            self.nodes[n] is And,
            0 <= i <= j < self.edge_list(n).len(),
            self.off_branches(n, i, a, b),
            self.calm(a),
            self.calm(b),
        ensures
            self.same_on_branch(n, j, a, b),
    {
        assert(self.decomposable_at(n));
        assert forall|v: int|
            0 <= v < a.model.len() && self.branch_vars(n, j).contains(v as nat) implies (
        #[trigger] a.model[v]) == b.model[v] by {
            assert forall|k: int| 0 <= k < i implies !(#[trigger] self.branch_vars(n, k)).contains(
                v as nat,
            ) by {
                assert(self.branch_vars(n, k).disjoint(self.branch_vars(n, j)));
            }
        }
        assert forall|m: int|
            0 <= m < a.graph.len() && self.nodes[m] is Or && self.below(
                m,
                self.child(n, j),
            ) implies (#[trigger] a.graph[m]) == b.graph[m] by {
            if self.busy(m) {
                assert forall|k: int| 0 <= k < i implies !self.below(
                    m,
                    #[trigger] self.child(n, k),
                ) by {
                    self.lemma_branches_apart(q, n, j, k, m);
                }
            }
        }
    }

    /// Changes off the regions of the first branches, then off the region of
    /// the next one, are changes off the regions of these branches.
    pub proof fn lemma_off_branches_step(self, n: int, i: int, a: Trace, b: Trace, c: Trace)
        requires
            i >= 1,
            self.off_branches(n, i - 1, a, b),
            self.off_branch(n, i - 1, b, c),
        ensures
            self.off_branches(n, i, a, c),
    {
        assert forall|v: int|
            0 <= v < a.model.len() && (forall|k: int|
                0 <= k < i ==> !(#[trigger] self.branch_vars(n, k)).contains(v as nat)) implies (
        #[trigger] a.model[v]) == c.model[v] by {
            assert(!self.branch_vars(n, i - 1).contains(v as nat));
            assert(a.model[v] == b.model[v]);
            assert(b.model[v] == c.model[v]);
        }
        assert forall|m: int|
            0 <= m < a.graph.len() && self.nodes[m] is Or && (forall|k: int|
                0 <= k < i ==> !self.below(m, #[trigger] self.child(n, k))) implies (
        #[trigger] a.graph[m]) == c.graph[m] by {
            assert(!self.below(m, self.child(n, i - 1)));
            assert(a.graph[m] == b.graph[m]);
            assert(b.graph[m] == c.graph[m]);
        }
    }

    /// Changes off the regions of branches of a node are changes off the
    /// region of the node.
    pub proof fn lemma_off_branches_node(self, n: int, i: int, a: Trace, b: Trace)
        requires
            self.wf(),
            0 <= n < self.nodes.len(),
            0 <= i <= self.edge_list(n).len(),
            self.off_branches(n, i, a, b),
        ensures
            self.same_off(n, Set::empty(), a, b),
    {
        assert forall|v: int|
            0 <= v < a.model.len() && !self.involved(n).contains(v as nat) implies (
        #[trigger] a.model[v]) == b.model[v] by {
            assert forall|k: int| 0 <= k < i implies !(#[trigger] self.branch_vars(n, k)).contains(
                v as nat,
            ) by {
                self.lemma_child_below(n, k);
            }
        }
        assert forall|m: int|
            0 <= m < a.graph.len() && self.nodes[m] is Or && !self.below(m, n) implies (
        #[trigger] a.graph[m]) == b.graph[m] by {
            assert forall|k: int| 0 <= k < i implies !self.below(m, #[trigger] self.child(n, k)) by {
                self.lemma_child_below(n, k);
                if self.below(m, self.child(n, k)) {
                    self.lemma_below_trans(m, self.child(n, k), n);
                }
            }
        }
    }

    /// Changes off the region of a branch of a node are changes off the
    /// region of the node.
    pub proof fn lemma_off_branch_node(self, n: int, k: int, a: Trace, b: Trace)
        requires
            self.wf(),
            0 <= n < self.nodes.len(),
            0 <= k < self.edge_list(n).len(),
            self.off_branch(n, k, a, b),
        ensures
            self.same_off(n, Set::empty(), a, b),
    {
        self.lemma_child_below(n, k);
        assert forall|m: int|
            0 <= m < a.graph.len() && self.nodes[m] is Or && !self.below(m, n) implies (
        #[trigger] a.graph[m]) == b.graph[m] by {
            if self.below(m, self.child(n, k)) {
                self.lemma_below_trans(m, self.child(n, k), n);
            }
        }
    }

    /// What a state shows at a node, a state that is the same in the region
    /// of the node shows too.
    pub proof fn lemma_shows_same(self, q: Query, n: int, r: nat, a: Trace, b: Trace)
        requires
            self.regular(q),
            0 <= n < self.nodes.len(),
            a.model.len() == self.n_vars,
            self.shows(q, n, r, a),
            self.same_on(n, a, b),
        ensures
            self.shows(q, n, r, b),
        decreases self.rank()[n], 1nat, 0nat,
    {
        let len = self.edge_list(n).len() as int;
        match self.nodes[n] {
            NodeModel::And(_) => {
                assert forall|k: int| 0 <= k < len implies self.same_on_branch(n, k, a, b) by {
                    self.lemma_same_on_branch(n, k, a, b);
                }
                self.lemma_shows_and_same(q, n, len, r, a, b);
            },
            NodeModel::Or(_) => {
                self.lemma_shows_or_same(q, n, 0, r, a, b);
            },
            _ => {},
        }
    }

    /// The same for the first `i` edges of a conjunction node: it is enough
    /// that the states be the same in the regions of these branches.
    pub proof fn lemma_shows_and_same(self, q: Query, n: int, i: int, r: nat, a: Trace, b: Trace)
        requires
            self.regular(q),
            0 <= n < self.nodes.len(),
            0 <= i <= self.edge_list(n).len(),
            a.model.len() == self.n_vars,
            self.shows_and(q, n, i, r, a),
            forall|k: int| 0 <= k < i ==> self.same_on_branch(n, k, a, b),
        ensures
            self.shows_and(q, n, i, r, b),
        decreases self.rank()[n], 0nat, i,
    {
        if i > 0 {
            self.lemma_child(n, i - 1);
            let c = self.count(q, self.child(n, i - 1));
            let p = self.edge(n, i - 1).propagated;
            assert(self.shows_and(q, n, i, r, a) == (c > 0 && !self.blocked(q, n, i - 1)
                && write_all(a.model, p) == a.model && self.shows(q, self.child(n, i - 1), r % c, a)
                && self.shows_and(q, n, i - 1, r / c, a)));
            assert(self.shows_and(q, n, i, r, b) == (c > 0 && !self.blocked(q, n, i - 1)
                && write_all(b.model, p) == b.model && self.shows(q, self.child(n, i - 1), r % c, b)
                && self.shows_and(q, n, i - 1, r / c, b)));
            assert(self.same_on_branch(n, i - 1, a, b));
            self.lemma_same_on_child(n, i - 1, a, b);
            lemma_propagated_in_range(self, n, i - 1);
            lemma_write_all_stable(a.model, b.model, p);
            self.lemma_shows_same(q, self.child(n, i - 1), r % c, a, b);
            self.lemma_shows_and_same(q, n, i - 1, r / c, a, b);
        }
    }

    /// The same for the branches of a disjunction node from the `i`-th
    /// on.
    pub proof fn lemma_shows_or_same(self, q: Query, n: int, i: int, r: nat, a: Trace, b: Trace)
        requires
            self.regular(q),
            0 <= n < self.nodes.len(),
            self.nodes[n] is Or,
            0 <= i <= self.edge_list(n).len(),
            a.model.len() == self.n_vars,
            self.shows_or(q, n, i, r, a),
            self.same_on(n, a, b),
        ensures
            self.shows_or(q, n, i, r, b),
        decreases self.rank()[n], 0nat, self.edge_list(n).len() - i,
    {
        if i < self.edge_list(n).len() {
            self.lemma_child(n, i);
            let total = self.branch_total(q, n, i);
            let p = self.edge(n, i).propagated;
            let open = self.open_vars(q, n, i);
            let w = self.weight(q, n, i);
            assert(self.shows_or(q, n, i, r, a) == if r < total {
                0 <= n < a.graph.len() && a.graph[n] == i && write_free(a.model, r, open, q.partial)
                    == a.model && write_all(a.model, p) == a.model && self.shows(
                    q,
                    self.child(n, i),
                    r / pow2(w),
                    a,
                )
            } else {
                self.shows_or(q, n, i + 1, (r - total) as nat, a)
            });
            assert(self.shows_or(q, n, i, r, b) == if r < total {
                0 <= n < b.graph.len() && b.graph[n] == i && write_free(b.model, r, open, q.partial)
                    == b.model && write_all(b.model, p) == b.model && self.shows(
                    q,
                    self.child(n, i),
                    r / pow2(w),
                    b,
                )
            } else {
                self.shows_or(q, n, i + 1, (r - total) as nat, b)
            });
            if r < total {
                assert(self.below(n, n));
                assert(a.graph[n] == b.graph[n]);
                self.lemma_open_vars(q, n, i);
                assert forall|v: int|
                    0 <= v < a.model.len() && literal_vars(open).contains(v as nat) implies a.model[v]
                    == b.model[v] by {
                    let j = choose|j: int| 0 <= j < open.len() && (#[trigger] open[j]).var() == v;
                    assert(self.involved(n).contains(open[j].var()));
                }
                lemma_write_free_stable(a.model, b.model, r, open, q.partial);
                self.lemma_same_on_branch(n, i, a, b);
                self.lemma_same_on_child(n, i, a, b);
                lemma_propagated_in_range(self, n, i);
                lemma_write_all_stable(a.model, b.model, p);
                self.lemma_shows_same(q, self.child(n, i), r / pow2(w), a, b);
            } else {
                self.lemma_shows_or_same(q, n, i + 1, (r - total) as nat, a, b);
            }
        }
    }
}

} // verus!
