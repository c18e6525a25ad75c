//! Two states that show the same index hold the same model.

use crate::algorithms::counting::Query;
use crate::algorithms::direct_access::write_all;
use crate::algorithms::direct_access::Trace;
use crate::algorithms::model_enumerator::lemma_propagated_in_range;
use crate::formula::decision_dnnf::Formula;
use crate::formula::decision_dnnf::NodeModel;
use crate::formula::involved_vars::literal_vars;
use crate::laws::regions::lemma_write_all_places;
use crate::laws::regions::lemma_write_free_places;
use vstd::prelude::*;

verus! {

impl Formula {
    /// Two states that show the same index at a node hold the same
    /// literals for the variables involved at the node.
    pub proof fn lemma_unique(self, q: Query, n: int, r: nat, a: Trace, b: Trace)
        requires
            self.wf(),
            0 <= n < self.nodes.len(),
            self.fits(q, a),
            self.fits(q, b),
            self.shows(q, n, r, a),
            self.shows(q, n, r, b),
        ensures
            forall|v: int|
                0 <= v < self.n_vars && self.involved(n).contains(v as nat) ==> a.model[v]
                    == b.model[v],
        decreases self.rank()[n], 1nat, 0nat,
    {
        let len = self.edge_list(n).len() as int;
        match self.nodes[n] {
            NodeModel::And(_) => {
                self.lemma_unique_and(q, n, len, r, a, b);
            },
            NodeModel::Or(_) => {
                self.lemma_unique_or(q, n, r, a, b);
            },
            _ => {},
        }
    }

    /// The same for the first `i` edges of a conjunction node.
    pub proof fn lemma_unique_and(self, q: Query, n: int, i: int, r: nat, a: Trace, b: Trace)
        requires
            self.wf(),
            0 <= n < self.nodes.len(),
            self.nodes[n] is And,
            0 <= i <= self.edge_list(n).len(),
            self.fits(q, a),
            self.fits(q, b),
            self.shows_and(q, n, i, r, a),
            self.shows_and(q, n, i, r, b),
        ensures
            forall|v: int|
                0 <= v < self.n_vars && self.involved_upto(n, i).contains(v as nat) ==> a.model[v]
                    == b.model[v],
        decreases self.rank()[n], 0nat, i,
    {
        if i > 0 {
            self.lemma_child_below(n, i - 1);
            let child = self.child(n, i - 1);
            let c = self.count(q, child);
            let p = self.edge(n, i - 1).propagated;
            lemma_propagated_in_range(self, n, i - 1);
            assert(self.shows_and(q, n, i, r, a) == (c > 0 && !self.blocked(q, n, i - 1)
                && write_all(a.model, p) == a.model && self.shows(q, child, r % c, a)
                && self.shows_and(q, n, i - 1, r / c, a)));
            assert(self.shows_and(q, n, i, r, b) == (c > 0 && !self.blocked(q, n, i - 1)
                && write_all(b.model, p) == b.model && self.shows(q, child, r % c, b)
                && self.shows_and(q, n, i - 1, r / c, b)));
            self.lemma_unique_and(q, n, i - 1, r / c, a, b);
            self.lemma_unique(q, child, r % c, a, b);
            assert(self.involved_upto(n, i) == self.involved_upto(n, i - 1).union(
                self.branch_vars(n, i - 1),
            ));
            assert(self.branch_vars(n, i - 1) == literal_vars(p).union(self.involved(child)));
            assert forall|v: int|
                0 <= v < self.n_vars && self.involved_upto(n, i).contains(
                    v as nat,
                ) implies a.model[v] == b.model[v] by {
                if literal_vars(p).contains(v as nat) {
                    lemma_write_all_places(a.model, p, v);
                    lemma_write_all_places(b.model, p, v);
                }
            }
        }
    }

    /// The same at a disjunction node.
    pub proof fn lemma_unique_or(self, q: Query, n: int, r: nat, a: Trace, b: Trace)
        requires
            self.wf(),
            0 <= n < self.nodes.len(),
            self.nodes[n] is Or,
            self.fits(q, a),
            self.fits(q, b),
            self.shows(q, n, r, a),
            self.shows(q, n, r, b),
        ensures
            forall|v: int|
                0 <= v < self.n_vars && self.involved(n).contains(v as nat) ==> a.model[v]
                    == b.model[v],
        decreases self.rank()[n], 0nat, 0nat,
    {
        assert(self.sum_upto(q, n, 0) == 0);
        let s = self.lemma_locate(q, n, 0, r, a);
        let s2 = self.lemma_locate(q, n, 0, r, b);
        if s < s2 {
            self.lemma_sum_grows(q, n, s, s2);
        }
        if s2 < s {
            self.lemma_sum_grows(q, n, s2, s);
        }
        assert(s == s2);
        self.lemma_child_below(n, s);
        let child = self.child(n, s);
        let p = self.edge(n, s).propagated;
        let open = self.open_vars(q, n, s);
        let local = (r - self.sum_upto(q, n, s)) as nat;
        lemma_propagated_in_range(self, n, s);
        self.lemma_open_vars(q, n, s);
        self.lemma_unique(
            q,
            child,
            local / vstd::arithmetic::power2::pow2(self.weight(q, n, s)),
            a,
            b,
        );
        assert(self.branch_vars(n, s) == literal_vars(p).union(self.involved(child)));
        assert forall|v: int|
            0 <= v < self.n_vars && self.involved(n).contains(v as nat) implies a.model[v]
            == b.model[v] by {
            if literal_vars(p).contains(v as nat) {
                lemma_write_all_places(a.model, p, v);
                lemma_write_all_places(b.model, p, v);
            } else if self.involved(child).contains(v as nat) {
            } else if v < q.assumptions.len() && q.assumptions[v] is Some {
            } else {
                self.lemma_open_vars_cover(q, n, s, v as nat);
                lemma_write_free_places(a.model, b.model, local, open, q.partial, v);
            }
        }
    }
}

} // verus!
