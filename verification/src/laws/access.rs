//! The state that direct access leaves shows the index that was asked for.

use crate::algorithms::counting::Query;
use crate::algorithms::direct_access::write_all;
use crate::algorithms::direct_access::write_free;
use crate::algorithms::direct_access::Trace;
use crate::algorithms::model_enumerator::lemma_propagated_in_range;
use crate::formula::decision_dnnf::Formula;
use crate::formula::decision_dnnf::NodeModel;
use crate::formula::involved_vars::literal_vars;
use crate::laws::facts::lemma_digits_bound;
use crate::laws::facts::lemma_write_all_keeps;
use crate::laws::facts::lemma_write_all_twice;
use crate::laws::facts::lemma_write_free_keeps;
use crate::laws::facts::lemma_write_free_twice;
use crate::laws::increment::lemma_write_free_frame;
use crate::laws::regions::lemma_write_all_places;
use crate::laws::regions::lemma_write_all_stable;
use crate::laws::regions::lemma_write_free_stable;
use vstd::arithmetic::power2::lemma_pow2_pos;
use vstd::arithmetic::power2::pow2;
use vstd::prelude::*;

verus! {

impl Formula {
    /// Writing the model of an index below the count of a node leaves a
    /// state that shows this index at the node; the state changes only in
    /// the region of the node.
    pub proof fn lemma_build(self, q: Query, n: int, r: nat, t: Trace)
        requires
            self.regular(q),
            0 <= n < self.nodes.len(),
            self.fits(q, t),
            r < self.count(q, n),
        ensures
            self.shows(q, n, r, self.build(q, n, r, t)),
            self.fits(q, self.build(q, n, r, t)),
            self.same_off(n, Set::empty(), t, self.build(q, n, r, t)),
        decreases self.rank()[n], 1nat, 0nat,
    {
        let len = self.edge_list(n).len() as int;
        match self.nodes[n] {
            NodeModel::And(_) => {
                assert(self.count(q, n) == self.product_upto(q, n, len));
                self.lemma_build_and(q, n, len, r, t);
                self.lemma_off_branches_node(n, len, t, self.build_and(q, n, len, r, t));
            },
            NodeModel::Or(_) => {
                assert(self.count(q, n) == self.sum_upto(q, n, len));
                assert(self.sum_upto(q, n, 0) == 0);
                self.lemma_build_or(q, n, 0, r, t);
            },
            _ => {},
        }
    }

    /// The same for the first `i` edges of a conjunction node.
    pub proof fn lemma_build_and(self, q: Query, n: int, i: int, r: nat, t: Trace)
        requires
            self.regular(q),
            0 <= n < self.nodes.len(),
            self.nodes[n] is And,
            0 <= i <= self.edge_list(n).len(),
            self.fits(q, t),
            r < self.product_upto(q, n, i),
        ensures
            self.shows_and(q, n, i, r, self.build_and(q, n, i, r, t)),
            self.fits(q, self.build_and(q, n, i, r, t)),
            self.off_branches(n, i, t, self.build_and(q, n, i, r, t)),
        decreases self.rank()[n], 0nat, i,
    {
        if i > 0 {
            self.lemma_child_below(n, i - 1);
            let child = self.child(n, i - 1);
            let c = self.count(q, child);
            let p = self.edge(n, i - 1).propagated;
            let before = self.product_upto(q, n, i - 1);
            let gain = self.count_via(q, n, i - 1);
            lemma_propagated_in_range(self, n, i - 1);
            assert(self.product_upto(q, n, i) == before * gain);
            assert(gain > 0) by (nonlinear_arith)
                requires
                    r < before * gain,
                    before >= 0,
                    gain >= 0,
            ;
            assert(gain == if self.blocked(q, n, i - 1) {
                0
            } else {
                c
            });
            assert(self.edge(n, i - 1) == self.edge(n, i - 1));
            lemma_digits_bound(r, before, c);
            assert(r % c < c) by (nonlinear_arith)
                requires
                    c > 0,
            ;
            assert(literal_vars(p).disjoint(self.involved(child))) by {
                assert(self.child(n, i - 1) == child);
            }
            let written = Trace { model: write_all(t.model, p), graph: t.graph };
            lemma_write_all_keeps(q, t.model, p);
            lemma_write_all_twice(t.model, p);
            self.lemma_build(q, child, r % c, written);
            let b1 = self.build(q, child, r % c, written);
            self.lemma_build_and(q, n, i - 1, r / c, b1);
            let b2 = self.build_and(q, n, i - 1, r / c, b1);
            assert(self.build_and(q, n, i, r, t) == b2);
            assert(self.off_branch(n, i - 1, t, written)) by {
                assert forall|v: int|
                    0 <= v < t.model.len() && !self.branch_vars(n, i - 1).contains(
                        v as nat,
                    ) implies (#[trigger] t.model[v]) == written.model[v] by {
                    lemma_write_all_places(t.model, p, v);
                }
            }
            self.lemma_off_child(n, i - 1, written, b1);
            self.lemma_off_branch_twice(n, i - 1, t, written, b1);
            self.lemma_off_branches_after(n, i, t, b1, b2);
            self.lemma_later_branch(q, n, i - 1, i - 1, b1, b2);
            self.lemma_same_on_child(n, i - 1, b1, b2);
            self.lemma_shows_same(q, child, r % c, b1, b2);
            assert forall|v: int|
                0 <= v < written.model.len() && literal_vars(p).contains(
                    v as nat,
                ) implies written.model[v] == b2.model[v] by {
                assert(!self.involved(child).contains(v as nat));
                assert(written.model[v] == b1.model[v]);
                assert(self.branch_vars(n, i - 1).contains(v as nat));
                assert(b1.model[v] == b2.model[v]);
            }
            lemma_write_all_stable(written.model, b2.model, p);
            assert(self.shows_and(q, n, i, r, b2) == (c > 0 && !self.blocked(q, n, i - 1)
                && write_all(b2.model, p) == b2.model && self.shows(q, child, r % c, b2)
                && self.shows_and(q, n, i - 1, r / c, b2)));
        } else {
            assert(self.build_and(q, n, 0, r, t) == t);
        }
    }

    /// The same for the branches of a disjunction node from the `i`-th on.
    pub proof fn lemma_build_or(self, q: Query, n: int, i: int, r: nat, t: Trace)
        requires
            self.regular(q),
            0 <= n < self.nodes.len(),
            self.nodes[n] is Or,
            0 <= i <= self.edge_list(n).len(),
            self.fits(q, t),
            r < self.sum_upto(q, n, self.edge_list(n).len() as int) - self.sum_upto(q, n, i),
        ensures
            self.shows_or(q, n, i, r, self.build_or(q, n, i, r, t)),
            self.fits(q, self.build_or(q, n, i, r, t)),
            self.same_off(n, Set::empty(), t, self.build_or(q, n, i, r, t)),
        decreases self.rank()[n], 0nat, self.edge_list(n).len() - i,
    {
        let len = self.edge_list(n).len() as int;
        self.lemma_sum_grows(q, n, i, len);
        assert(i < len);
        self.lemma_child_below(n, i);
        let total = self.branch_total(q, n, i);
        if r < total {
            let child = self.child(n, i);
            let p = self.edge(n, i).propagated;
            let open = self.open_vars(q, n, i);
            let w = self.weight(q, n, i);
            let gain = self.count_via(q, n, i);
            lemma_propagated_in_range(self, n, i);
            self.lemma_open_vars(q, n, i);
            lemma_pow2_pos(w);
            lemma_digits_bound(r, gain, pow2(w));
            assert(gain > 0) by (nonlinear_arith)
                requires
                    r < gain * pow2(w),
            ;
            assert(gain == if self.blocked(q, n, i) {
                0
            } else {
                self.count(q, child)
            });
            assert(self.edge(n, i) == self.edge(n, i));
            assert(literal_vars(p).disjoint(self.involved(child))) by {
                assert(self.child(n, i) == child);
            }
            assert(self.below(n, n));
            assert(!self.below(n, child));
            let freed = write_free(t.model, r, open, q.partial);
            let written = Trace { model: write_all(freed, p), graph: t.graph.update(n, i as nat) };
            lemma_write_free_keeps(q, t.model, r, open, q.partial);
            lemma_write_free_twice(t.model, r, open, q.partial);
            lemma_write_all_keeps(q, freed, p);
            lemma_write_all_twice(freed, p);
            let deep = r / pow2(w);
            self.lemma_build(q, child, deep, written);
            let b = self.build(q, child, deep, written);
            assert(self.build_or(q, n, i, r, t) == b);
            assert(self.same_off(n, Set::empty(), t, written)) by {
                assert forall|v: int|
                    0 <= v < t.model.len() && !self.involved(n).contains(v as nat) implies (
                #[trigger] t.model[v]) == written.model[v] by {
                    assert forall|j: int| 0 <= j < open.len() implies (#[trigger] open[j]).var()
                        != v by {}
                    lemma_write_free_frame(t.model, r, open, q.partial, v);
                    lemma_write_all_places(freed, p, v);
                }
                assert forall|m: int|
                    0 <= m < t.graph.len() && self.nodes[m] is Or && !self.below(m, n) implies (
                #[trigger] t.graph[m]) == written.graph[m] by {
                    assert(m != n);
                }
            }
            self.lemma_child_region(n, i, written, b);
            self.lemma_same_off_twice(n, t, written, b);
            assert(b.graph[n] == written.graph[n]);
            assert forall|v: int|
                0 <= v < freed.len() && literal_vars(open).contains(v as nat) implies freed[v]
                == b.model[v] by {
                let j = choose|j: int| 0 <= j < open.len() && (#[trigger] open[j]).var() == v;
                assert(!self.branch_vars(n, i).contains(open[j].var()));
                lemma_write_all_places(freed, p, v);
                assert(!self.involved(child).contains(v as nat));
            }
            lemma_write_free_stable(freed, b.model, r, open, q.partial);
            assert forall|v: int|
                0 <= v < written.model.len() && literal_vars(p).contains(
                    v as nat,
                ) implies written.model[v] == b.model[v] by {
                assert(!self.involved(child).contains(v as nat));
            }
            lemma_write_all_stable(written.model, b.model, p);
            assert(self.shows_or(q, n, i, r, b) == (0 <= n < b.graph.len() && b.graph[n] == i
                && write_free(b.model, r, open, q.partial) == b.model && write_all(b.model, p)
                == b.model && self.shows(q, child, r / pow2(w), b)));
        } else {
            self.lemma_sum_grows(q, n, i + 1, len);
            self.lemma_build_or(q, n, i + 1, (r - total) as nat, t);
            assert(self.build_or(q, n, i, r, t) == self.build_or(
                q,
                n,
                i + 1,
                (r - total) as nat,
                t,
            ));
            assert(self.shows_or(q, n, i, r, self.build_or(q, n, i, r, t)) == self.shows_or(
                q,
                n,
                i + 1,
                (r - total) as nat,
                self.build_or(q, n, i, r, t),
            ));
        }
    }
}

} // verus!
