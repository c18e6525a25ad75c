//! The first path of an enumeration shows the model of index 0.

use crate::algorithms::counting::Query;
use crate::algorithms::direct_access::write_all;
use crate::algorithms::direct_access::write_free;
use crate::algorithms::direct_access::Trace;
use crate::algorithms::model_enumerator::lemma_propagated_in_range;
use crate::formula::assumptions::any_contradicts;
use crate::formula::decision_dnnf::Formula;
use crate::formula::decision_dnnf::NodeModel;
use crate::formula::involved_vars::literal_vars;
use crate::laws::facts::lemma_write_all_keeps;
use crate::laws::facts::lemma_write_all_twice;
use crate::laws::facts::lemma_write_free_keeps;
use crate::laws::facts::lemma_write_free_twice;
use crate::laws::increment::lemma_write_free_frame;
use crate::laws::regions::holds_assumptions;
use crate::laws::regions::lemma_write_all_places;
use crate::laws::regions::lemma_write_all_stable;
use crate::laws::regions::lemma_write_free_stable;
use vstd::arithmetic::power2::lemma_pow2_pos;
use vstd::arithmetic::power2::pow2;
use vstd::prelude::*;

verus! {

impl Formula {
    /// Whether a state has the sizes of the formula, holds the literals of
    /// the assumptions, and takes the first branch at each disjunction node
    /// that involves no variable.
    pub open spec fn fits(self, q: Query, t: Trace) -> bool {
        &&& t.model.len() == self.n_vars
        &&& t.graph.len() == self.nodes.len()
        &&& holds_assumptions(q, t.model)
        &&& self.calm(t)
    }

    /// The first path from a node exists exactly where the node counts
    /// something, and then shows index 0 at the node; the state changes
    /// only in the region of the node.
    pub proof fn lemma_first_path(self, q: Query, n: int, t: Trace)
        requires
            self.regular(q),
            0 <= n < self.nodes.len(),
            self.fits(q, t),
        ensures
            self.first_path(q, n, t).1 == (self.count(q, n) > 0),
            self.first_path(q, n, t).1 ==> self.shows(q, n, 0, self.first_path(q, n, t).0),
            self.fits(q, self.first_path(q, n, t).0),
            self.same_off(n, Set::empty(), t, self.first_path(q, n, t).0),
        decreases self.rank()[n], 1nat, 0nat,
    {
        let t0 = Trace { model: t.model, graph: t.graph.update(n, 0) };
        let len = self.edge_list(n).len() as int;
        assert(self.below(n, n));
        match self.nodes[n] {
            NodeModel::And(_) => {
                self.lemma_first_and(q, n, len, t0);
                self.lemma_off_branches_node(n, len, t0, self.first_and(q, n, len, t0).0);
                assert(self.count(q, n) == self.product_upto(q, n, len));
            },
            NodeModel::Or(_) => {
                self.lemma_first_or(q, n, 0, t0);
                self.lemma_sum_positive(q, n, len);
                assert(self.count(q, n) == self.sum_upto(q, n, len));
                if self.count(q, n) > 0 {
                    let j = choose|j: int| 0 <= j < len && #[trigger] self.count_via(q, n, j) > 0;
                    assert(0 <= j < len && self.count_via(q, n, j) > 0);
                }
            },
            _ => {},
        }
        let after = self.first_path(q, n, t).0;
        assert forall|m: int|
            0 <= m < t.graph.len() && self.nodes[m] is Or && !self.below(m, n) implies (
        #[trigger] t.graph[m]) == after.graph[m] by {
            assert(m != n);
            assert(t0.graph[m] == t.graph[m]);
            assert(t0.graph[m] == after.graph[m]);
        }
        assert forall|v: int|
            0 <= v < t.model.len() && !self.involved(n).contains(v as nat) implies (
        #[trigger] t.model[v]) == after.model[v] by {
            assert(t0.model[v] == after.model[v]);
        }
    }

    /// The walk through an edge of a conjunction node succeeds exactly where
    /// the edge brings something, and then shows index 0 at the target, with
    /// the literals of the edge in place; the state changes only in the
    /// region of the branch.
    pub proof fn lemma_enter_edge(self, q: Query, n: int, i: int, t: Trace)
        requires
            self.regular(q),
            0 <= n < self.nodes.len(),
            0 <= i < self.edge_list(n).len(),
            self.fits(q, t),
        ensures
            self.enter_edge(q, n, i, t).1 == (self.count_via(q, n, i) > 0),
            self.enter_edge(q, n, i, t).1 ==> {
                let after = self.enter_edge(q, n, i, t).0;
                &&& !self.blocked(q, n, i)
                &&& self.count(q, self.child(n, i)) > 0
                &&& write_all(after.model, self.edge(n, i).propagated) == after.model
                &&& self.shows(q, self.child(n, i), 0, after)
            },
            self.fits(q, self.enter_edge(q, n, i, t).0),
            self.off_branch(n, i, t, self.enter_edge(q, n, i, t).0),
        decreases self.rank()[n], 0nat, 0nat,
    {
        self.lemma_child_below(n, i);
        let p = self.edge(n, i).propagated;
        let c = self.child(n, i);
        lemma_propagated_in_range(self, n, i);
        assert(self.enter_edge(q, n, i, t) == if any_contradicts(q.assumptions, p) {
            (t, false)
        } else {
            self.first_path(q, c, Trace { model: write_all(t.model, p), graph: t.graph })
        });
        assert(self.count_via(q, n, i) == if self.blocked(q, n, i) {
            0
        } else {
            self.count(q, c)
        });
        assert(self.edge(n, i) == self.edge(n, i));
        if !any_contradicts(q.assumptions, p) {
            let written = Trace { model: write_all(t.model, p), graph: t.graph };
            lemma_write_all_keeps(q, t.model, p);
            lemma_write_all_twice(t.model, p);
            self.lemma_first_path(q, c, written);
            let after = self.first_path(q, c, written).0;
            assert(!literal_vars(p).disjoint(self.involved(c)) ==> false) by {
                assert(self.child(n, i) == c);
            }
            assert forall|v: int|
                0 <= v < after.model.len() && !self.branch_vars(n, i).contains(v as nat) implies (
            #[trigger] t.model[v]) == after.model[v] by {
                lemma_write_all_places(t.model, p, v);
            }
            assert forall|m: int|
                0 <= m < t.graph.len() && self.nodes[m] is Or && !self.below(m, c) implies (
            #[trigger] t.graph[m]) == after.graph[m] by {}
            if self.first_path(q, c, written).1 {
                assert forall|v: int|
                    0 <= v < written.model.len() && literal_vars(p).contains(
                        v as nat,
                    ) implies written.model[v] == after.model[v] by {
                    assert(!self.involved(c).contains(v as nat));
                }
                lemma_write_all_stable(written.model, after.model, p);
            }
        }
    }

    /// The first path through the first edges of a conjunction node exists
    /// exactly where their product is positive, and then shows index 0 for
    /// these edges; the state changes only in the regions of these
    /// branches.
    pub proof fn lemma_first_and(self, q: Query, n: int, i: int, t: Trace)
        requires
            self.regular(q),
            0 <= n < self.nodes.len(),
            self.nodes[n] is And,
            0 <= i <= self.edge_list(n).len(),
            self.fits(q, t),
        ensures
            self.first_and(q, n, i, t).1 == (self.product_upto(q, n, i) > 0),
            self.first_and(q, n, i, t).1 ==> self.shows_and(q, n, i, 0, self.first_and(q, n, i, t).0),
            self.fits(q, self.first_and(q, n, i, t).0),
            self.off_branches(n, i, t, self.first_and(q, n, i, t).0),
        decreases self.rank()[n], 0nat, i + 1,
    {
        if i > 0 {
            self.lemma_child(n, i - 1);
            let before = self.first_and(q, n, i - 1, t);
            self.lemma_first_and(q, n, i - 1, t);
            let rest = self.product_upto(q, n, i - 1);
            let last = self.count_via(q, n, i - 1);
            assert(self.product_upto(q, n, i) == rest * last);
            assert(rest * last > 0 <==> rest > 0 && last > 0) by (nonlinear_arith)
                requires
                    rest >= 0,
                    last >= 0,
            ;
            assert(self.first_and(q, n, i, t) == if !before.1 {
                before
            } else {
                self.enter_edge(q, n, i - 1, before.0)
            });
            if before.1 {
                self.lemma_enter_edge(q, n, i - 1, before.0);
                let after = self.enter_edge(q, n, i - 1, before.0);
                self.lemma_off_branches_step(n, i, t, before.0, after.0);
                if after.1 {
                    let c = self.count(q, self.child(n, i - 1));
                    assert forall|k: int| 0 <= k < i - 1 implies self.same_on_branch(
                        n,
                        k,
                        before.0,
                        after.0,
                    ) by {
                        self.lemma_other_branch(q, n, i - 1, k, before.0, after.0);
                    }
                    self.lemma_shows_and_same(q, n, i - 1, 0, before.0, after.0);
                    assert(0nat % c == 0 && 0nat / c == 0) by {
                        vstd::arithmetic::div_mod::lemma_basic_div(0, c as int);
                        vstd::arithmetic::div_mod::lemma_small_mod(0, c);
                    }
                    assert(self.shows_and(q, n, i, 0, after.0) == (c > 0 && !self.blocked(
                        q,
                        n,
                        i - 1,
                    ) && write_all(after.0.model, self.edge(n, i - 1).propagated) == after.0.model
                        && self.shows(q, self.child(n, i - 1), 0nat % c, after.0) && self.shows_and(
                        q,
                        n,
                        i - 1,
                        0nat / c,
                        after.0,
                    )));
                }
            } else {
                assert forall|v: int|
                    0 <= v < t.model.len() && (forall|k: int|
                        0 <= k < i ==> !(#[trigger] self.branch_vars(n, k)).contains(
                            v as nat,
                        )) implies (#[trigger] t.model[v]) == before.0.model[v] by {
                    assert forall|k: int| 0 <= k < i - 1 implies !(#[trigger] self.branch_vars(
                        n,
                        k,
                    )).contains(v as nat) by {}
                }
                assert forall|m: int|
                    0 <= m < t.graph.len() && self.nodes[m] is Or && (forall|k: int|
                        0 <= k < i ==> !self.below(m, #[trigger] self.child(n, k))) implies (
                #[trigger] t.graph[m]) == before.0.graph[m] by {
                    assert forall|k: int| 0 <= k < i - 1 implies !self.below(
                        m,
                        #[trigger] self.child(n, k),
                    ) by {}
                }
            }
        } else {
            assert(self.product_upto(q, n, 0) == 1);
            assert(self.first_and(q, n, 0, t) == (t, true));
        }
    }

    /// The walk into a branch of a disjunction node succeeds exactly where
    /// the branch brings something, and then shows index 0 in the branch; the
    /// state changes only in the region of the node.
    pub proof fn lemma_enter_branch(self, q: Query, n: int, i: int, t: Trace)
        requires
            self.regular(q),
            0 <= n < self.nodes.len(),
            self.nodes[n] is Or,
            0 <= i < self.edge_list(n).len(),
            self.fits(q, t),
        ensures
            self.enter_branch(q, n, i, t).1 == (self.count_via(q, n, i) > 0),
            self.enter_branch(q, n, i, t).1 ==> {
                let after = self.enter_branch(q, n, i, t).0;
                &&& !self.blocked(q, n, i)
                &&& after.graph[n] == i
                &&& write_free(after.model, 0, self.open_vars(q, n, i), q.partial) == after.model
                &&& write_all(after.model, self.edge(n, i).propagated) == after.model
                &&& self.shows(q, self.child(n, i), 0, after)
            },
            self.fits(q, self.enter_branch(q, n, i, t).0),
            self.same_off(n, Set::empty(), t, self.enter_branch(q, n, i, t).0),
        decreases self.rank()[n], 0nat, 0nat,
    {
        self.lemma_child_below(n, i);
        let p = self.edge(n, i).propagated;
        let c = self.child(n, i);
        let open = self.open_vars(q, n, i);
        lemma_propagated_in_range(self, n, i);
        self.lemma_open_vars(q, n, i);
        assert(self.below(n, n));
        let chosen = Trace { model: t.model, graph: t.graph.update(n, i as nat) };
        let freed = write_free(t.model, 0, open, q.partial);
        let written = Trace { model: write_all(freed, p), graph: chosen.graph };
        assert(self.enter_branch(q, n, i, t) == if any_contradicts(q.assumptions, p) {
            (chosen, false)
        } else {
            self.first_path(q, c, written)
        });
        assert(self.count_via(q, n, i) == if self.blocked(q, n, i) {
            0
        } else {
            self.count(q, c)
        });
        assert(self.edge(n, i) == self.edge(n, i));
        if !any_contradicts(q.assumptions, p) {
            lemma_write_free_keeps(q, t.model, 0, open, q.partial);
            lemma_write_free_twice(t.model, 0, open, q.partial);
            lemma_write_all_keeps(q, freed, p);
            lemma_write_all_twice(freed, p);
            self.lemma_first_path(q, c, written);
            let after = self.first_path(q, c, written).0;
            assert(literal_vars(p).disjoint(self.involved(c))) by {
                assert(self.child(n, i) == c);
            }
            assert forall|v: int|
                0 <= v < after.model.len() && !self.involved(n).contains(v as nat) implies (
            #[trigger] t.model[v]) == after.model[v] by {
                assert forall|j: int| 0 <= j < open.len() implies (#[trigger] open[j]).var()
                    != v by {}
                lemma_write_free_frame(t.model, 0, open, q.partial, v);
                lemma_write_all_places(freed, p, v);
            }
            assert forall|m: int|
                0 <= m < t.graph.len() && self.nodes[m] is Or && !self.below(m, n) implies (
            #[trigger] t.graph[m]) == after.graph[m] by {
                if self.below(m, c) {
                    self.lemma_below_trans(m, c, n);
                }
                assert(m != n);
                assert(written.graph[m] == t.graph[m]);
                assert(written.graph[m] == after.graph[m]);
            }
            if self.first_path(q, c, written).1 {
                assert(!self.below(n, c));
                assert(after.graph[n] == written.graph[n]);
                // the free variables keep the literals that they were given
                assert forall|v: int|
                    0 <= v < freed.len() && literal_vars(open).contains(v as nat) implies freed[v]
                    == after.model[v] by {
                    let j = choose|j: int| 0 <= j < open.len() && (#[trigger] open[j]).var() == v;
                    assert(!self.branch_vars(n, i).contains(open[j].var()));
                    lemma_write_all_places(freed, p, v);
                    assert(!self.involved(c).contains(v as nat));
                }
                lemma_write_free_stable(freed, after.model, 0, open, q.partial);
                // the literals of the edge stay in place
                assert forall|v: int|
                    0 <= v < written.model.len() && literal_vars(p).contains(
                        v as nat,
                    ) implies written.model[v] == after.model[v] by {
                    assert(!self.involved(c).contains(v as nat));
                }
                lemma_write_all_stable(written.model, after.model, p);
            }
        } else {
            assert forall|m: int|
                0 <= m < t.graph.len() && self.nodes[m] is Or && !self.below(m, n) implies (
            #[trigger] t.graph[m]) == chosen.graph[m] by {}
        }
    }

    /// The first path through a branch of a disjunction node, from the
    /// `i`-th on, exists exactly where one of these branches brings
    /// something, and then shows index 0 among these branches; the state
    /// changes only in the region of the node.
    pub proof fn lemma_first_or(self, q: Query, n: int, i: int, t: Trace)
        requires
            self.regular(q),
            0 <= n < self.nodes.len(),
            self.nodes[n] is Or,
            0 <= i <= self.edge_list(n).len(),
            self.fits(q, t),
        ensures
            self.first_or(q, n, i, t).1 == (exists|j: int|
                i <= j < self.edge_list(n).len() && #[trigger] self.count_via(q, n, j) > 0),
            self.first_or(q, n, i, t).1 ==> self.shows_or(q, n, i, 0, self.first_or(q, n, i, t).0),
            self.fits(q, self.first_or(q, n, i, t).0),
            self.same_off(n, Set::empty(), t, self.first_or(q, n, i, t).0),
        decreases self.rank()[n], 0nat, self.edge_list(n).len() - i + 1,
    {
        if i < self.edge_list(n).len() {
            self.lemma_child(n, i);
            self.lemma_enter_branch(q, n, i, t);
            let entered = self.enter_branch(q, n, i, t);
            assert(self.first_or(q, n, i, t) == if entered.1 {
                entered
            } else {
                self.first_or(q, n, i + 1, entered.0)
            });
            let gain = self.count_via(q, n, i);
            let w = self.weight(q, n, i);
            let total = self.branch_total(q, n, i);
            lemma_pow2_pos(w);
            assert(total > 0 <==> gain > 0) by (nonlinear_arith)
                requires
                    total == gain * pow2(w),
                    pow2(w) >= 1,
                    gain >= 0,
            ;
            if entered.1 {
                let after = entered.0;
                assert(0nat / pow2(w) == 0) by {
                    vstd::arithmetic::div_mod::lemma_basic_div(0, pow2(w) as int);
                }
                assert(self.shows_or(q, n, i, 0, after) == if 0 < total {
                    0 <= n < after.graph.len() && after.graph[n] == i && write_free(
                        after.model,
                        0,
                        self.open_vars(q, n, i),
                        q.partial,
                    ) == after.model && write_all(after.model, self.edge(n, i).propagated)
                        == after.model && self.shows(q, self.child(n, i), 0nat / pow2(w), after)
                } else {
                    self.shows_or(q, n, i + 1, (0 - total) as nat, after)
                });
            } else {
                self.lemma_first_or(q, n, i + 1, entered.0);
                let later = self.first_or(q, n, i + 1, entered.0);
                assert(self.shows_or(q, n, i, 0, later.0) == self.shows_or(
                    q,
                    n,
                    i + 1,
                    0,
                    later.0,
                ));
                if later.1 {
                    let j = choose|j: int|
                        i + 1 <= j < self.edge_list(n).len() && #[trigger] self.count_via(q, n, j)
                            > 0;
                    assert(i <= j < self.edge_list(n).len() && self.count_via(q, n, j) > 0);
                } else {
                    assert forall|j: int| i <= j < self.edge_list(n).len() implies !(
                    #[trigger] self.count_via(q, n, j) > 0) by {
                        if j > i {
                            assert(i + 1 <= j);
                        }
                    }
                }
            }
        } else {
            assert(self.first_or(q, n, i, t) == (t, false));
        }
    }
}

} // verus!
