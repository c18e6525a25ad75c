//! The next path of an enumeration shows the model of the next index.

use crate::algorithms::counting::Query;
use crate::algorithms::direct_access::lemma_write_free_erase;
use crate::algorithms::direct_access::write_all;
use crate::algorithms::direct_access::write_free;
use crate::algorithms::direct_access::Trace;
use crate::algorithms::model_enumerator::advance_free;
use crate::algorithms::model_enumerator::lemma_propagated_in_range;
use crate::formula::decision_dnnf::Formula;
use crate::formula::decision_dnnf::NodeModel;
use crate::formula::involved_vars::literal_vars;
use crate::laws::facts::lemma_advance_free_keeps;
use crate::laws::facts::lemma_digit_step;
use crate::laws::facts::lemma_digits_bound;
use crate::laws::facts::lemma_write_free_twice;
use crate::laws::increment::all_ones;
use crate::laws::increment::lemma_advance_free_frame;
use crate::laws::increment::lemma_advance_is_increment;
use crate::laws::increment::lemma_all_ones_carry;
use crate::laws::regions::lemma_write_all_stable;
use crate::laws::regions::lemma_write_free_stable;
use vstd::arithmetic::power2::lemma_pow2_pos;
use vstd::arithmetic::power2::pow2;
use vstd::prelude::*;

verus! {

impl Formula {
    /// The sum of what the first branches of a node add grows with the
    /// number of branches, by what each branch adds.
    pub proof fn lemma_sum_grows(self, q: Query, n: int, i: int, j: int)
        requires
            self.wf(),
            0 <= n < self.nodes.len(),
            0 <= i <= j <= self.edge_list(n).len(),
        ensures
            self.sum_upto(q, n, i) <= self.sum_upto(q, n, j),
            i < j ==> self.sum_upto(q, n, i) + self.branch_total(q, n, i) <= self.sum_upto(q, n, j),
            i < j ==> self.sum_upto(q, n, i + 1) == self.sum_upto(q, n, i) + self.branch_total(
                q,
                n,
                i,
            ),
            self.sum_upto(q, n, j) > self.sum_upto(q, n, i) <==> exists|k: int|
                i <= k < j && #[trigger] self.count_via(q, n, k) > 0,
        decreases j - i,
    {
        if i < j {
            self.lemma_sum_grows(q, n, i, j - 1);
            let last = self.count_via(q, n, j - 1);
            let w = self.weight(q, n, j - 1);
            lemma_pow2_pos(w);
            assert(self.sum_upto(q, n, j) == self.sum_upto(q, n, j - 1) + last * pow2(w));
            assert(self.sum_upto(q, n, i + 1) == self.sum_upto(q, n, i) + self.count_via(q, n, i)
                * pow2(self.weight(q, n, i)));
            assert(last * pow2(w) > 0 <==> last > 0) by (nonlinear_arith)
                requires
                    pow2(w) >= 1,
                    last >= 0,
            ;
            if self.sum_upto(q, n, j - 1) > self.sum_upto(q, n, i) {
                let k = choose|k: int| i <= k < j - 1 && #[trigger] self.count_via(q, n, k) > 0;
                assert(i <= k < j && self.count_via(q, n, k) > 0);
            } else if last > 0 {
                assert(self.count_via(q, n, j - 1) > 0);
            } else {
                assert forall|k: int| i <= k < j implies !(#[trigger] self.count_via(q, n, k)
                    > 0) by {
                    if k < j - 1 {
                        assert(i <= k < j - 1);
                    }
                }
            }
        }
    }

    /// A state that shows an index among the branches of a disjunction node
    /// from the `i`-th on shows, among all of them from an earlier one on,
    /// the index that counts the branches between.
    pub proof fn lemma_lift(self, q: Query, n: int, i: int, j: int, r: nat, t: Trace)
        requires
            self.wf(),
            0 <= n < self.nodes.len(),
            0 <= i <= j <= self.edge_list(n).len(),
            self.shows_or(q, n, j, r, t),
        ensures
            self.shows_or(
                q,
                n,
                i,
                (self.sum_upto(q, n, j) - self.sum_upto(q, n, i) + r) as nat,
                t,
            ),
            self.sum_upto(q, n, j) >= self.sum_upto(q, n, i),
        decreases j - i,
    {
        self.lemma_sum_grows(q, n, i, j);
        if i < j {
            self.lemma_lift(q, n, i + 1, j, r, t);
            let total = self.branch_total(q, n, i);
            let x = (self.sum_upto(q, n, j) - self.sum_upto(q, n, i) + r) as nat;
            self.lemma_sum_grows(q, n, i + 1, j);
            assert(x >= total);
            assert(self.shows_or(q, n, i, x, t) == self.shows_or(
                q,
                n,
                i + 1,
                (x - total) as nat,
                t,
            ));
        }
    }

    /// The branch that a state shows among the branches of a disjunction
    /// node from the `i`-th on, with what the state shows in it.
    pub proof fn lemma_locate(self, q: Query, n: int, i: int, r: nat, t: Trace) -> (s: int)
        requires
            self.wf(),
            0 <= n < self.nodes.len(),
            0 <= i <= self.edge_list(n).len(),
            self.shows_or(q, n, i, r, t),
        ensures
            i <= s < self.edge_list(n).len(),
            self.sum_upto(q, n, s) - self.sum_upto(q, n, i) <= r,
            r - (self.sum_upto(q, n, s) - self.sum_upto(q, n, i)) < self.branch_total(q, n, s),
            0 <= n < t.graph.len(),
            t.graph[n] == s,
            write_free(
                t.model,
                (r - (self.sum_upto(q, n, s) - self.sum_upto(q, n, i))) as nat,
                self.open_vars(q, n, s),
                q.partial,
            ) == t.model,
            write_all(t.model, self.edge(n, s).propagated) == t.model,
            self.shows(
                q,
                self.child(n, s),
                (r - (self.sum_upto(q, n, s) - self.sum_upto(q, n, i))) as nat / pow2(
                    self.weight(q, n, s),
                ),
                t,
            ),
        decreases self.edge_list(n).len() - i,
    {
        let total = self.branch_total(q, n, i);
        if r < total {
            assert(self.shows_or(q, n, i, r, t) == (0 <= n < t.graph.len() && t.graph[n] == i
                && write_free(t.model, r, self.open_vars(q, n, i), q.partial) == t.model
                && write_all(t.model, self.edge(n, i).propagated) == t.model && self.shows(
                q,
                self.child(n, i),
                r / pow2(self.weight(q, n, i)),
                t,
            )));
            assert((r - (self.sum_upto(q, n, i) - self.sum_upto(q, n, i))) as nat == r);
            i
        } else {
            assert(self.shows_or(q, n, i, r, t) == self.shows_or(
                q,
                n,
                i + 1,
                (r - total) as nat,
                t,
            ));
            let s = self.lemma_locate(q, n, i + 1, (r - total) as nat, t);
            self.lemma_sum_grows(q, n, i, s);
            self.lemma_sum_grows(q, n, i + 1, s);
            s
        }
    }

    /// Changes off the region of a branch, then off the regions of the
    /// branches before it, are changes off the regions of these branches.
    pub proof fn lemma_off_branches_after(self, n: int, i: int, a: Trace, b: Trace, c: Trace)
        requires
            i >= 1,
            self.off_branch(n, i - 1, a, b),
            self.off_branches(n, i - 1, b, c),
        ensures
            self.off_branches(n, i, a, c),
    {
        assert forall|v: int|
            0 <= v < a.model.len() && (forall|k: int|
                0 <= k < i ==> !(#[trigger] self.branch_vars(n, k)).contains(v as nat)) implies (
        #[trigger] a.model[v]) == c.model[v] by {
            assert(!self.branch_vars(n, i - 1).contains(v as nat));
            assert(a.model[v] == b.model[v]);
            assert(b.model[v] == c.model[v]);
        }
        assert forall|m: int|
            0 <= m < a.graph.len() && self.nodes[m] is Or && (forall|k: int|
                0 <= k < i ==> !self.below(m, #[trigger] self.child(n, k))) implies (
        #[trigger] a.graph[m]) == c.graph[m] by {
            assert(!self.below(m, self.child(n, i - 1)));
            assert(a.graph[m] == b.graph[m]);
            assert(b.graph[m] == c.graph[m]);
        }
    }

    /// Changes off the region of the target of a branch are changes off the
    /// region of the branch.
    pub proof fn lemma_off_child(self, n: int, k: int, a: Trace, b: Trace)
        requires
            self.wf(),
            0 <= n < self.nodes.len(),
            0 <= k < self.edge_list(n).len(),
            self.same_off(self.child(n, k), Set::empty(), a, b),
        ensures
            self.off_branch(n, k, a, b),
    {
        self.lemma_child_below(n, k);
    }

    /// Changes off the region of the same branch, one after the other.
    pub proof fn lemma_off_branch_twice(self, n: int, k: int, a: Trace, b: Trace, c: Trace)
        requires
            self.off_branch(n, k, a, b),
            self.off_branch(n, k, b, c),
        ensures
            self.off_branch(n, k, a, c),
    {
        assert forall|v: int|
            0 <= v < a.model.len() && !self.branch_vars(n, k).contains(v as nat) implies (
        #[trigger] a.model[v]) == c.model[v] by {
            assert(a.model[v] == b.model[v]);
            assert(b.model[v] == c.model[v]);
        }
        assert forall|m: int|
            0 <= m < a.graph.len() && self.nodes[m] is Or && !self.below(
                m,
                self.child(n, k),
            ) implies (#[trigger] a.graph[m]) == c.graph[m] by {
            assert(a.graph[m] == b.graph[m]);
            assert(b.graph[m] == c.graph[m]);
        }
    }

    /// Changes off the region of a node, one after the other.
    pub proof fn lemma_same_off_twice(self, n: int, a: Trace, b: Trace, c: Trace)
        requires
            self.same_off(n, Set::empty(), a, b),
            self.same_off(n, Set::empty(), b, c),
        ensures
            self.same_off(n, Set::empty(), a, c),
    {
        assert forall|v: int|
            0 <= v < a.model.len() && !self.involved(n).contains(v as nat) implies (
        #[trigger] a.model[v]) == c.model[v] by {
            assert(a.model[v] == b.model[v]);
            assert(b.model[v] == c.model[v]);
        }
        assert forall|m: int|
            0 <= m < a.graph.len() && self.nodes[m] is Or && !self.below(m, n) implies (
        #[trigger] a.graph[m]) == c.graph[m] by {
            assert(a.graph[m] == b.graph[m]);
            assert(b.graph[m] == c.graph[m]);
        }
    }

    /// The next path through the first edges of a conjunction node exists
    /// exactly where the index that the state shows for them is not the
    /// last, and then shows the next index; the state changes only in the
    /// regions of these branches.
    pub proof fn lemma_next_and(self, q: Query, n: int, i: int, r: nat, t: Trace)
        requires
            self.regular(q),
            0 <= n < self.nodes.len(),
            self.nodes[n] is And,
            0 <= i <= self.edge_list(n).len(),
            self.fits(q, t),
            self.shows_and(q, n, i, r, t),
            r < self.product_upto(q, n, i),
        ensures
            self.next_and(q, n, i, t).1 == (r + 1 < self.product_upto(q, n, i)),
            self.next_and(q, n, i, t).1 ==> self.shows_and(
                q,
                n,
                i,
                r + 1,
                self.next_and(q, n, i, t).0,
            ),
            self.fits(q, self.next_and(q, n, i, t).0),
            self.off_branches(n, i, t, self.next_and(q, n, i, t).0),
        decreases self.rank()[n], 0nat, i,
    {
        if i == 0 {
            assert(self.product_upto(q, n, 0) == 1);
            assert(self.next_and(q, n, 0, t) == (t, false));
        } else {
            self.lemma_child_below(n, i - 1);
            let child = self.child(n, i - 1);
            let c = self.count(q, child);
            let p = self.edge(n, i - 1).propagated;
            let before = self.product_upto(q, n, i - 1);
            lemma_propagated_in_range(self, n, i - 1);
            assert(self.shows_and(q, n, i, r, t) == (c > 0 && !self.blocked(q, n, i - 1)
                && write_all(t.model, p) == t.model && self.shows(q, child, r % c, t)
                && self.shows_and(q, n, i - 1, r / c, t)));
            assert(self.count_via(q, n, i - 1) == c);
            assert(self.product_upto(q, n, i) == before * c);
            let d = r % c;
            let rest = r / c;
            lemma_digit_step(r, c);
            lemma_digits_bound(r, before, c);
            lemma_digits_bound(r + 1, before, c);
            assert(literal_vars(p).disjoint(self.involved(child))) by {
                assert(self.child(n, i - 1) == child);
            }
            self.lemma_next_path(q, child, d, t);
            let moved = self.next_path(q, child, t);
            assert(self.next_and(q, n, i, t) == if moved.1 {
                moved
            } else {
                self.next_and(q, n, i - 1, self.first_path(q, child, moved.0).0)
            });
            self.lemma_off_child(n, i - 1, t, moved.0);
            if moved.1 {
                let t1 = moved.0;
                assert forall|k: int| 0 <= k < i - 1 implies self.same_on_branch(n, k, t, t1) by {
                    self.lemma_other_branch(q, n, i - 1, k, t, t1);
                }
                self.lemma_shows_and_same(q, n, i - 1, rest, t, t1);
                assert forall|v: int|
                    0 <= v < t.model.len() && literal_vars(p).contains(v as nat) implies t.model[v]
                    == t1.model[v] by {
                    assert(!self.involved(child).contains(v as nat));
                }
                lemma_write_all_stable(t.model, t1.model, p);
                assert(self.shows_and(q, n, i, r + 1, t1) == (c > 0 && !self.blocked(q, n, i - 1)
                    && write_all(t1.model, p) == t1.model && self.shows(
                    q,
                    child,
                    (r + 1) % c,
                    t1,
                ) && self.shows_and(q, n, i - 1, (r + 1) / c, t1)));
                assert forall|v: int|
                    0 <= v < t.model.len() && (forall|k: int|
                        0 <= k < i ==> !(#[trigger] self.branch_vars(n, k)).contains(
                            v as nat,
                        )) implies (#[trigger] t.model[v]) == t1.model[v] by {
                    assert(!self.branch_vars(n, i - 1).contains(v as nat));
                }
                assert forall|m: int|
                    0 <= m < t.graph.len() && self.nodes[m] is Or && (forall|k: int|
                        0 <= k < i ==> !self.below(m, #[trigger] self.child(n, k))) implies (
                #[trigger] t.graph[m]) == t1.graph[m] by {
                    assert(!self.below(m, self.child(n, i - 1)));
                }
            } else {
                let t1 = moved.0;
                self.lemma_first_path(q, child, t1);
                let t2 = self.first_path(q, child, t1).0;
                self.lemma_off_child(n, i - 1, t1, t2);
                self.lemma_off_branch_twice(n, i - 1, t, t1, t2);
                assert forall|k: int| 0 <= k < i - 1 implies self.same_on_branch(n, k, t, t2) by {
                    self.lemma_other_branch(q, n, i - 1, k, t, t2);
                }
                self.lemma_shows_and_same(q, n, i - 1, rest, t, t2);
                self.lemma_next_and(q, n, i - 1, rest, t2);
                let y = self.next_and(q, n, i - 1, t2);
                self.lemma_off_branches_after(n, i, t, t2, y.0);
                if y.1 {
                    self.lemma_later_branch(q, n, i - 1, i - 1, t2, y.0);
                    self.lemma_same_on_child(n, i - 1, t2, y.0);
                    self.lemma_shows_same(q, child, 0, t2, y.0);
                    assert forall|v: int|
                        0 <= v < t.model.len() && literal_vars(p).contains(
                            v as nat,
                        ) implies t.model[v] == y.0.model[v] by {
                        assert(!self.involved(child).contains(v as nat));
                        assert(t.model[v] == t1.model[v]);
                        assert(t1.model[v] == t2.model[v]);
                        assert(self.branch_vars(n, i - 1).contains(v as nat));
                        assert(t2.model[v] == y.0.model[v]);
                    }
                    lemma_write_all_stable(t.model, y.0.model, p);
                    assert(self.shows_and(q, n, i, r + 1, y.0) == (c > 0 && !self.blocked(
                        q,
                        n,
                        i - 1,
                    ) && write_all(y.0.model, p) == y.0.model && self.shows(
                        q,
                        child,
                        (r + 1) % c,
                        y.0,
                    ) && self.shows_and(q, n, i - 1, (r + 1) / c, y.0)));
                }
            }
        }
    }

    /// The next path from a node exists exactly where the index that the
    /// state shows at the node is not the last, and then shows the next
    /// index; the state changes only in the region of the node.
    pub proof fn lemma_next_path(self, q: Query, n: int, r: nat, t: Trace)
        requires
            self.regular(q),
            0 <= n < self.nodes.len(),
            self.fits(q, t),
            self.shows(q, n, r, t),
            r < self.count(q, n),
        ensures
            self.next_path(q, n, t).1 == (r + 1 < self.count(q, n)),
            self.next_path(q, n, t).1 ==> self.shows(q, n, r + 1, self.next_path(q, n, t).0),
            self.fits(q, self.next_path(q, n, t).0),
            self.same_off(n, Set::empty(), t, self.next_path(q, n, t).0),
        decreases self.rank()[n], 2nat, 0nat,
    {
        let len = self.edge_list(n).len() as int;
        match self.nodes[n] {
            NodeModel::And(_) => {
                assert(self.count(q, n) == self.product_upto(q, n, len));
                self.lemma_next_and(q, n, len, r, t);
                self.lemma_off_branches_node(n, len, t, self.next_and(q, n, len, t).0);
            },
            NodeModel::Or(_) => {
                self.lemma_next_or(q, n, r, t);
            },
            _ => {},
        }
    }

    /// The same at a disjunction node.
    pub proof fn lemma_next_or(self, q: Query, n: int, r: nat, t: Trace)
        requires
            self.regular(q),
            0 <= n < self.nodes.len(),
            self.nodes[n] is Or,
            self.fits(q, t),
            self.shows(q, n, r, t),
            r < self.count(q, n),
        ensures
            self.next_path(q, n, t).1 == (r + 1 < self.count(q, n)),
            self.next_path(q, n, t).1 ==> self.shows(q, n, r + 1, self.next_path(q, n, t).0),
            self.fits(q, self.next_path(q, n, t).0),
            self.same_off(n, Set::empty(), t, self.next_path(q, n, t).0),
        decreases self.rank()[n], 1nat, 0nat,
    {
        let len = self.edge_list(n).len() as int;
        assert(self.count(q, n) == self.sum_upto(q, n, len));
        assert(self.sum_upto(q, n, 0) == 0);
        let s = self.lemma_locate(q, n, 0, r, t);
        self.lemma_child_below(n, s);
        self.lemma_sum_grows(q, n, s, len);
        self.lemma_sum_grows(q, n, s + 1, len);
        let child = self.child(n, s);
        let p = self.edge(n, s).propagated;
        let open = self.open_vars(q, n, s);
        let w = self.weight(q, n, s);
        let gain = self.count_via(q, n, s);
        let total = self.branch_total(q, n, s);
        let local = (r - self.sum_upto(q, n, s)) as nat;
        let deep = local / pow2(w);
        lemma_propagated_in_range(self, n, s);
        self.lemma_open_vars(q, n, s);
        lemma_pow2_pos(w);
        lemma_digits_bound(local, gain, pow2(w));
        lemma_digits_bound(local + 1, gain, pow2(w));
        assert(gain > 0) by (nonlinear_arith)
            requires
                local < gain * pow2(w),
        ;
        assert(self.count_via(q, n, s) == if self.blocked(q, n, s) {
            0
        } else {
            self.count(q, child)
        });
        assert(literal_vars(p).disjoint(self.involved(child))) by {
            assert(self.child(n, s) == child);
        }
        assert(self.below(n, n));
        assert(!self.below(n, child));
        let stepped = if q.partial {
            (t.model, false)
        } else {
            advance_free(t.model, open)
        };
        let carried = Trace { model: write_all(stepped.0, p), graph: t.graph };
        assert(self.next_path(q, n, t) == if stepped.1 {
            (Trace { model: stepped.0, graph: t.graph }, true)
        } else {
            let below = self.next_path(q, child, carried);
            if below.1 {
                below
            } else {
                self.first_or(q, n, s + 1, below.0)
            }
        });
        // what the free variables hold after the step
        if q.partial {
            assert(pow2(0) == 1) by {
                vstd::arithmetic::power2::lemma2_to64();
            }
            assert(w == 0);
            lemma_write_free_erase(t.model, local, local + 1, open);
        } else {
            lemma_advance_is_increment(t.model, open, local);
            lemma_all_ones_carry(local, w);
            lemma_advance_free_keeps(q, t.model, open);
            lemma_write_free_twice(t.model, local + 1, open, false);
        }
        assert(write_free(stepped.0, local + 1, open, q.partial) == stepped.0);
        assert(q.partial || w == open.len());
        assert(q.partial || stepped.1 == !all_ones(local, w));
        assert(stepped.1 ==> (local + 1) / pow2(w) == deep);
        assert(!stepped.1 ==> (local + 1) / pow2(w) == deep + 1);
        let after_step = Trace { model: stepped.0, graph: t.graph };
        // the step touches the free variables only
        assert forall|v: int|
            0 <= v < t.model.len() && !literal_vars(open).contains(v as nat) implies t.model[v]
            == stepped.0[v] by {
            if !q.partial {
                assert forall|j: int| 0 <= j < open.len() implies (#[trigger] open[j]).var()
                    != v by {}
                lemma_advance_free_frame(t.model, open, v);
            }
        }
        assert forall|v: int|
            0 <= v < t.model.len() && self.branch_vars(n, s).contains(v as nat) implies t.model[v]
            == stepped.0[v] by {
            if literal_vars(open).contains(v as nat) {
                let j = choose|j: int| 0 <= j < open.len() && (#[trigger] open[j]).var() == v;
                assert(!self.branch_vars(n, s).contains(open[j].var()));
            }
        }
        assert(self.same_on(child, t, after_step));
        self.lemma_shows_same(q, child, deep, t, after_step);
        lemma_write_all_stable(t.model, stepped.0, p);
        assert(self.same_off(n, Set::empty(), t, after_step)) by {
            assert forall|v: int|
                0 <= v < t.model.len() && !self.involved(n).contains(v as nat) implies (
            #[trigger] t.model[v]) == after_step.model[v] by {
                if literal_vars(open).contains(v as nat) {
                    let j = choose|j: int| 0 <= j < open.len() && (#[trigger] open[j]).var() == v;
                    assert(self.involved(n).contains(open[j].var()));
                }
            }
        }
        if stepped.1 {
            assert(self.shows_or(q, n, s, local + 1, after_step) == if local + 1 < total {
                0 <= n < after_step.graph.len() && after_step.graph[n] == s && write_free(
                    after_step.model,
                    local + 1,
                    open,
                    q.partial,
                ) == after_step.model && write_all(after_step.model, p) == after_step.model
                    && self.shows(q, child, (local + 1) / pow2(w), after_step)
            } else {
                self.shows_or(q, n, s + 1, (local + 1 - total) as nat, after_step)
            });
            self.lemma_lift(q, n, 0, s, local + 1, after_step);
        } else {
            assert(carried == after_step);
            self.lemma_next_path(q, child, deep, carried);
            let below = self.next_path(q, child, carried);
            self.lemma_child_region(n, s, carried, below.0);
            self.lemma_same_off_twice(n, t, carried, below.0);
            if below.1 {
                let done = below.0;
                assert forall|v: int|
                    0 <= v < carried.model.len() && literal_vars(open).contains(
                        v as nat,
                    ) implies carried.model[v] == done.model[v] by {
                    let j = choose|j: int| 0 <= j < open.len() && (#[trigger] open[j]).var() == v;
                    assert(!self.branch_vars(n, s).contains(open[j].var()));
                    assert(!self.involved(child).contains(v as nat));
                }
                lemma_write_free_stable(carried.model, done.model, local + 1, open, q.partial);
                assert forall|v: int|
                    0 <= v < carried.model.len() && literal_vars(p).contains(
                        v as nat,
                    ) implies carried.model[v] == done.model[v] by {
                    assert(!self.involved(child).contains(v as nat));
                }
                lemma_write_all_stable(carried.model, done.model, p);
                assert(done.graph[n] == carried.graph[n]);
                assert(self.shows_or(q, n, s, local + 1, done) == if local + 1 < total {
                    0 <= n < done.graph.len() && done.graph[n] == s && write_free(
                        done.model,
                        local + 1,
                        open,
                        q.partial,
                    ) == done.model && write_all(done.model, p) == done.model && self.shows(
                        q,
                        child,
                        (local + 1) / pow2(w),
                        done,
                    )
                } else {
                    self.shows_or(q, n, s + 1, (local + 1 - total) as nat, done)
                });
                self.lemma_lift(q, n, 0, s, local + 1, done);
            } else {
                assert(local + 1 == total);
                self.lemma_first_or(q, n, s + 1, below.0);
                let x = self.first_or(q, n, s + 1, below.0);
                self.lemma_same_off_twice(n, t, below.0, x.0);
                if x.1 {
                    self.lemma_lift(q, n, 0, s + 1, 0, x.0);
                }
            }
        }
    }

    /// Changes off the region of the target of a branch are changes off the
    /// region of the node.
    pub proof fn lemma_child_region(self, n: int, k: int, a: Trace, b: Trace)
        requires
            self.wf(),
            0 <= n < self.nodes.len(),
            0 <= k < self.edge_list(n).len(),
            self.same_off(self.child(n, k), Set::empty(), a, b),
        ensures
            self.same_off(n, Set::empty(), a, b),
    {
        self.lemma_off_child(n, k, a, b);
        self.lemma_off_branch_node(n, k, a, b);
    }
}

} // verus!
