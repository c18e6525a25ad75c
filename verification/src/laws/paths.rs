//! The paths of a formula and the models that each of them stands for.

use crate::algorithms::counting::Query;
use crate::formula::decision_dnnf::Formula;
use crate::formula::decision_dnnf::NodeModel;
use crate::laws::sums::lemma_sum_product;
use crate::laws::sums::lemma_sum_same;
use crate::laws::sums::lemma_sum_scaled;
use crate::laws::sums::lemma_sum_split;
use crate::laws::sums::sum_to;
use vstd::arithmetic::power2::lemma_pow2_adds;
use vstd::arithmetic::power2::pow2;
use vstd::prelude::*;

verus! {

/// The query that counts the models under the assumptions of `q`.
pub open spec fn full(q: Query) -> Query {
    Query { assumptions: q.assumptions, partial: false }
}

impl Formula {
    /// The number of variables that the path of index `r` from node `n`
    /// leaves free: those that are free in the branches that it takes and
    /// that no assumption fixes.
    pub open spec fn path_weight(self, q: Query, n: int, r: nat) -> nat
        decreases self.rank()[n], 1nat, 0nat,
        when self.wf() && 0 <= n < self.nodes.len()
    {
        match self.nodes[n] {
            NodeModel::And(_) => self.path_weight_and(q, n, self.edge_list(n).len() as int, r),
            NodeModel::Or(_) => self.path_weight_or(q, n, 0, r),
            _ => 0,
        }
    }

    /// The same for the first `i` edges of the conjunction node `n`.
    pub open spec fn path_weight_and(self, q: Query, n: int, i: int, r: nat) -> nat
        decreases self.rank()[n], 0nat, i,
        when self.wf() && 0 <= n < self.nodes.len() && 0 <= i <= self.edge_list(n).len()
    {
        if i == 0 {
            0
        } else {
            proof {
                self.lemma_child(n, i - 1);
            }
            let c = self.count(q, self.child(n, i - 1));
            if c == 0 {
                0
            } else {
                self.path_weight(q, self.child(n, i - 1), r % c) + self.path_weight_and(
                    q,
                    n,
                    i - 1,
                    r / c,
                )
            }
        }
    }

    /// The same for the branches of the disjunction node `n` from the
    /// `i`-th on.
    pub open spec fn path_weight_or(self, q: Query, n: int, i: int, r: nat) -> nat
        decreases self.rank()[n], 0nat, self.edge_list(n).len() - i,
        when self.wf() && 0 <= n < self.nodes.len() && 0 <= i <= self.edge_list(n).len()
    {
        if i >= self.edge_list(n).len() {
            0
        } else {
            proof {
                self.lemma_child(n, i);
            }
            let total = self.branch_total(q, n, i);
            if r < total {
                self.weight(full(q), n, i) + self.path_weight(q, self.child(n, i), r)
            } else {
                self.path_weight_or(q, n, i + 1, (r - total) as nat)
            }
        }
    }

    /// The models that the paths from a node stand for are as many as the
    /// count of the node: each path stands for as many models as the
    /// variables that it leaves free have combinations of polarities.
    pub proof fn lemma_paths(self, q: Query, n: int)
        requires
            self.regular(q),
            q.partial,
            0 <= n < self.nodes.len(),
        ensures
            sum_to(self.count(q, n), |r: nat| pow2(self.path_weight(q, n, r))) == self.count(
                full(q),
                n,
            ),
        decreases self.rank()[n], 1nat, 0nat,
    {
        let len = self.edge_list(n).len() as int;
        let g = |r: nat| pow2(self.path_weight(q, n, r));
        match self.nodes[n] {
            NodeModel::And(_) => {
                self.lemma_paths_and(q, n, len);
                let h = |r: nat| pow2(self.path_weight_and(q, n, len, r));
                assert(self.count(q, n) == self.product_upto(q, n, len));
                assert(self.count(full(q), n) == self.product_upto(full(q), n, len));
                assert forall|r: nat| r < self.count(q, n) implies #[trigger] g(r) == h(r) by {}
                lemma_sum_same(self.count(q, n), g, h);
            },
            NodeModel::Or(_) => {
                self.lemma_paths_or(q, n, 0);
                let h = |r: nat| pow2(self.path_weight_or(q, n, 0, r));
                assert(self.count(q, n) == self.sum_upto(q, n, len));
                assert(self.count(full(q), n) == self.sum_upto(full(q), n, len));
                assert(self.sum_upto(q, n, 0) == 0);
                assert(self.sum_upto(full(q), n, 0) == 0);
                assert forall|r: nat| r < self.count(q, n) implies #[trigger] g(r) == h(r) by {}
                lemma_sum_same(self.count(q, n), g, h);
            },
            NodeModel::True => {
                assert(self.count(q, n) == 1);
                assert(sum_to(1, g) == sum_to(0, g) + g(0));
                assert(pow2(0) == 1) by {
                    vstd::arithmetic::power2::lemma2_to64();
                }
            },
            NodeModel::False => {},
        }
    }

    /// The same for the first `i` edges of a conjunction node.
    pub proof fn lemma_paths_and(self, q: Query, n: int, i: int)
        requires
            self.regular(q),
            q.partial,
            0 <= n < self.nodes.len(),
            self.nodes[n] is And,
            0 <= i <= self.edge_list(n).len(),
        ensures
            sum_to(
                self.product_upto(q, n, i),
                |r: nat| pow2(self.path_weight_and(q, n, i, r)),
            ) == self.product_upto(full(q), n, i),
        decreases self.rank()[n], 0nat, i,
    {
        let h = |r: nat| pow2(self.path_weight_and(q, n, i, r));
        if i == 0 {
            assert(self.product_upto(q, n, 0) == 1);
            assert(self.product_upto(full(q), n, 0) == 1);
            assert(sum_to(1, h) == sum_to(0, h) + h(0));
            assert(pow2(0) == 1) by {
                vstd::arithmetic::power2::lemma2_to64();
            }
        } else {
            self.lemma_child_below(n, i - 1);
            let child = self.child(n, i - 1);
            let c = self.count(q, child);
            let before = self.product_upto(q, n, i - 1);
            assert(self.edge(n, i - 1) == self.edge(n, i - 1));
            assert(!self.blocked(full(q), n, i - 1));
            assert(self.count_via(q, n, i - 1) == c);
            assert(self.count_via(full(q), n, i - 1) == self.count(full(q), child));
            assert(self.product_upto(q, n, i) == before * c);
            assert(self.product_upto(full(q), n, i) == self.product_upto(full(q), n, i - 1)
                * self.count(full(q), child));
            self.lemma_paths(q, child);
            self.lemma_paths_and(q, n, i - 1);
            let f = |x: nat| pow2(self.path_weight_and(q, n, i - 1, x));
            let g = |d: nat| pow2(self.path_weight(q, child, d));
            if c == 0 {
                assert(before * c == 0) by (nonlinear_arith)
                    requires
                        c == 0,
                ;
                assert(self.product_upto(full(q), n, i - 1) * self.count(full(q), child) == 0)
                    by (nonlinear_arith)
                    requires
                        self.count(full(q), child) == 0,
                ;
            } else {
                assert forall|r: nat| r < before * c implies #[trigger] h(r) == f(r / c) * g(
                    r % c,
                ) by {
                    lemma_pow2_adds(
                        self.path_weight(q, child, r % c),
                        self.path_weight_and(q, n, i - 1, r / c),
                    );
                    assert(pow2(self.path_weight(q, child, r % c)) * pow2(
                        self.path_weight_and(q, n, i - 1, r / c),
                    ) == pow2(self.path_weight_and(q, n, i - 1, r / c)) * pow2(
                        self.path_weight(q, child, r % c),
                    )) by (nonlinear_arith);
                }
                lemma_sum_product(before, c, f, g, h);
            }
        }
    }

    /// The same for the branches of a disjunction node from the `i`-th
    /// on.
    pub proof fn lemma_paths_or(self, q: Query, n: int, i: int)
        requires
            self.regular(q),
            q.partial,
            0 <= n < self.nodes.len(),
            self.nodes[n] is Or,
            0 <= i <= self.edge_list(n).len(),
        ensures
            self.sum_upto(q, n, self.edge_list(n).len() as int) >= self.sum_upto(q, n, i),
            self.sum_upto(full(q), n, self.edge_list(n).len() as int) >= self.sum_upto(
                full(q),
                n,
                i,
            ),
            sum_to(
                (self.sum_upto(q, n, self.edge_list(n).len() as int) - self.sum_upto(
                    q,
                    n,
                    i,
                )) as nat,
                |r: nat| pow2(self.path_weight_or(q, n, i, r)),
            ) == self.sum_upto(full(q), n, self.edge_list(n).len() as int) - self.sum_upto(
                full(q),
                n,
                i,
            ),
        decreases self.rank()[n], 0nat, self.edge_list(n).len() - i,
    {
        let len = self.edge_list(n).len() as int;
        let h = |r: nat| pow2(self.path_weight_or(q, n, i, r));
        self.lemma_sum_grows(q, n, i, len);
        self.lemma_sum_grows(full(q), n, i, len);
        if i < len {
            self.lemma_child_below(n, i);
            let child = self.child(n, i);
            let c = self.count(q, child);
            let w = self.weight(full(q), n, i);
            let rest = (self.sum_upto(q, n, len) - self.sum_upto(q, n, i + 1)) as nat;
            self.lemma_sum_grows(q, n, i + 1, len);
            self.lemma_sum_grows(full(q), n, i + 1, len);
            assert(pow2(0) == 1) by {
                vstd::arithmetic::power2::lemma2_to64();
            }
            assert(self.edge(n, i) == self.edge(n, i));
            assert(!self.blocked(full(q), n, i));
            assert(self.count_via(q, n, i) == c);
            assert(self.weight(q, n, i) == 0);
            assert(self.branch_total(q, n, i) == c);
            assert(self.count_via(full(q), n, i) == self.count(full(q), child));
            assert(self.branch_total(full(q), n, i) == self.count(full(q), child) * pow2(w));
            self.lemma_paths(q, child);
            self.lemma_paths_or(q, n, i + 1);
            let g = |d: nat| pow2(self.path_weight(q, child, d));
            let next = |r: nat| pow2(self.path_weight_or(q, n, i + 1, r));
            let shifted = |r: nat| h(c + r);
            let scaled = |d: nat| pow2(w) * g(d);
            assert forall|r: nat| r < rest implies #[trigger] shifted(r) == next(r) by {
                assert(((c + r) - c) as nat == r);
            }
            lemma_sum_same(rest, shifted, next);
            lemma_sum_split(c, rest, h, shifted);
            assert forall|d: nat| d < c implies #[trigger] h(d) == scaled(d) by {
                lemma_pow2_adds(w, self.path_weight(q, child, d));
            }
            lemma_sum_same(c, h, scaled);
            lemma_sum_scaled(c, pow2(w), g, scaled);
            assert(pow2(w) * self.count(full(q), child) == self.count(full(q), child) * pow2(w))
                by (nonlinear_arith);
        }
    }
}

} // verus!
