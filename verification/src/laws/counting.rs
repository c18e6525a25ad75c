//! Laws: what holds of the queries together, stated over the models of the
//! formula and of the queries, and proved.

use crate::algorithms::counting::lemma_unassumed_none;
use crate::algorithms::counting::mapping_of;
use crate::algorithms::counting::no_assumption;
use crate::algorithms::counting::Query;
use crate::algorithms::model_finder::first_polarity;
use crate::algorithms::model_finder::first_wins;
use crate::formula::assumptions::any_contradicts;
use crate::formula::assumptions::assumed_polarity;
use crate::formula::assumptions::valid_assumptions;
use crate::formula::decision_dnnf::Formula;
use crate::formula::decision_dnnf::NodeModel;
use crate::formula::involved_vars::complement;
use crate::formula::involved_vars::literals_of;
use crate::formula::literal::Literal;
use vstd::arithmetic::power2::lemma_pow2_pos;
use vstd::arithmetic::power2::pow2;
use vstd::prelude::*;

verus! {

impl Formula {
    /// Whether no branch of the graph is dead under the query `q`: each
    /// edge of a conjunction node brings models, and no edge of a
    /// disjunction node is blocked.
    pub open spec fn no_dead_branch(self, q: Query) -> bool {
        forall|n: int, i: int|
            #![trigger self.child(n, i)]
            0 <= n < self.nodes.len() && 0 <= i < self.edge_list(n).len() ==> (self.nodes[n] is And
                ==> self.count_via(q, n, i) > 0) && (self.nodes[n] is Or ==> !self.blocked(q, n, i))
    }

    /// The product of what the first edges of a node bring is at least what
    /// each of them brings, where each brings something.
    pub proof fn lemma_product_bounds(self, q: Query, n: int, i: int, j: int)
        requires
            self.wf(),
            0 <= n < self.nodes.len(),
            0 <= j < i <= self.edge_list(n).len(),
            forall|k: int| 0 <= k < i ==> self.count_via(q, n, k) > 0,
        ensures
            self.product_upto(q, n, i) >= self.count_via(q, n, j),
            self.product_upto(q, n, i) > 0,
        decreases i,
    {
        let rest = self.product_upto(q, n, i - 1);
        let last = self.count_via(q, n, i - 1);
        assert(self.product_upto(q, n, i) == rest * last);
        if i - 1 > 0 {
            self.lemma_product_bounds(q, n, i - 1, 0);
        } else {
            assert(self.product_upto(q, n, 0) == 1);
        }
        if j < i - 1 {
            self.lemma_product_bounds(q, n, i - 1, j);
            let x = self.count_via(q, n, j);
            assert(rest * last >= x) by (nonlinear_arith)
                requires
                    rest >= x,
                    last >= 1,
            ;
        } else {
            assert(rest * last >= last) by (nonlinear_arith)
                requires
                    rest >= 1,
            ;
        }
        assert(rest * last > 0) by (nonlinear_arith)
            requires
                rest >= 1,
                last >= 1,
        ;
    }

    /// The sum of what the first branches of a node add is at least what
    /// each of them brings.
    pub proof fn lemma_sum_bounds(self, q: Query, n: int, i: int, j: int)
        requires
            self.wf(),
            0 <= n < self.nodes.len(),
            0 <= j < i <= self.edge_list(n).len(),
        ensures
            self.sum_upto(q, n, i) >= self.count_via(q, n, j),
        decreases i,
    {
        let rest = self.sum_upto(q, n, i - 1);
        let last = self.count_via(q, n, i - 1);
        let doubling = pow2(self.weight(q, n, i - 1));
        assert(self.sum_upto(q, n, i) == rest + last * doubling);
        lemma_pow2_pos(self.weight(q, n, i - 1));
        assert(last * doubling >= last) by (nonlinear_arith)
            requires
                doubling >= 1,
                last >= 0,
        ;
        if j < i - 1 {
            self.lemma_sum_bounds(q, n, i - 1, j);
        }
    }

    /// Where no branch is dead, a node counts at least as much as each of
    /// its children.
    pub proof fn lemma_child_count(self, q: Query, n: int, i: int)
        requires
            self.wf(),
            self.no_dead_branch(q),
            0 <= n < self.nodes.len(),
            0 <= i < self.edge_list(n).len(),
        ensures
            self.count(q, self.child(n, i)) <= self.count(q, n),
    {
        self.lemma_child(n, i);
        let len = self.edge_list(n).len() as int;
        assert(self.count_via(q, n, i) == if self.blocked(q, n, i) {
            0
        } else {
            self.count(q, self.child(n, i))
        });
        match self.nodes[n] {
            NodeModel::And(_) => {
                assert forall|k: int| 0 <= k < len implies self.count_via(q, n, k) > 0 by {
                    assert(self.child(n, k) == self.child(n, k));
                }
                self.lemma_product_bounds(q, n, len, i);
                assert(self.count(q, n) == self.product_upto(q, n, len));
            },
            NodeModel::Or(_) => {
                assert(self.child(n, i) == self.child(n, i));
                self.lemma_sum_bounds(q, n, len, i);
                assert(self.count(q, n) == self.sum_upto(q, n, len));
            },
            _ => {},
        }
    }

    /// Where no branch is dead, a node that can be reached from the root
    /// along at most `k` edges counts no more than the root.
    pub proof fn lemma_reachable_count(self, q: Query, n: int, k: nat)
        requires
            self.wf(),
            self.no_dead_branch(q),
            0 <= n < self.nodes.len(),
            self.reachable_in(n, k),
        ensures
            self.count(q, n) <= self.count(q, 0),
        decreases k,
    {
        if n != 0 {
            let (m, i) = choose|m: int, i: int|
                0 <= m < self.nodes.len() && 0 <= i < self.edge_list(m).len() && #[trigger] self.child(
                    m,
                    i,
                ) == n && self.reachable_in(m, (k - 1) as nat);
            self.lemma_reachable_count(q, m, (k - 1) as nat);
            self.lemma_child_count(q, m, i);
        }
    }
}

/// The count of a node that can be reached from the root is at most the
/// count of the root, where no branch of the graph is dead: each edge of a
/// conjunction node brings models, and no edge of a disjunction node is
/// blocked by an assumption.
pub proof fn law_count_is_monotone(f: Formula, q: Query, node: int)
    requires
        f.wf(),
        f.no_dead_branch(q),
        0 <= node < f.nodes.len(),
        f.reachable(node),
    ensures
        f.count_from(q, node) <= f.count_from(q, 0),
{
    let k = choose|k: nat| f.reachable_in(node, k);
    f.lemma_reachable_count(q, node, k);
    lemma_pow2_pos(f.root_weight(q));
    let c = f.count(q, 0);
    let d = pow2(f.root_weight(q));
    assert(c * d >= c) by (nonlinear_arith)
        requires
            d >= 1,
            c >= 0,
    ;
}

/// Where no variable occurs twice in a list of literals, the first literal
/// of a variable is its last one.
pub proof fn lemma_first_is_last(literals: Seq<Literal>, n_vars: nat, var: nat)
    requires
        valid_assumptions(n_vars, literals),
    ensures
        first_polarity(literals, var) == assumed_polarity(literals, var),
    decreases literals.len(),
{
    if literals.len() > 0 {
        let rest = literals.drop_last();
        assert(valid_assumptions(n_vars, rest)) by {
            assert forall|i: int| 0 <= i < rest.len() implies (#[trigger] rest[i]).var()
                < n_vars by {
                assert(rest[i] == literals[i]);
            }
            assert forall|i: int, j: int| 0 <= i < j < rest.len() implies (#[trigger] rest[i]).var()
                != (#[trigger] rest[j]).var() by {
                assert(rest[i] == literals[i] && rest[j] == literals[j]);
            }
        }
        lemma_first_is_last(rest, n_vars, var);
        if literals.last().var() == var {
            lemma_absent(rest, literals, var);
        }
    }
}

/// A variable whose only literal is the last of a list has no literal
/// before it.
pub proof fn lemma_absent(rest: Seq<Literal>, literals: Seq<Literal>, var: nat)
    requires
        literals.len() > 0,
        rest == literals.drop_last(),
        literals.last().var() == var,
        forall|i: int, j: int|
            0 <= i < j < literals.len() ==> (#[trigger] literals[i]).var() != (
            #[trigger] literals[j]).var(),
    ensures
        first_polarity(rest, var) is None,
        assumed_polarity(rest, var) is None,
{
    lemma_no_literal(rest, var, literals);
}

/// A variable without literal in a list has no polarity in it.
pub proof fn lemma_no_literal(rest: Seq<Literal>, var: nat, literals: Seq<Literal>)
    requires
        rest.len() < literals.len(),
        forall|i: int| 0 <= i < rest.len() ==> rest[i] == literals[i],
        literals.last().var() == var,
        forall|i: int, j: int|
            0 <= i < j < literals.len() ==> (#[trigger] literals[i]).var() != (
            #[trigger] literals[j]).var(),
    ensures
        first_polarity(rest, var) is None,
        assumed_polarity(rest, var) is None,
    decreases rest.len(),
{
    if rest.len() > 0 {
        let shorter = rest.drop_last();
        assert forall|i: int| 0 <= i < shorter.len() implies shorter[i] == literals[i] by {
            assert(shorter[i] == rest[i]);
        }
        lemma_no_literal(shorter, var, literals);
        let k = rest.len() - 1;
        assert(rest.last() == literals[k]);
        assert(literals[k].var() != literals[literals.len() - 1].var());
    }
}

impl Formula {
    /// The walk of a finder succeeds from a node exactly where the node
    /// counts models.
    pub proof fn lemma_found_iff_count(self, q: Query, n: int)
        requires
            self.wf(),
            !q.partial,
            0 <= n < self.nodes.len(),
        ensures
            self.found(q.assumptions, n) is Some <==> self.count(q, n) > 0,
        decreases self.rank()[n], 1nat, 0nat,
    {
        let len = self.edge_list(n).len() as int;
        match self.nodes[n] {
            NodeModel::And(_) => {
                self.lemma_found_all_iff(q, n, len);
                assert(self.count(q, n) == self.product_upto(q, n, len));
            },
            NodeModel::Or(_) => {
                self.lemma_found_first_iff(q, n, 0);
                self.lemma_sum_positive(q, n, len);
                assert(self.count(q, n) == self.sum_upto(q, n, len));
            },
            _ => {},
        }
    }

    /// The walk succeeds through an edge exactly where the edge brings
    /// models.
    pub proof fn lemma_found_via_iff(self, q: Query, n: int, i: int)
        requires
            self.wf(),
            !q.partial,
            0 <= n < self.nodes.len(),
            0 <= i < self.edge_list(n).len(),
        ensures
            self.found_via(q.assumptions, n, i) is Some <==> self.count_via(q, n, i) > 0,
        decreases self.rank()[n], 0nat, 0nat,
    {
        self.lemma_child(n, i);
        self.lemma_found_iff_count(q, self.child(n, i));
        assert(self.found_via(q.assumptions, n, i) == if any_contradicts(
            q.assumptions,
            self.edge(n, i).propagated,
        ) {
            None
        } else {
            match self.found(q.assumptions, self.child(n, i)) {
                None => None,
                Some(s) => Some(self.edge(n, i).propagated + s),
            }
        });
        assert(self.count_via(q, n, i) == if self.blocked(q, n, i) {
            0
        } else {
            self.count(q, self.child(n, i))
        });
    }

    /// The walk succeeds through the first edges of a conjunction node
    /// exactly where their product is positive.
    pub proof fn lemma_found_all_iff(self, q: Query, n: int, i: int)
        requires
            self.wf(),
            !q.partial,
            0 <= n < self.nodes.len(),
            0 <= i <= self.edge_list(n).len(),
        ensures
            self.found_all(q.assumptions, n, i) is Some <==> self.product_upto(q, n, i) > 0,
        decreases self.rank()[n], 0nat, i + 1,
    {
        if i > 0 {
            self.lemma_found_all_iff(q, n, i - 1);
            self.lemma_found_via_iff(q, n, i - 1);
            let rest = self.product_upto(q, n, i - 1);
            let last = self.count_via(q, n, i - 1);
            assert(self.product_upto(q, n, i) == rest * last);
            assert(rest * last > 0 <==> rest > 0 && last > 0) by (nonlinear_arith)
                requires
                    rest >= 0,
                    last >= 0,
            ;
            assert(self.found_all(q.assumptions, n, i) == match self.found_all(
                q.assumptions,
                n,
                i - 1,
            ) {
                None => None,
                Some(s) => match self.found_via(q.assumptions, n, i - 1) {
                    None => None,
                    Some(t) => Some(s + t),
                },
            });
        } else {
            assert(self.product_upto(q, n, 0) == 1);
        }
    }

    /// The walk succeeds through a branch of a disjunction node, from the
    /// `i`-th on, exactly where one of these branches brings models.
    pub proof fn lemma_found_first_iff(self, q: Query, n: int, i: int)
        requires
            self.wf(),
            !q.partial,
            0 <= n < self.nodes.len(),
            0 <= i <= self.edge_list(n).len(),
        ensures
            self.found_first(q.assumptions, n, i) is Some <==> exists|j: int|
                i <= j < self.edge_list(n).len() && #[trigger] self.count_via(q, n, j) > 0,
        decreases self.rank()[n], 0nat, self.edge_list(n).len() - i + 1,
    {
        if i < self.edge_list(n).len() {
            self.lemma_found_via_iff(q, n, i);
            self.lemma_found_first_iff(q, n, i + 1);
            assert(self.found_first(q.assumptions, n, i) == match self.found_via(
                q.assumptions,
                n,
                i,
            ) {
                Some(t) => Some(t),
                None => self.found_first(q.assumptions, n, i + 1),
            });
            if self.count_via(q, n, i) > 0 {
            } else if self.found_first(q.assumptions, n, i + 1) is Some {
                let j = choose|j: int|
                    i + 1 <= j < self.edge_list(n).len() && #[trigger] self.count_via(q, n, j) > 0;
                assert(i <= j < self.edge_list(n).len() && self.count_via(q, n, j) > 0);
            } else {
                assert forall|j: int|
                    i <= j < self.edge_list(n).len() implies !(#[trigger] self.count_via(q, n, j)
                    > 0) by {
                    if j > i {
                        assert(i + 1 <= j);
                    }
                }
            }
        }
    }

    /// The sum of what the first branches of a node add is positive exactly
    /// where one of them brings models.
    pub proof fn lemma_sum_positive(self, q: Query, n: int, i: int)
        requires
            self.wf(),
            0 <= n < self.nodes.len(),
            0 <= i <= self.edge_list(n).len(),
        ensures
            self.sum_upto(q, n, i) > 0 <==> exists|j: int|
                0 <= j < i && #[trigger] self.count_via(q, n, j) > 0,
        decreases i,
    {
        if i > 0 {
            self.lemma_sum_positive(q, n, i - 1);
            let rest = self.sum_upto(q, n, i - 1);
            let last = self.count_via(q, n, i - 1);
            let doubling = pow2(self.weight(q, n, i - 1));
            lemma_pow2_pos(self.weight(q, n, i - 1));
            assert(self.sum_upto(q, n, i) == rest + last * doubling);
            assert(last * doubling > 0 <==> last > 0) by (nonlinear_arith)
                requires
                    doubling >= 1,
                    last >= 0,
            ;
            if rest > 0 {
                let j = choose|j: int| 0 <= j < i - 1 && #[trigger] self.count_via(q, n, j) > 0;
                assert(0 <= j < i && self.count_via(q, n, j) > 0);
            } else if last > 0 {
                assert(self.count_via(q, n, i - 1) > 0);
            } else {
                assert forall|j: int| 0 <= j < i implies !(#[trigger] self.count_via(q, n, j)
                    > 0) by {
                    if j < i - 1 {
                        assert(0 <= j < i - 1);
                    }
                }
            }
        } else {
            assert(self.sum_upto(q, n, 0) == 0);
        }
    }
}

/// A finder finds a model under assumptions exactly where the formula
/// counts models under these assumptions. The assumptions speak of
/// variables of the formula, no two of the same variable.
pub proof fn law_finder_agrees_with_counter(f: Formula, assumptions: Seq<Literal>)
    requires
        f.wf(),
        valid_assumptions(f.n_vars, assumptions),
    ensures
        f.found(first_wins(f.n_vars, assumptions), 0) is Some <==> f.global_count(
            Query { assumptions: mapping_of(f.n_vars, assumptions), partial: false },
        ) > 0,
{
    let q = Query { assumptions: mapping_of(f.n_vars, assumptions), partial: false };
    assert(first_wins(f.n_vars, assumptions) =~= mapping_of(f.n_vars, assumptions)) by {
        assert forall|v: int| 0 <= v < f.n_vars implies first_wins(f.n_vars, assumptions)[v]
            == mapping_of(f.n_vars, assumptions)[v] by {
            lemma_first_is_last(assumptions, f.n_vars, v as nat);
        }
    }
    f.lemma_found_iff_count(q, 0);
    lemma_pow2_pos(f.root_weight(q));
    let c = f.count(q, 0);
    let d = pow2(f.root_weight(q));
    assert(c * d > 0 <==> c > 0) by (nonlinear_arith)
        requires
            d >= 1,
            c >= 0,
    ;
}

/// A formula whose root is the false node has no model: its count is 0, no
/// index is that of a model, the first request of an enumeration gives no
/// model, and a finder finds none.
pub proof fn law_false_root(f: Formula, q: Query, k: int)
    requires
        f.wf(),
        f.nodes[0] is False,
    ensures
        f.global_count(q) == 0,
        f.model_at(q, k) is None,
        !f.next_state(q, f.initial_state(q)).has_model,
        f.found(q.assumptions, 0) is None,
{
    assert(f.count(q, 0) == 0);
    assert(f.global_count(q) == 0) by (nonlinear_arith)
        requires
            f.global_count(q) == f.count(q, 0) * pow2(f.root_weight(q)),
            f.count(q, 0) == 0,
    ;
}

/// The listing of all the variables below `n` holds `n` literals.
pub proof fn lemma_all_listed(s: Set<nat>, n: nat, positive: bool)
    requires
        forall|v: nat| v < n ==> s.contains(v),
    ensures
        literals_of(s, 0, n, positive).len() == n,
    decreases n,
{
    if n > 0 {
        lemma_all_listed(s, (n - 1) as nat, positive);
    }
}

/// A formula whose root is the true node has, with no assumption, as many
/// models as there are assignments of its variables, and one path.
pub proof fn law_true_root(f: Formula)
    requires
        f.wf(),
        f.nodes[0] is True,
    ensures
        f.global_count(Query { assumptions: no_assumption(f.n_vars), partial: false }) == pow2(
            f.n_vars,
        ),
        f.global_count(Query { assumptions: no_assumption(f.n_vars), partial: true }) == 1,
{
    let q = Query { assumptions: no_assumption(f.n_vars), partial: false };
    let p = Query { assumptions: no_assumption(f.n_vars), partial: true };
    assert(f.count(q, 0) == 1);
    assert(f.count(p, 0) == 1);
    assert(f.involved(0) == f.involved_upto(0, f.edge_list(0).len() as int));
    assert(f.involved_upto(0, 0) == Set::<nat>::empty());
    lemma_all_listed(complement(f.involved(0), f.n_vars), f.n_vars, false);
    lemma_unassumed_none(f.root_free_vars(), f.n_vars);
    assert(pow2(0) == 1) by {
        vstd::arithmetic::power2::lemma2_to64();
    }
    assert(1 * pow2(f.n_vars) == pow2(f.n_vars)) by (nonlinear_arith);
}

} // verus!
