//! The variables that a path leaves free, and the models that the paths
//! stand for together.

use crate::algorithms::counting::Query;
use crate::algorithms::direct_access::vars_below;
use crate::algorithms::direct_access::write_all;
use crate::algorithms::direct_access::write_free;
use crate::algorithms::direct_access::Trace;
use crate::algorithms::model_enumerator::lemma_propagated_in_range;
use crate::formula::decision_dnnf::Formula;
use crate::formula::decision_dnnf::NodeModel;
use crate::formula::involved_vars::literal_vars;
use crate::formula::literal::Literal;
use crate::laws::distinct::lemma_last_literal;
use crate::laws::enumeration::holding;
use crate::laws::increment::canonical;
use crate::laws::increment::lemma_canonical_rest;
use crate::laws::increment::lemma_write_free_frame;
use crate::laws::paths::full;
use crate::laws::regions::lemma_write_all_places;
use crate::laws::sums::lemma_sum_same;
use crate::laws::sums::lemma_sum_scaled;
use crate::laws::sums::sum_to;
use vstd::arithmetic::power2::lemma_pow2_adds;
use vstd::arithmetic::power2::pow2;
use vstd::prelude::*;

verus! {

/// 1 where the variable `v` is in `vars` and the model holds nothing for
/// it, else 0.
pub open spec fn free_at(model: Seq<Option<Literal>>, vars: Set<nat>, v: int) -> nat {
    if vars.contains(v as nat) && model[v] is None {
        1
    } else {
        0
    }
}

/// The number of variables of `vars` below `hi` for which the model holds
/// nothing.
pub open spec fn free_in(model: Seq<Option<Literal>>, vars: Set<nat>, hi: nat) -> nat
    decreases hi,
{
    if hi == 0 {
        0
    } else {
        free_in(model, vars, (hi - 1) as nat) + free_at(model, vars, hi - 1)
    }
}

/// The number of variables for which a model holds nothing.
pub open spec fn free_slots(model: Seq<Option<Literal>>) -> nat {
    free_in(model, Set::full(), model.len())
}

/// Where each variable that counts in `a` counts in exactly one of `b` and
/// `c`, and the other way round, `a` has as many free variables as `b` and
/// `c` together.
pub proof fn lemma_free_in_sum(
    model: Seq<Option<Literal>>,
    a: Set<nat>,
    b: Set<nat>,
    c: Set<nat>,
    hi: nat,
)
    requires
        forall|v: int|
            0 <= v < hi ==> #[trigger] free_at(model, a, v) == free_at(model, b, v) + free_at(
                model,
                c,
                v,
            ),
    ensures
        free_in(model, a, hi) == free_in(model, b, hi) + free_in(model, c, hi),
    decreases hi,
{
    if hi > 0 {
        lemma_free_in_sum(model, a, b, c, (hi - 1) as nat);
        assert(free_at(model, a, hi - 1) == free_at(model, b, hi - 1) + free_at(model, c, hi - 1));
    }
}

/// A set in which no variable is free has no free variable.
pub proof fn lemma_free_in_none(model: Seq<Option<Literal>>, a: Set<nat>, hi: nat)
    requires
        forall|v: int| 0 <= v < hi ==> #[trigger] free_at(model, a, v) == 0,
    ensures
        free_in(model, a, hi) == 0,
    decreases hi,
{
    if hi > 0 {
        lemma_free_in_none(model, a, (hi - 1) as nat);
        assert(free_at(model, a, hi - 1) == 0);
    }
}

/// Two sets with the same free variables have as many of them.
pub proof fn lemma_free_in_same(model: Seq<Option<Literal>>, a: Set<nat>, b: Set<nat>, hi: nat)
    requires
        forall|v: int| 0 <= v < hi ==> #[trigger] free_at(model, a, v) == free_at(model, b, v),
    ensures
        free_in(model, a, hi) == free_in(model, b, hi),
    decreases hi,
{
    if hi > 0 {
        lemma_free_in_same(model, a, b, (hi - 1) as nat);
        assert(free_at(model, a, hi - 1) == free_at(model, b, hi - 1));
    }
}

/// The variables of a canonical list for which the model holds nothing
/// are as many as the list is long.
pub proof fn lemma_free_in_list(model: Seq<Option<Literal>>, list: Seq<Literal>, hi: nat)
    requires
        canonical(list, hi),
        forall|j: int| 0 <= j < list.len() ==> model[(#[trigger] list[j]).var() as int] is None,
    ensures
        free_in(model, literal_vars(list), hi) == list.len(),
    decreases hi,
{
    let vars = literal_vars(list);
    if hi == 0 {
        if list.len() > 0 {
            assert(list[0].var() < hi);
        }
    } else {
        let top = (hi - 1) as nat;
        if vars.contains(top) {
            let j = choose|j: int| 0 <= j < list.len() && (#[trigger] list[j]).var() == top;
            if j < list.len() - 1 {
                assert(list[j].var() < list[list.len() - 1].var());
            }
            let rest = list.drop_last();
            assert(canonical(rest, top)) by {
                assert forall|i: int| 0 <= i < rest.len() implies !(
                #[trigger] rest[i]).is_positive() && rest[i].var() < top by {
                    assert(rest[i] == list[i]);
                    assert(list[i].var() < list[list.len() - 1].var());
                }
                assert forall|a: int, b: int| 0 <= a < b < rest.len() implies (
                #[trigger] rest[a]).var() < (#[trigger] rest[b]).var() by {
                    assert(rest[a] == list[a] && rest[b] == list[b]);
                }
            }
            assert forall|i: int| 0 <= i < rest.len() implies model[(
            #[trigger] rest[i]).var() as int] is None by {
                assert(rest[i] == list[i]);
            }
            lemma_free_in_list(model, rest, top);
            assert forall|v: int| 0 <= v < top implies #[trigger] free_at(model, vars, v)
                == free_at(model, literal_vars(rest), v) by {
                if vars.contains(v as nat) {
                    let i = choose|i: int| 0 <= i < list.len() && (#[trigger] list[i]).var() == v;
                    assert(rest[i].var() == v);
                }
                if literal_vars(rest).contains(v as nat) {
                    let i = choose|i: int| 0 <= i < rest.len() && (#[trigger] rest[i]).var() == v;
                    assert(list[i].var() == v);
                }
            }
            lemma_free_in_same(model, vars, literal_vars(rest), top);
            assert(free_at(model, vars, hi - 1) == 1);
        } else {
            assert(canonical(list, top)) by {
                assert forall|i: int| 0 <= i < list.len() implies !(
                #[trigger] list[i]).is_positive() && list[i].var() < top by {
                    assert(vars.contains(list[i].var()));
                }
            }
            lemma_free_in_list(model, list, top);
        }
    }
}

/// Where the free variables of a canonical list lose their literal, the
/// model holds nothing for them.
pub proof fn lemma_write_free_erases(
    model: Seq<Option<Literal>>,
    k: nat,
    free_vars: Seq<Literal>,
    var: int,
)
    requires
        canonical(free_vars, model.len()),
        0 <= var < model.len(),
        literal_vars(free_vars).contains(var as nat),
    ensures
        write_free(model, k, free_vars, true)[var] is None,
    decreases free_vars.len(),
{
    let v = free_vars.last();
    let rest = free_vars.drop_last();
    let j = choose|j: int| 0 <= j < free_vars.len() && (#[trigger] free_vars[j]).var() == var;
    lemma_canonical_rest(free_vars, model.len());
    let written = model.update(v.var() as int, None);
    assert(vars_below(rest, model.len()));
    if v.var() == var {
        lemma_write_free_frame(written, k / 2, rest, true, var);
    } else {
        assert(rest[j].var() == var);
        assert(literal_vars(rest).contains(var as nat));
        lemma_write_free_erases(written, k / 2, rest, var);
    }
}

impl Formula {
    /// The weight of a path that takes the branch `s` of a disjunction
    /// node, seen from the branches from the `i`-th on.
    pub proof fn lemma_path_weight_at(self, q: Query, n: int, i: int, s: int, local: nat)
        requires
            self.wf(),
            0 <= n < self.nodes.len(),
            0 <= i <= s < self.edge_list(n).len(),
            local < self.branch_total(q, n, s),
        ensures
            self.sum_upto(q, n, s) >= self.sum_upto(q, n, i),
            self.path_weight_or(
                q,
                n,
                i,
                (self.sum_upto(q, n, s) - self.sum_upto(q, n, i) + local) as nat,
            ) == self.weight(full(q), n, s) + self.path_weight(q, self.child(n, s), local),
        decreases s - i,
    {
        self.lemma_sum_grows(q, n, i, s);
        if i < s {
            self.lemma_path_weight_at(q, n, i + 1, s, local);
            self.lemma_sum_grows(q, n, i + 1, s);
            let total = self.branch_total(q, n, i);
            let x = (self.sum_upto(q, n, s) - self.sum_upto(q, n, i) + local) as nat;
            assert(x >= total);
            assert(self.path_weight_or(q, n, i, x) == self.path_weight_or(
                q,
                n,
                i + 1,
                (x - total) as nat,
            ));
        }
    }

    /// A state that shows a path from a node holds nothing for as many of
    /// the variables involved at the node as the path leaves free.
    pub proof fn lemma_path_free(self, q: Query, n: int, r: nat, t: Trace)
        requires
            self.regular(q),
            q.partial,
            0 <= n < self.nodes.len(),
            self.fits(q, t),
            self.shows(q, n, r, t),
        ensures
            free_in(t.model, self.involved(n), self.n_vars) == self.path_weight(q, n, r),
        decreases self.rank()[n], 1nat, 0nat,
    {
        let len = self.edge_list(n).len() as int;
        match self.nodes[n] {
            NodeModel::And(_) => {
                self.lemma_path_free_and(q, n, len, r, t);
            },
            NodeModel::Or(_) => {
                self.lemma_path_free_or(q, n, r, t);
            },
            _ => {
                assert(self.involved(n) == self.involved_upto(n, 0));
                lemma_free_in_none(t.model, self.involved(n), self.n_vars);
            },
        }
    }

    /// The same for the first `i` edges of a conjunction node.
    pub proof fn lemma_path_free_and(self, q: Query, n: int, i: int, r: nat, t: Trace)
        requires
            self.regular(q),
            q.partial,
            0 <= n < self.nodes.len(),
            self.nodes[n] is And,
            0 <= i <= self.edge_list(n).len(),
            self.fits(q, t),
            self.shows_and(q, n, i, r, t),
        ensures
            free_in(t.model, self.involved_upto(n, i), self.n_vars) == self.path_weight_and(
                q,
                n,
                i,
                r,
            ),
        decreases self.rank()[n], 0nat, i,
    {
        if i == 0 {
            lemma_free_in_none(t.model, self.involved_upto(n, 0), self.n_vars);
        } else {
            self.lemma_child_below(n, i - 1);
            let child = self.child(n, i - 1);
            let c = self.count(q, child);
            let p = self.edge(n, i - 1).propagated;
            lemma_propagated_in_range(self, n, i - 1);
            assert(self.shows_and(q, n, i, r, t) == (c > 0 && !self.blocked(q, n, i - 1)
                && write_all(t.model, p) == t.model && self.shows(q, child, r % c, t)
                && self.shows_and(q, n, i - 1, r / c, t)));
            self.lemma_path_free(q, child, r % c, t);
            self.lemma_path_free_and(q, n, i - 1, r / c, t);
            assert(self.involved_upto(n, i) == self.involved_upto(n, i - 1).union(
                self.branch_vars(n, i - 1),
            ));
            assert(self.branch_vars(n, i - 1) == literal_vars(p).union(self.involved(child)));
            assert(self.decomposable_at(n));
            assert forall|v: int| 0 <= v < self.n_vars implies #[trigger] free_at(
                t.model,
                self.involved_upto(n, i),
                v,
            ) == free_at(t.model, self.involved_upto(n, i - 1), v) + free_at(
                t.model,
                self.involved(child),
                v,
            ) by {
                if literal_vars(p).contains(v as nat) {
                    lemma_write_all_places(t.model, p, v);
                    lemma_last_literal(p, v as nat);
                }
                if self.involved_upto(n, i - 1).contains(v as nat) && self.involved(
                    child,
                ).contains(v as nat) {
                    self.lemma_involved_upto_witness(n, i - 1, v as nat);
                    let j = choose|j: int|
                        0 <= j < i - 1 && (#[trigger] self.branch_vars(n, j)).contains(v as nat);
                    assert(self.branch_vars(n, j).disjoint(self.branch_vars(n, i - 1)));
                }
            }
            lemma_free_in_sum(
                t.model,
                self.involved_upto(n, i),
                self.involved_upto(n, i - 1),
                self.involved(child),
                self.n_vars,
            );
        }
    }

    /// The same at a disjunction node.
    pub proof fn lemma_path_free_or(self, q: Query, n: int, r: nat, t: Trace)
        requires
            self.regular(q),
            q.partial,
            0 <= n < self.nodes.len(),
            self.nodes[n] is Or,
            self.fits(q, t),
            self.shows(q, n, r, t),
        ensures
            free_in(t.model, self.involved(n), self.n_vars) == self.path_weight(q, n, r),
        decreases self.rank()[n], 0nat, 0nat,
    {
        assert(self.sum_upto(q, n, 0) == 0);
        let s = self.lemma_locate(q, n, 0, r, t);
        self.lemma_child_below(n, s);
        let child = self.child(n, s);
        let p = self.edge(n, s).propagated;
        let open = self.open_vars(q, n, s);
        let local = (r - self.sum_upto(q, n, s)) as nat;
        lemma_propagated_in_range(self, n, s);
        self.lemma_open_vars(q, n, s);
        assert(pow2(0) == 1) by {
            vstd::arithmetic::power2::lemma2_to64();
        }
        assert(self.weight(q, n, s) == 0);
        assert(pow2(self.weight(q, n, s)) == 1);
        assert(local / 1 == local);
        assert(local / pow2(self.weight(q, n, s)) == local);
        self.lemma_path_free(q, child, local, t);
        self.lemma_path_weight_at(q, n, 0, s, local);
        assert(self.branch_vars(n, s) == literal_vars(p).union(self.involved(child)));
        assert(self.open_vars(full(q), n, s) == open);
        assert forall|j: int| 0 <= j < open.len() implies t.model[(
        #[trigger] open[j]).var() as int] is None by {
            let v = open[j].var() as int;
            assert(literal_vars(open).contains(v as nat));
            lemma_write_free_erases(t.model, local, open, v);
        }
        lemma_free_in_list(t.model, open, self.n_vars);
        assert forall|v: int| 0 <= v < self.n_vars implies #[trigger] free_at(
            t.model,
            self.involved(n),
            v,
        ) == free_at(t.model, literal_vars(open), v) + free_at(t.model, self.involved(child), v) by {
            if literal_vars(p).contains(v as nat) {
                lemma_write_all_places(t.model, p, v);
                lemma_last_literal(p, v as nat);
            }
            if literal_vars(open).contains(v as nat) {
                let j = choose|j: int| 0 <= j < open.len() && (#[trigger] open[j]).var() == v;
                assert(self.involved(n).contains(open[j].var()));
                assert(!self.branch_vars(n, s).contains(open[j].var()));
            } else if self.involved(n).contains(v as nat) && !self.branch_vars(n, s).contains(
                v as nat,
            ) {
                if !(q.assumptions[v] is Some) {
                    self.lemma_open_vars_cover(q, n, s, v as nat);
                }
            }
        }
        lemma_free_in_sum(
            t.model,
            self.involved(n),
            literal_vars(open),
            self.involved(child),
            self.n_vars,
        );
    }

    /// The paths stand for the models: where paths are counted, the sum
    /// over the paths of the number of combinations of polarities of the
    /// variables that the model of the path leaves free is the count of the
    /// models under the same assumptions.
    pub proof fn law_paths_stand_for_the_models(self, q: Query)
        requires
            self.regular(q),
            q.partial,
        ensures
            sum_to(
                self.global_count(q),
                |k: nat| pow2(free_slots(self.trace_at(q, k).model)),
            ) == self.global_count(full(q)),
    {
        let open = self.open_root_vars(q);
        let w = self.root_weight(full(q));
        let paths = self.count(q, 0);
        assert(pow2(0) == 1) by {
            vstd::arithmetic::power2::lemma2_to64();
        }
        assert(self.root_weight(q) == 0);
        assert(self.global_count(q) == paths);
        assert(self.open_root_vars(full(q)) == open);
        self.lemma_open_root_vars(q);
        self.lemma_paths(q, 0);
        let h = |k: nat| pow2(free_slots(self.trace_at(q, k).model));
        let g = |k: nat| pow2(self.path_weight(q, 0, k));
        let scaled = |k: nat| pow2(w) * g(k);
        assert forall|k: nat| k < paths implies #[trigger] h(k) == scaled(k) by {
            let t = self.trace_at(q, k);
            self.lemma_trace_at(q, k);
            assert(self.at_index(q, holding(self, q, k), k));
            assert(pow2(self.root_weight(q)) == 1);
            assert(k / 1 == k);
            assert(k / pow2(self.root_weight(q)) == k);
            self.lemma_path_free(q, 0, k, t);
            assert forall|j: int| 0 <= j < open.len() implies t.model[(
            #[trigger] open[j]).var() as int] is None by {
                let v = open[j].var() as int;
                assert(literal_vars(open).contains(v as nat));
                lemma_write_free_erases(t.model, k, open, v);
            }
            lemma_free_in_list(t.model, open, self.n_vars);
            assert forall|v: int| 0 <= v < self.n_vars implies #[trigger] free_at(
                t.model,
                Set::full(),
                v,
            ) == free_at(t.model, literal_vars(open), v) + free_at(
                t.model,
                self.involved(0),
                v,
            ) by {
                if literal_vars(open).contains(v as nat) {
                    let j = choose|j: int| 0 <= j < open.len() && (#[trigger] open[j]).var() == v;
                    assert(!self.involved(0).contains(open[j].var()));
                } else if !self.involved(0).contains(v as nat) {
                    if !(q.assumptions[v] is Some) {
                        self.lemma_open_root_vars_cover(q, v as nat);
                    }
                }
            }
            lemma_free_in_sum(
                t.model,
                Set::full(),
                literal_vars(open),
                self.involved(0),
                self.n_vars,
            );
            lemma_pow2_adds(w, self.path_weight(q, 0, k));
        }
        lemma_sum_same(paths, h, scaled);
        lemma_sum_scaled(paths, pow2(w), g, scaled);
        assert(pow2(w) * self.count(full(q), 0) == self.count(full(q), 0) * pow2(w))
            by (nonlinear_arith);
    }

    /// The paths stand for the models of the formula: where the
    /// disjunction nodes are deterministic, the sum over the paths of the number of
    /// combinations of polarities of the free variables is the number of
    /// the models of the formula under the assumptions.
    pub proof fn law_paths_weigh_the_models(self, q: Query)
        requires
            self.regular(q),
            self.consistent_edges(),
            self.exclusive(),
            q.partial,
        ensures
            self.models(full(q)).finite(),
            sum_to(
                self.global_count(q),
                |k: nat| pow2(free_slots(self.trace_at(q, k).model)),
            ) == self.models(full(q)).len(),
    {
        self.law_paths_stand_for_the_models(q);
        self.law_count_is_number_of_models(full(q));
    }
}

} // verus!
