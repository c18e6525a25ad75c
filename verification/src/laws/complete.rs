//! Each model of the formula is the model of an index, and the count is the
//! number of the models.

use crate::algorithms::counting::Query;
use crate::algorithms::direct_access::write_free;
use crate::algorithms::direct_access::Trace;
use crate::algorithms::model_enumerator::lemma_propagated_in_range;
use crate::algorithms::model_enumerator::EnumState;
use crate::formula::assumptions::any_contradicts;
use crate::formula::assumptions::contradicts;
use crate::formula::decision_dnnf::Formula;
use crate::formula::decision_dnnf::NodeModel;
use crate::formula::literal::Literal;
use crate::laws::distinct::holds_all;
use crate::laws::distinct::lemma_stable_holds;
use crate::laws::facts::lemma_digits_bound;
use crate::laws::increment::canonical;
use crate::laws::increment::lemma_canonical_rest;
use crate::laws::models::consistent_edge;
use crate::laws::models::lemma_write_free_sets;
use crate::laws::models::set_at;
use crate::laws::models::total;
use crate::laws::regions::holds_assumptions;
use vstd::arithmetic::power2::lemma_pow2_pos;
use vstd::arithmetic::power2::lemma_pow2_unfold;
use vstd::arithmetic::power2::pow2;
use vstd::prelude::*;
use vstd::relations::injective_on;
use vstd::set_lib::lemma_int_range;
use vstd::set_lib::lemma_map_size;
use vstd::set_lib::set_int_range;

verus! {

/// The number that the polarities of the free variables of a list spell in
/// a model: the last variable is the lowest bit, and a positive literal is
/// a bit that is set.
pub open spec fn bits(model: Seq<Option<Literal>>, free_vars: Seq<Literal>) -> nat
    decreases free_vars.len(),
{
    if free_vars.len() == 0 {
        0
    } else {
        let v = free_vars.last();
        2 * bits(model, free_vars.drop_last()) + if model[v.var() as int] == Some(v.flipped()) {
            1nat
        } else {
            0nat
        }
    }
}

/// A model that gives each variable a literal is left as it is when the
/// polarities that it spells are written, whatever the higher bits.
pub proof fn lemma_bits(model: Seq<Option<Literal>>, free_vars: Seq<Literal>, high: nat)
    requires
        canonical(free_vars, model.len()),
        total(model, model.len()),
    ensures
        bits(model, free_vars) < pow2(free_vars.len()),
        write_free(
            model,
            bits(model, free_vars) + pow2(free_vars.len()) * high,
            free_vars,
            false,
        ) == model,
    decreases free_vars.len(),
{
    let len = free_vars.len();
    if len == 0 {
        lemma_pow2_pos(0);
    } else {
        let v = free_vars.last();
        let rest = free_vars.drop_last();
        let var = v.var() as int;
        let low = (len - 1) as nat;
        lemma_canonical_rest(free_vars, model.len());
        lemma_bits(model, rest, high);
        lemma_pow2_unfold(len);
        lemma_pow2_pos(low);
        v.lemma_of_self();
        let bit: nat = if model[var] == Some(v.flipped()) {
            1
        } else {
            0
        };
        let k = bits(model, free_vars) + pow2(len) * high;
        let half = bits(model, rest) + pow2(low) * high;
        assert(k == 2 * half + bit) by (nonlinear_arith)
            requires
                k == 2 * bits(model, rest) + bit + pow2(len) * high,
                half == bits(model, rest) + pow2(low) * high,
                pow2(len) == 2 * pow2(low),
        ;
        assert(k % 2 == bit && k / 2 == half);
        let x = if k % 2 == 1 {
            Some(v.flipped())
        } else {
            Some(v)
        };
        assert(model[var] == x) by {
            assert(set_at(model, var));
            let l = model[var]->0;
            l.lemma_of_self();
            if l.is_positive() {
                assert(l == v.flipped());
            } else {
                assert(l == v);
            }
        }
        assert(model.update(var, x) =~= model);
    }
}

impl Formula {
    /// The first branch of node `n`, from the `i`-th on, that a model
    /// satisfies, or the number of branches where there is none.
    pub open spec fn pick(self, n: int, i: int, model: Seq<Option<Literal>>) -> int
        decreases self.edge_list(n).len() - i,
    {
        if i >= self.edge_list(n).len() {
            i
        } else if self.satisfies_branch(n, i, model) {
            i
        } else {
            self.pick(n, i + 1, model)
        }
    }

    /// The branch that a model takes at each disjunction node: the first
    /// that it satisfies, or the first where it satisfies none.
    pub open spec fn choices(self, model: Seq<Option<Literal>>) -> Seq<nat> {
        Seq::new(
            self.nodes.len(),
            |n: int|
                if self.nodes[n] is Or && self.pick(n, 0, model) < self.edge_list(n).len() {
                    self.pick(n, 0, model) as nat
                } else {
                    0nat
                },
        )
    }

    /// The index of a model among those of the subformula rooted at node
    /// `n`, where models are counted.
    pub open spec fn index(self, q: Query, n: int, model: Seq<Option<Literal>>) -> nat
        decreases self.rank()[n], 1nat, 0nat,
        when self.wf() && 0 <= n < self.nodes.len()
    {
        match self.nodes[n] {
            NodeModel::And(_) => self.index_and(q, n, self.edge_list(n).len() as int, model),
            NodeModel::Or(_) => {
                let s = self.pick(n, 0, model);
                if 0 <= s < self.edge_list(n).len() {
                    self.index_or(q, n, s, model)
                } else {
                    0
                }
            },
            _ => 0,
        }
    }

    /// The index of a model among those of a disjunction node, where the
    /// model takes the branch `s`.
    pub open spec fn index_or(self, q: Query, n: int, s: int, model: Seq<Option<Literal>>) -> nat
        decreases self.rank()[n], 0nat, 0nat,
        when self.wf() && 0 <= n < self.nodes.len() && 0 <= s < self.edge_list(n).len()
    {
        proof {
            self.lemma_child(n, s);
        }
        self.sum_upto(q, n, s) + bits(model, self.open_vars(q, n, s)) + pow2(self.weight(q, n, s))
            * self.index(q, self.child(n, s), model)
    }

    /// The index of a model among those of the first `i` branches of a
    /// conjunction node.
    pub open spec fn index_and(self, q: Query, n: int, i: int, model: Seq<Option<Literal>>) -> nat
        decreases self.rank()[n], 0nat, i,
        when self.wf() && 0 <= n < self.nodes.len() && 0 <= i <= self.edge_list(n).len()
    {
        if i == 0 {
            0
        } else {
            proof {
                self.lemma_child(n, i - 1);
            }
            self.index_and(q, n, i - 1, model) * self.count(q, self.child(n, i - 1)) + self.index(
                q,
                self.child(n, i - 1),
                model,
            )
        }
    }

    /// The index of a model among those of the formula, where models are
    /// counted.
    pub open spec fn index_of(self, q: Query, model: Seq<Option<Literal>>) -> nat {
        bits(model, self.open_root_vars(q)) + pow2(self.root_weight(q)) * self.index(q, 0, model)
    }

    /// The first branch from the `i`-th on that a model satisfies is no
    /// branch before the `i`-th.
    pub proof fn lemma_pick_from(self, n: int, i: int, model: Seq<Option<Literal>>)
        ensures
            i <= self.pick(n, i, model),
        decreases self.edge_list(n).len() - i,
    {
        if i < self.edge_list(n).len() && !self.satisfies_branch(n, i, model) {
            self.lemma_pick_from(n, i + 1, model);
        }
    }

    /// The branches that a model takes make a state that takes the first
    /// branch at each disjunction node that involves no variable.
    pub proof fn lemma_choices_calm(self, q: Query, model: Seq<Option<Literal>>)
        requires
            self.regular(q),
        ensures
            self.calm(Trace { model, graph: self.choices(model) }),
    {
        let t = Trace { model, graph: self.choices(model) };
        assert forall|m: int|
            0 <= m < t.graph.len() && 0 <= m < self.nodes.len() && self.nodes[m] is Or
                && !self.busy(m) implies (#[trigger] t.graph[m]) == 0 by {
            self.lemma_pick_from(m, 0, model);
        }
    }

    /// Where a model satisfies a branch from the `i`-th on, the first such
    /// branch is a branch that it satisfies.
    pub proof fn lemma_pick(self, n: int, i: int, model: Seq<Option<Literal>>)
        requires
            self.wf(),
            0 <= n < self.nodes.len(),
            0 <= i <= self.edge_list(n).len(),
            self.satisfies_or(n, i, model),
        ensures
            i <= self.pick(n, i, model) < self.edge_list(n).len(),
            self.satisfies_branch(n, self.pick(n, i, model), model),
        decreases self.edge_list(n).len() - i,
    {
        if i < self.edge_list(n).len() && !self.satisfies_branch(n, i, model) {
            self.lemma_pick(n, i + 1, model);
        }
    }

    /// No literal of an edge that a model holds contradicts an assumption
    /// that the model holds.
    pub proof fn lemma_open_edge(self, q: Query, n: int, i: int, model: Seq<Option<Literal>>)
        requires
            self.wf(),
            q.assumptions.len() == self.n_vars,
            0 <= n < self.nodes.len(),
            0 <= i < self.edge_list(n).len(),
            model.len() == self.n_vars,
            holds_assumptions(q, model),
            holds_all(model, self.edge(n, i).propagated),
        ensures
            !any_contradicts(q.assumptions, self.edge(n, i).propagated),
            !self.blocked(q, n, i),
    {
        let p = self.edge(n, i).propagated;
        lemma_propagated_in_range(self, n, i);
        if any_contradicts(q.assumptions, p) {
            let j = choose|j: int| 0 <= j < p.len() && contradicts(q.assumptions, #[trigger] p[j]);
            let v = p[j].var() as int;
            p[j].lemma_of_self();
            assert(q.assumptions[v] is Some);
            Literal::lemma_of(v as nat, q.assumptions[v]->0);
            assert(model[v] == Some(p[j]));
        }
    }

    /// A model that satisfies a node has an index below the count of the
    /// node, and with the branches that it takes it shows this index.
    pub proof fn lemma_complete(self, q: Query, n: int, model: Seq<Option<Literal>>)
        requires
            self.regular(q),
            self.consistent_edges(),
            !q.partial,
            0 <= n < self.nodes.len(),
            total(model, self.n_vars),
            holds_assumptions(q, model),
            self.satisfies(n, model),
        ensures
            self.index(q, n, model) < self.count(q, n),
            self.shows(
                q,
                n,
                self.index(q, n, model),
                (Trace { model, graph: self.choices(model) }),
            ),
        decreases self.rank()[n], 1nat, 0nat,
    {
        let len = self.edge_list(n).len() as int;
        match self.nodes[n] {
            NodeModel::And(_) => {
                assert(self.count(q, n) == self.product_upto(q, n, len));
                self.lemma_complete_and(q, n, len, model);
            },
            NodeModel::Or(_) => {
                self.lemma_complete_or(q, n, model);
            },
            _ => {},
        }
    }

    /// The same for the first `i` edges of a conjunction node.
    pub proof fn lemma_complete_and(self, q: Query, n: int, i: int, model: Seq<Option<Literal>>)
        requires
            self.regular(q),
            self.consistent_edges(),
            !q.partial,
            0 <= n < self.nodes.len(),
            self.nodes[n] is And,
            0 <= i <= self.edge_list(n).len(),
            total(model, self.n_vars),
            holds_assumptions(q, model),
            self.satisfies_and(n, i, model),
        ensures
            self.index_and(q, n, i, model) < self.product_upto(q, n, i),
            self.shows_and(
                q,
                n,
                i,
                self.index_and(q, n, i, model),
                (Trace { model, graph: self.choices(model) }),
            ),
        decreases self.rank()[n], 0nat, i,
    {
        let t = Trace { model, graph: self.choices(model) };
        if i == 0 {
            assert(self.product_upto(q, n, 0) == 1);
        } else {
            self.lemma_child_below(n, i - 1);
            let child = self.child(n, i - 1);
            let c = self.count(q, child);
            let p = self.edge(n, i - 1).propagated;
            let before = self.product_upto(q, n, i - 1);
            lemma_propagated_in_range(self, n, i - 1);
            assert(self.satisfies_branch(n, i - 1, model));
            assert(consistent_edge(self, n, i - 1));
            lemma_stable_holds(model, p);
            self.lemma_open_edge(q, n, i - 1, model);
            self.lemma_complete(q, child, model);
            self.lemma_complete_and(q, n, i - 1, model);
            let low = self.index(q, child, model);
            let high = self.index_and(q, n, i - 1, model);
            let r = self.index_and(q, n, i, model);
            assert(r == high * c + low);
            assert(self.count_via(q, n, i - 1) == c);
            assert(self.product_upto(q, n, i) == before * c);
            vstd::arithmetic::div_mod::lemma_fundamental_div_mod_converse(
                r as int,
                c as int,
                high as int,
                low as int,
            );
            lemma_digits_bound(r, before, c);
            assert(self.shows_and(q, n, i, r, t) == (c > 0 && !self.blocked(q, n, i - 1)
                && crate::algorithms::direct_access::write_all(t.model, p) == t.model
                && self.shows(q, child, r % c, t) && self.shows_and(q, n, i - 1, r / c, t)));
        }
    }

    /// The same at a disjunction node.
    pub proof fn lemma_complete_or(self, q: Query, n: int, model: Seq<Option<Literal>>)
        requires
            self.regular(q),
            self.consistent_edges(),
            !q.partial,
            0 <= n < self.nodes.len(),
            self.nodes[n] is Or,
            total(model, self.n_vars),
            holds_assumptions(q, model),
            self.satisfies(n, model),
        ensures
            self.index(q, n, model) < self.count(q, n),
            self.shows(
                q,
                n,
                self.index(q, n, model),
                (Trace { model, graph: self.choices(model) }),
            ),
        decreases self.rank()[n], 0nat, 0nat,
    {
        let t = Trace { model, graph: self.choices(model) };
        let len = self.edge_list(n).len() as int;
        self.lemma_pick(n, 0, model);
        let s = self.pick(n, 0, model);
        self.lemma_child_below(n, s);
        let child = self.child(n, s);
        let p = self.edge(n, s).propagated;
        let open = self.open_vars(q, n, s);
        let w = self.weight(q, n, s);
        let gain = self.count_via(q, n, s);
        lemma_propagated_in_range(self, n, s);
        self.lemma_open_vars(q, n, s);
        assert(consistent_edge(self, n, s));
        lemma_stable_holds(model, p);
        self.lemma_open_edge(q, n, s, model);
        self.lemma_complete(q, child, model);
        let deep = self.index(q, child, model);
        let low = bits(model, open);
        let local = low + pow2(w) * deep;
        lemma_bits(model, open, deep);
        lemma_pow2_pos(w);
        assert(local == deep * pow2(w) + low) by (nonlinear_arith)
            requires
                local == low + pow2(w) * deep,
        ;
        vstd::arithmetic::div_mod::lemma_fundamental_div_mod_converse(
            local as int,
            pow2(w) as int,
            deep as int,
            low as int,
        );
        assert(gain == self.count(q, child));
        lemma_digits_bound(local, gain, pow2(w));
        assert(self.branch_total(q, n, s) == gain * pow2(w));
        assert(t.graph[n] == s);
        assert(self.shows_or(q, n, s, local, t) == (0 <= n < t.graph.len() && t.graph[n] == s
            && write_free(t.model, local, open, q.partial) == t.model
            && crate::algorithms::direct_access::write_all(t.model, p) == t.model && self.shows(
            q,
            child,
            local / pow2(w),
            t,
        )));
        assert(self.sum_upto(q, n, 0) == 0);
        self.lemma_lift(q, n, 0, s, local, t);
        self.lemma_sum_grows(q, n, s, len);
        assert(self.count(q, n) == self.sum_upto(q, n, len));
        assert(self.index(q, n, model) == self.index_or(q, n, s, model));
        assert(self.index_or(q, n, s, model) == self.sum_upto(q, n, s) + local);
    }

    /// A model of the formula is the model that direct access gives for
    /// its index, which is below the count.
    pub proof fn lemma_complete_root(self, q: Query, model: Seq<Option<Literal>>)
        requires
            self.regular(q),
            self.consistent_edges(),
            !q.partial,
            self.models(q).contains(model),
        ensures
            self.index_of(q, model) < self.global_count(q),
            self.trace_at(q, self.index_of(q, model)).model == model,
    {
        let open = self.open_root_vars(q);
        let w = self.root_weight(q);
        let deep = self.index(q, 0, model);
        let low = bits(model, open);
        let k = self.index_of(q, model);
        let t = Trace { model, graph: self.choices(model) };
        self.lemma_open_root_vars(q);
        self.lemma_complete(q, 0, model);
        lemma_bits(model, open, deep);
        lemma_pow2_pos(w);
        assert(k == deep * pow2(w) + low) by (nonlinear_arith)
            requires
                k == low + pow2(w) * deep,
        ;
        vstd::arithmetic::div_mod::lemma_fundamental_div_mod_converse(
            k as int,
            pow2(w) as int,
            deep as int,
            low as int,
        );
        lemma_digits_bound(k, self.count(q, 0), pow2(w));
        let s = EnumState { trace: t, started: true, has_model: true };
        self.lemma_choices_calm(q, model);
        assert(self.at_index(q, s, k));
        self.lemma_model(q, s, k);
    }

    /// The model that direct access gives for an index below the count is
    /// a model of the formula, where models are counted.
    pub proof fn lemma_sound_root(self, q: Query, k: nat)
        requires
            self.regular(q),
            self.consistent_edges(),
            !q.partial,
            k < self.global_count(q),
        ensures
            self.models(q).contains(self.trace_at(q, k).model),
    {
        let open = self.open_root_vars(q);
        let w = self.root_weight(q);
        let t = self.trace_at(q, k);
        self.lemma_trace_at(q, k);
        self.lemma_open_root_vars(q);
        self.lemma_sound(q, 0, k / pow2(w), t);
        assert forall|v: int| 0 <= v < self.n_vars implies #[trigger] set_at(t.model, v) by {
            if self.involved(0).contains(v as nat) {
            } else if q.assumptions[v] is Some {
                Literal::lemma_of(v as nat, q.assumptions[v]->0);
            } else {
                self.lemma_open_root_vars_cover(q, v as nat);
                lemma_write_free_sets(t.model, k, open, v);
            }
        }
    }

    /// The models that an enumeration gives, from the first request to the
    /// last that gives one.
    pub open spec fn enumerated(self, q: Query) -> Set<Seq<Option<Literal>>> {
        Set::new(
            |m: Seq<Option<Literal>>|
                exists|k: int|
                    0 <= k < self.global_count(q) && m == (#[trigger] self.after(
                        q,
                        self.initial_state(q),
                        (k + 1) as nat,
                    )).trace.model,
        )
    }

    /// The models of the indices below the count are as many as the count.
    pub proof fn lemma_as_many(self, q: Query, models: Set<Seq<Option<Literal>>>)
        requires
            self.regular(q),
            self.consistent_edges(),
            self.exclusive(),
            forall|m: Seq<Option<Literal>>|
                models.contains(m) <==> exists|k: int|
                    0 <= k < self.global_count(q) && m == (#[trigger] self.trace_at(
                        q,
                        k as nat,
                    )).model,
        ensures
            models.finite(),
            models.len() == self.global_count(q),
    {
        let count = self.global_count(q) as int;
        let indices = set_int_range(0, count);
        let f = |k: int| self.trace_at(q, k as nat).model;
        lemma_int_range(0, count);
        assert forall|a: int, b: int|
            indices.contains(a) && indices.contains(b) && #[trigger] f(a) == #[trigger] f(
                b,
            ) implies a == b by {
            if a != b {
                self.law_models_are_distinct(q, a as nat, b as nat);
            }
        }
        assert(injective_on(f, indices));
        assert forall|m: Seq<Option<Literal>>| indices.map(f).contains(m) implies models.contains(
            m,
        ) by {
            let k = choose|k: int| indices.contains(k) && m == f(k);
            assert(m == self.trace_at(q, k as nat).model);
        }
        assert forall|m: Seq<Option<Literal>>| models.contains(m) implies indices.map(f).contains(
            m,
        ) by {
            let k = choose|k: int|
                0 <= k < self.global_count(q) && m == (#[trigger] self.trace_at(
                    q,
                    k as nat,
                )).model;
            assert(indices.contains(k) && m == f(k));
        }
        assert(indices.map(f) =~= models);
        lemma_map_size(indices, models, f);
    }

    /// The count is the number of the models: where the disjunction nodes
    /// are deterministic and models are counted, the models of the formula under the
    /// assumptions are those that direct access gives, and they are as many
    /// as the count.
    pub proof fn law_count_is_number_of_models(self, q: Query)
        requires
            self.regular(q),
            self.consistent_edges(),
            self.exclusive(),
            !q.partial,
        ensures
            self.models(q).finite(),
            self.models(q).len() == self.global_count(q),
            forall|m: Seq<Option<Literal>>|
                self.models(q).contains(m) <==> exists|k: int|
                    0 <= k < self.global_count(q) && #[trigger] self.model_at(q, k) == Some(m),
    {
        let models = self.models(q);
        assert forall|m: Seq<Option<Literal>>| models.contains(m) implies exists|k: int|
            0 <= k < self.global_count(q) && m == (#[trigger] self.trace_at(q, k as nat)).model by {
            self.lemma_complete_root(q, m);
            let k = self.index_of(q, m) as int;
            assert(m == self.trace_at(q, k as nat).model);
        }
        assert forall|m: Seq<Option<Literal>>|
            (exists|k: int|
                0 <= k < self.global_count(q) && m == (#[trigger] self.trace_at(
                    q,
                    k as nat,
                )).model) implies models.contains(m) by {
            let k = choose|k: int|
                0 <= k < self.global_count(q) && m == (#[trigger] self.trace_at(
                    q,
                    k as nat,
                )).model;
            self.lemma_sound_root(q, k as nat);
        }
        self.lemma_as_many(q, models);
        assert forall|m: Seq<Option<Literal>>| models.contains(m) implies exists|k: int|
            0 <= k < self.global_count(q) && #[trigger] self.model_at(q, k) == Some(m) by {
            let k = choose|k: int|
                0 <= k < self.global_count(q) && m == (#[trigger] self.trace_at(
                    q,
                    k as nat,
                )).model;
            assert(self.model_at(q, k) == Some(m));
        }
        assert forall|m: Seq<Option<Literal>>|
            (exists|k: int|
                0 <= k < self.global_count(q) && #[trigger] self.model_at(q, k) == Some(
                    m,
                )) implies models.contains(m) by {
            let k = choose|k: int|
                0 <= k < self.global_count(q) && #[trigger] self.model_at(q, k) == Some(m);
            assert(m == self.trace_at(q, k as nat).model);
        }
    }

    /// An enumeration gives no model twice: where the disjunction nodes
    /// are deterministic, the models that it gives are as many as the count.
    pub proof fn law_enumeration_has_no_duplicate(self, q: Query)
        requires
            self.regular(q),
            self.consistent_edges(),
            self.exclusive(),
        ensures
            self.enumerated(q).finite(),
            self.enumerated(q).len() == self.global_count(q),
    {
        let models = self.enumerated(q);
        assert forall|m: Seq<Option<Literal>>| models.contains(m) implies exists|k: int|
            0 <= k < self.global_count(q) && m == (#[trigger] self.trace_at(q, k as nat)).model by {
            let k = choose|k: int|
                0 <= k < self.global_count(q) && m == (#[trigger] self.after(
                    q,
                    self.initial_state(q),
                    (k + 1) as nat,
                )).trace.model;
            self.law_enumeration_follows_direct_access(q, k as nat);
            assert(m == self.trace_at(q, k as nat).model);
        }
        assert forall|m: Seq<Option<Literal>>|
            (exists|k: int|
                0 <= k < self.global_count(q) && m == (#[trigger] self.trace_at(
                    q,
                    k as nat,
                )).model) implies models.contains(m) by {
            let k = choose|k: int|
                0 <= k < self.global_count(q) && m == (#[trigger] self.trace_at(
                    q,
                    k as nat,
                )).model;
            self.law_enumeration_follows_direct_access(q, k as nat);
            assert(m == self.after(q, self.initial_state(q), (k + 1) as nat).trace.model);
        }
        self.lemma_as_many(q, models);
    }
}

} // verus!
