//! The order of an enumeration is the order of direct access.

use crate::algorithms::counting::Query;
use crate::algorithms::direct_access::assumed_model;
use crate::algorithms::direct_access::lemma_write_free_erase;
use crate::algorithms::direct_access::write_free;
use crate::algorithms::direct_access::Trace;
use crate::algorithms::model_enumerator::advance_free;
use crate::algorithms::model_enumerator::EnumState;
use crate::formula::decision_dnnf::Formula;
use crate::formula::involved_vars::literal_vars;
use crate::formula::literal::Literal;
use crate::laws::facts::lemma_advance_free_keeps;
use crate::laws::facts::lemma_digits_bound;
use crate::laws::facts::lemma_write_free_keeps;
use crate::laws::facts::lemma_write_free_twice;
use crate::laws::increment::all_ones;
use crate::laws::increment::lemma_advance_free_frame;
use crate::laws::increment::lemma_advance_is_increment;
use crate::laws::increment::lemma_all_ones_carry;
use crate::laws::regions::holds_assumptions;
use crate::laws::regions::lemma_write_free_places;
use crate::laws::regions::lemma_write_free_stable;
use vstd::arithmetic::power2::lemma_pow2_pos;
use vstd::arithmetic::power2::pow2;
use vstd::prelude::*;

verus! {

/// The state of an enumeration that holds the model of index `k` with the
/// branches that it takes.
pub open spec fn holding(f: Formula, q: Query, k: nat) -> EnumState {
    EnumState { trace: f.trace_at(q, k), started: true, has_model: true }
}

impl Formula {
    /// Whether the state of an enumeration shows the model of index `k`:
    /// the free variables of the root hold the low bits of `k`, and the
    /// region of the root shows the rest of it.
    pub open spec fn at_index(self, q: Query, s: EnumState, k: nat) -> bool {
        &&& s.started
        &&& s.has_model
        &&& self.fits(q, s.trace)
        &&& write_free(s.trace.model, k, self.open_root_vars(q), q.partial) == s.trace.model
        &&& self.shows(q, 0, k / pow2(self.root_weight(q)), s.trace)
    }

    /// The state of an enumeration after `j` more models were asked for.
    pub open spec fn after(self, q: Query, s: EnumState, j: nat) -> EnumState
        decreases j,
    {
        if j == 0 {
            s
        } else {
            self.next_state(q, self.after(q, s, (j - 1) as nat))
        }
    }

    /// The models that an enumeration gives when it jumps to the index
    /// `lo` and is then asked for a model `hi - lo` times.
    pub open spec fn range_models(self, q: Query, lo: nat, hi: nat) -> Seq<Seq<Option<Literal>>> {
        Seq::new(
            (hi - lo) as nat,
            |j: int| self.after(q, self.state_before(q, lo), (j + 1) as nat).trace.model,
        )
    }

    /// The models of the first `i` ranges between the bounds `bounds`, one
    /// range after the other.
    pub open spec fn ranges_models(self, q: Query, bounds: Seq<nat>, i: nat) -> Seq<
        Seq<Option<Literal>>,
    >
        decreases i,
    {
        if i == 0 || i >= bounds.len() {
            Seq::empty()
        } else {
            self.ranges_models(q, bounds, (i - 1) as nat) + self.range_models(
                q,
                bounds[i - 1],
                bounds[i as int],
            )
        }
    }

    /// The models of the indices below `k`, in the order of direct access.
    pub open spec fn models_upto(self, q: Query, k: nat) -> Seq<Seq<Option<Literal>>> {
        Seq::new(k, |j: int| self.trace_at(q, j as nat).model)
    }

    /// Direct access leaves a state that shows the index that was asked
    /// for.
    pub proof fn lemma_trace_at(self, q: Query, k: nat)
        requires
            self.regular(q),
            k < self.global_count(q),
        ensures
            self.at_index(q, holding(self, q, k), k),
    {
        let open = self.open_root_vars(q);
        let w = self.root_weight(q);
        let base = assumed_model(q.assumptions);
        let start = Trace {
            model: write_free(base, k, open, q.partial),
            graph: Seq::new(self.nodes.len(), |n: int| 0nat),
        };
        self.lemma_open_root_vars(q);
        lemma_pow2_pos(w);
        lemma_digits_bound(k, self.count(q, 0), pow2(w));
        assert(holds_assumptions(q, base));
        lemma_write_free_keeps(q, base, k, open, q.partial);
        lemma_write_free_twice(base, k, open, q.partial);
        self.lemma_build(q, 0, k / pow2(w), start);
        let b = self.build(q, 0, k / pow2(w), start);
        assert forall|v: int|
            0 <= v < start.model.len() && literal_vars(open).contains(
                v as nat,
            ) implies start.model[v] == b.model[v] by {
            let j = choose|j: int| 0 <= j < open.len() && (#[trigger] open[j]).var() == v;
            assert(!self.involved(0).contains(open[j].var()));
        }
        lemma_write_free_stable(start.model, b.model, k, open, q.partial);
    }

    /// The first request of an enumeration gives a model exactly where
    /// there is one, and then shows index 0.
    pub proof fn lemma_start(self, q: Query)
        requires
            self.regular(q),
        ensures
            self.next_state(q, self.initial_state(q)).started,
            self.next_state(q, self.initial_state(q)).has_model == (self.global_count(q) > 0),
            self.global_count(q) > 0 ==> self.at_index(
                q,
                self.next_state(q, self.initial_state(q)),
                0,
            ),
    {
        let open = self.open_root_vars(q);
        let w = self.root_weight(q);
        let base = assumed_model(q.assumptions);
        let start = self.initial_state(q).trace;
        self.lemma_open_root_vars(q);
        lemma_pow2_pos(w);
        lemma_digits_bound(0, self.count(q, 0), pow2(w));
        assert(0nat / pow2(w) == 0) by (nonlinear_arith)
            requires
                pow2(w) > 0,
        ;
        assert(holds_assumptions(q, base));
        lemma_write_free_keeps(q, base, 0, open, q.partial);
        lemma_write_free_twice(base, 0, open, q.partial);
        self.lemma_first_path(q, 0, start);
        let first = self.first_path(q, 0, start);
        assert forall|v: int|
            0 <= v < start.model.len() && literal_vars(open).contains(
                v as nat,
            ) implies start.model[v] == first.0.model[v] by {
            let j = choose|j: int| 0 <= j < open.len() && (#[trigger] open[j]).var() == v;
            assert(!self.involved(0).contains(open[j].var()));
        }
        lemma_write_free_stable(start.model, first.0.model, 0, open, q.partial);
    }

    /// A request from a state that shows an index gives a model exactly
    /// where the index is not the last, and then shows the next index.
    pub proof fn lemma_step(self, q: Query, s: EnumState, k: nat)
        requires
            self.regular(q),
            self.at_index(q, s, k),
            k < self.global_count(q),
        ensures
            self.next_state(q, s).started,
            self.next_state(q, s).has_model == (k + 1 < self.global_count(q)),
            k + 1 < self.global_count(q) ==> self.at_index(q, self.next_state(q, s), k + 1),
    {
        let open = self.open_root_vars(q);
        let w = self.root_weight(q);
        let t = s.trace;
        let deep = k / pow2(w);
        self.lemma_open_root_vars(q);
        lemma_pow2_pos(w);
        lemma_digits_bound(k, self.count(q, 0), pow2(w));
        lemma_digits_bound(k + 1, self.count(q, 0), pow2(w));
        let stepped = if q.partial {
            (t.model, false)
        } else {
            advance_free(t.model, open)
        };
        if q.partial {
            assert(pow2(0) == 1) by {
                vstd::arithmetic::power2::lemma2_to64();
            }
            assert(w == 0);
            lemma_write_free_erase(t.model, k, k + 1, open);
        } else {
            lemma_advance_is_increment(t.model, open, k);
            lemma_all_ones_carry(k, w);
            lemma_advance_free_keeps(q, t.model, open);
            lemma_write_free_twice(t.model, k + 1, open, false);
        }
        assert(write_free(stepped.0, k + 1, open, q.partial) == stepped.0);
        assert(q.partial || w == open.len());
        assert(q.partial || stepped.1 == !all_ones(k, w));
        assert(stepped.1 ==> (k + 1) / pow2(w) == deep);
        assert(!stepped.1 ==> (k + 1) / pow2(w) == deep + 1);
        let after_step = Trace { model: stepped.0, graph: t.graph };
        assert forall|v: int|
            0 <= v < t.model.len() && !literal_vars(open).contains(v as nat) implies t.model[v]
            == stepped.0[v] by {
            if !q.partial {
                assert forall|j: int| 0 <= j < open.len() implies (#[trigger] open[j]).var()
                    != v by {}
                lemma_advance_free_frame(t.model, open, v);
            }
        }
        assert forall|v: int|
            0 <= v < t.model.len() && self.involved(0).contains(v as nat) implies t.model[v]
            == stepped.0[v] by {
            if literal_vars(open).contains(v as nat) {
                let j = choose|j: int| 0 <= j < open.len() && (#[trigger] open[j]).var() == v;
                assert(!self.involved(0).contains(open[j].var()));
            }
        }
        assert(self.same_on(0, t, after_step));
        self.lemma_shows_same(q, 0, deep, t, after_step);
        if !stepped.1 {
            self.lemma_next_path(q, 0, deep, after_step);
            let moved = self.next_path(q, 0, after_step);
            assert forall|v: int|
                0 <= v < after_step.model.len() && literal_vars(open).contains(
                    v as nat,
                ) implies after_step.model[v] == moved.0.model[v] by {
                let j = choose|j: int| 0 <= j < open.len() && (#[trigger] open[j]).var() == v;
                assert(!self.involved(0).contains(open[j].var()));
            }
            lemma_write_free_stable(after_step.model, moved.0.model, k + 1, open, q.partial);
        }
    }

    /// A state that shows an index holds the model that direct access
    /// gives for this index.
    pub proof fn lemma_model(self, q: Query, s: EnumState, k: nat)
        requires
            self.regular(q),
            self.at_index(q, s, k),
            k < self.global_count(q),
        ensures
            s.trace.model == self.trace_at(q, k).model,
    {
        let open = self.open_root_vars(q);
        let w = self.root_weight(q);
        let a = s.trace;
        let b = self.trace_at(q, k);
        self.lemma_trace_at(q, k);
        self.lemma_open_root_vars(q);
        self.lemma_unique(q, 0, k / pow2(w), a, b);
        assert forall|v: int| 0 <= v < self.n_vars implies a.model[v] == b.model[v] by {
            if self.involved(0).contains(v as nat) {
            } else if q.assumptions[v] is Some {
            } else {
                self.lemma_open_root_vars_cover(q, v as nat);
                lemma_write_free_places(a.model, b.model, k, open, q.partial, v);
            }
        }
        assert(a.model =~= b.model);
    }

    /// Requests from a state that shows an index give the models of the
    /// next indices, one after the other.
    pub proof fn lemma_after(self, q: Query, s: EnumState, k: nat, j: nat)
        requires
            self.regular(q),
            self.at_index(q, s, k),
            k + j < self.global_count(q),
        ensures
            self.at_index(q, self.after(q, s, j), k + j),
        decreases j,
    {
        if j > 0 {
            self.lemma_after(q, s, k, (j - 1) as nat);
            self.lemma_step(q, self.after(q, s, (j - 1) as nat), (k + j - 1) as nat);
        }
    }

    /// Enumeration and direct access give the models in the same order:
    /// the request of number `k + 1` of an enumeration gives the model of
    /// index `k`, for each index below the count, and the request after the
    /// last model gives nothing.
    pub proof fn law_enumeration_follows_direct_access(self, q: Query, k: nat)
        requires
            self.regular(q),
        ensures
            k < self.global_count(q) ==> self.after(q, self.initial_state(q), k + 1).has_model
                && Some(self.after(q, self.initial_state(q), k + 1).trace.model) == self.model_at(
                q,
                k as int,
            ),
            k == self.global_count(q) ==> !self.after(q, self.initial_state(q), k + 1).has_model,
    {
        let first = self.next_state(q, self.initial_state(q));
        assert(self.after(q, self.initial_state(q), 1) == first) by {
            assert(self.after(q, self.initial_state(q), 0) == self.initial_state(q));
        }
        self.lemma_start(q);
        if k < self.global_count(q) {
            self.lemma_after_first(q, k);
            self.lemma_after(q, first, 0, k);
            self.lemma_model(q, self.after(q, first, k), k);
        } else if k == self.global_count(q) && k > 0 {
            self.lemma_after_first(q, (k - 1) as nat);
            self.lemma_after(q, first, 0, (k - 1) as nat);
            self.lemma_step(q, self.after(q, first, (k - 1) as nat), (k - 1) as nat);
        }
    }

    /// A formula with one model: the first request of an enumeration gives
    /// the model of index 0, the second gives nothing, and direct access
    /// gives nothing for the index 1.
    pub proof fn law_single_model(self, q: Query)
        requires
            self.regular(q),
            self.global_count(q) == 1,
        ensures
            self.after(q, self.initial_state(q), 1).has_model,
            Some(self.after(q, self.initial_state(q), 1).trace.model) == self.model_at(q, 0),
            !self.after(q, self.initial_state(q), 2).has_model,
            self.model_at(q, 1) is None,
    {
        self.law_enumeration_follows_direct_access(q, 0);
        self.law_enumeration_follows_direct_access(q, 1);
    }

    /// Requests after the first are requests from the state that the first
    /// leaves.
    pub proof fn lemma_after_first(self, q: Query, j: nat)
        ensures
            self.after(q, self.initial_state(q), j + 1) == self.after(
                q,
                self.next_state(q, self.initial_state(q)),
                j,
            ),
        decreases j,
    {
        if j > 0 {
            self.lemma_after_first(q, (j - 1) as nat);
        } else {
            assert(self.after(q, self.initial_state(q), 0) == self.initial_state(q));
        }
    }

    /// A jump to an index followed by requests gives the models that an
    /// enumeration from the start gives from this index on: after the jump
    /// to `k`, the request of number `j + 1` gives the model of index
    /// `k + j`, which is the one that the request of number `k + j + 1` gives
    /// from the start, and the request after the last model gives nothing.
    pub proof fn law_jump_then_enumerate(self, q: Query, k: nat, j: nat)
        requires
            self.regular(q),
            k < self.global_count(q),
        ensures
            k + j < self.global_count(q) ==> self.after(
                q,
                self.state_before(q, k),
                j + 1,
            ).has_model && Some(self.after(q, self.state_before(q, k), j + 1).trace.model)
                == self.model_at(q, (k + j) as int) && self.after(
                q,
                self.state_before(q, k),
                j + 1,
            ).trace.model == self.after(q, self.initial_state(q), k + j + 1).trace.model,
            k + j == self.global_count(q) ==> !self.after(
                q,
                self.state_before(q, k),
                j + 1,
            ).has_model,
    {
        if k + j <= self.global_count(q) {
            self.law_enumeration_follows_direct_access(q, k + j);
            if k > 0 {
                let s = holding(self, q, (k - 1) as nat);
                self.lemma_trace_at(q, (k - 1) as nat);
                if k + j < self.global_count(q) {
                    self.lemma_after(q, s, (k - 1) as nat, j + 1);
                    self.lemma_model(q, self.after(q, s, j + 1), k + j);
                } else {
                    self.lemma_after(q, s, (k - 1) as nat, j);
                    self.lemma_step(q, self.after(q, s, j), (k + j - 1) as nat);
                }
            }
        }
    }

    /// Where the indices are cut into ranges that follow one another, a
    /// jump to the start of each range followed by the requests of the
    /// range gives, range after range, all the models in the order of
    /// direct access.
    pub proof fn law_ranges_cover(self, q: Query, bounds: Seq<nat>)
        requires
            self.regular(q),
            bounds.len() >= 1,
            bounds[0] == 0,
            bounds.last() == self.global_count(q),
            forall|i: int| 0 <= i < bounds.len() - 1 ==> bounds[i] <= #[trigger] bounds[i + 1],
        ensures
            self.ranges_models(q, bounds, (bounds.len() - 1) as nat) == self.models_upto(
                q,
                self.global_count(q),
            ),
    {
        self.lemma_ranges(q, bounds, (bounds.len() - 1) as nat);
    }

    /// The same for the first `i` ranges.
    pub proof fn lemma_ranges(self, q: Query, bounds: Seq<nat>, i: nat)
        requires
            self.regular(q),
            bounds.len() >= 1,
            bounds[0] == 0,
            bounds.last() == self.global_count(q),
            forall|i: int| 0 <= i < bounds.len() - 1 ==> bounds[i] <= #[trigger] bounds[i + 1],
            i < bounds.len(),
        ensures
            self.ranges_models(q, bounds, i) == self.models_upto(q, bounds[i as int]),
        decreases i,
    {
        if i == 0 {
            assert(self.ranges_models(q, bounds, 0) =~= self.models_upto(q, 0));
        } else {
            let lo = bounds[i - 1];
            let hi = bounds[i as int];
            self.lemma_ranges(q, bounds, (i - 1) as nat);
            lemma_bounds_below(bounds, i as int);
            assert(bounds[i - 1] <= bounds[(i - 1) + 1]);
            let range = self.range_models(q, lo, hi);
            assert forall|j: int| 0 <= j < hi - lo implies #[trigger] range[j] == self.trace_at(
                q,
                (lo + j) as nat,
            ).model by {
                self.law_jump_then_enumerate(q, lo, j as nat);
            }
            assert(self.ranges_models(q, bounds, i) == self.ranges_models(
                q,
                bounds,
                (i - 1) as nat,
            ) + range);
            assert(self.models_upto(q, lo) + range =~= self.models_upto(q, hi));
        }
    }
}

/// Bounds that follow one another stay below the last of them.
pub proof fn lemma_bounds_below(bounds: Seq<nat>, i: int)
    requires
        forall|i: int| 0 <= i < bounds.len() - 1 ==> bounds[i] <= #[trigger] bounds[i + 1],
        0 <= i < bounds.len(),
    ensures
        bounds[i] <= bounds.last(),
    decreases bounds.len() - i,
{
    if i + 1 < bounds.len() {
        lemma_bounds_below(bounds, i + 1);
        assert(bounds[i] <= bounds[i + 1]);
    }
}

} // verus!
