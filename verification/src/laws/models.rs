//! The models of direct access are models of the formula.

use crate::algorithms::counting::Query;
use crate::algorithms::direct_access::vars_below;
use crate::algorithms::direct_access::write_all;
use crate::algorithms::direct_access::write_free;
use crate::algorithms::direct_access::Trace;
use crate::algorithms::model_enumerator::lemma_propagated_in_range;
use crate::formula::decision_dnnf::Formula;
use crate::formula::decision_dnnf::NodeModel;
use crate::formula::involved_vars::literal_vars;
use crate::formula::literal::Literal;
use crate::laws::distinct::holds_all;
use crate::laws::distinct::lemma_last_literal;
use crate::laws::distinct::lemma_stable_holds;
use crate::laws::increment::canonical;
use crate::laws::increment::lemma_canonical_rest;
use crate::laws::increment::lemma_write_free_frame;
use crate::laws::regions::lemma_write_all_places;
use vstd::prelude::*;

verus! {

/// Whether a place of a model holds a literal of its own variable.
pub open spec fn set_at(model: Seq<Option<Literal>>, v: int) -> bool {
    model[v] is Some && model[v]->0.var() == v
}

/// Whether a model gives each of `n_vars` variables one of its literals.
pub open spec fn total(model: Seq<Option<Literal>>, n_vars: nat) -> bool {
    &&& model.len() == n_vars
    &&& forall|v: int| 0 <= v < n_vars ==> #[trigger] set_at(model, v)
}

/// Writing the polarities of free variables gives each of them one of its
/// literals.
pub proof fn lemma_write_free_sets(
    model: Seq<Option<Literal>>,
    k: nat,
    free_vars: Seq<Literal>,
    var: int,
)
    requires
        canonical(free_vars, model.len()),
        0 <= var < model.len(),
        literal_vars(free_vars).contains(var as nat),
    ensures
        set_at(write_free(model, k, free_vars, false), var),
    decreases free_vars.len(),
{
    let v = free_vars.last();
    let rest = free_vars.drop_last();
    let j = choose|j: int| 0 <= j < free_vars.len() && (#[trigger] free_vars[j]).var() == var;
    lemma_canonical_rest(free_vars, model.len());
    v.lemma_of_self();
    let x = if k % 2 == 1 {
        Some(v.flipped())
    } else {
        Some(v)
    };
    let written = model.update(v.var() as int, x);
    assert(vars_below(rest, model.len()));
    if v.var() == var {
        lemma_write_free_frame(written, k / 2, rest, false, var);
    } else {
        assert(rest[j].var() == var);
        assert(literal_vars(rest).contains(var as nat));
        lemma_write_free_sets(written, k / 2, rest, var);
    }
}

impl Formula {
    /// Whether a model satisfies the subformula rooted at node `n`: the
    /// true node is satisfied; a conjunction node where the model holds the
    /// literals of every edge and satisfies every child; a disjunction node
    /// where it does so for one edge and its child.
    pub open spec fn satisfies(self, n: int, model: Seq<Option<Literal>>) -> bool
        decreases self.rank()[n], 1nat, 0nat,
        when self.wf() && 0 <= n < self.nodes.len()
    {
        match self.nodes[n] {
            NodeModel::True => true,
            NodeModel::False => false,
            NodeModel::And(_) => self.satisfies_and(n, self.edge_list(n).len() as int, model),
            NodeModel::Or(_) => self.satisfies_or(n, 0, model),
        }
    }

    /// Whether a model holds the literals of the `i`-th edge of node `n`
    /// and satisfies its target.
    pub open spec fn satisfies_branch(self, n: int, i: int, model: Seq<Option<Literal>>) -> bool
        decreases self.rank()[n], 0nat, 0nat,
        when self.wf() && 0 <= n < self.nodes.len() && 0 <= i < self.edge_list(n).len()
    {
        proof {
            self.lemma_child(n, i);
        }
        holds_all(model, self.edge(n, i).propagated) && self.satisfies(self.child(n, i), model)
    }

    /// Whether a model satisfies the first `i` branches of the node `n`.
    pub open spec fn satisfies_and(self, n: int, i: int, model: Seq<Option<Literal>>) -> bool
        decreases self.rank()[n], 0nat, 1 + i,
        when self.wf() && 0 <= n < self.nodes.len() && 0 <= i <= self.edge_list(n).len()
    {
        if i == 0 {
            true
        } else {
            self.satisfies_branch(n, i - 1, model) && self.satisfies_and(n, i - 1, model)
        }
    }

    /// Whether a model satisfies one of the branches of the node `n` from
    /// the `i`-th on.
    pub open spec fn satisfies_or(self, n: int, i: int, model: Seq<Option<Literal>>) -> bool
        decreases self.rank()[n], 0nat, 1 + self.edge_list(n).len() - i,
        when self.wf() && 0 <= n < self.nodes.len() && 0 <= i <= self.edge_list(n).len()
    {
        if i >= self.edge_list(n).len() {
            false
        } else {
            self.satisfies_branch(n, i, model) || self.satisfies_or(n, i + 1, model)
        }
    }

    /// The models of the formula under the assumptions of a query: the
    /// models that give each variable a literal, hold the assumed literals
    /// and satisfy the root.
    pub open spec fn models(self, q: Query) -> Set<Seq<Option<Literal>>> {
        Set::new(
            |m: Seq<Option<Literal>>|
                total(m, self.n_vars) && crate::laws::regions::holds_assumptions(q, m)
                    && self.satisfies(0, m),
        )
    }

    /// A model that satisfies a branch of a disjunction node satisfies the
    /// branches from an earlier one on.
    pub proof fn lemma_satisfies_from(self, n: int, i: int, s: int, model: Seq<Option<Literal>>)
        requires
            self.wf(),
            0 <= n < self.nodes.len(),
            0 <= i <= s < self.edge_list(n).len(),
            self.satisfies_branch(n, s, model),
        ensures
            self.satisfies_or(n, i, model),
        decreases s - i,
    {
        if i < s {
            self.lemma_satisfies_from(n, i + 1, s, model);
        }
    }

    /// A model that holds what another holds for the variables involved at
    /// a node satisfies the node where the other does.
    pub proof fn lemma_transfer(
        self,
        n: int,
        from: Seq<Option<Literal>>,
        to: Seq<Option<Literal>>,
    )
        requires
            self.wf(),
            0 <= n < self.nodes.len(),
            forall|v: int|
                0 <= v < self.n_vars && self.involved(n).contains(v as nat) && from[v] is Some
                    && from[v]->0.var() == v ==> #[trigger] to[v] == from[v],
            self.satisfies(n, from),
        ensures
            self.satisfies(n, to),
        decreases self.rank()[n], 2nat, 0nat,
    {
        let len = self.edge_list(n).len() as int;
        match self.nodes[n] {
            NodeModel::And(_) => {
                self.lemma_transfer_and(n, len, from, to);
            },
            NodeModel::Or(_) => {
                self.lemma_transfer_or(n, 0, from, to);
            },
            _ => {},
        }
    }

    /// The same for a branch of a node.
    pub proof fn lemma_branch_transfer(
        self,
        n: int,
        i: int,
        from: Seq<Option<Literal>>,
        to: Seq<Option<Literal>>,
    )
        requires
            self.wf(),
            0 <= n < self.nodes.len(),
            0 <= i < self.edge_list(n).len(),
            forall|v: int|
                0 <= v < self.n_vars && self.involved(n).contains(v as nat) && from[v] is Some
                    && from[v]->0.var() == v ==> #[trigger] to[v] == from[v],
            self.satisfies_branch(n, i, from),
        ensures
            self.satisfies_branch(n, i, to),
        decreases self.rank()[n], 0nat, 0nat,
    {
        self.lemma_child_below(n, i);
        lemma_propagated_in_range(self, n, i);
        let p = self.edge(n, i).propagated;
        let child = self.child(n, i);
        assert forall|j: int| 0 <= j < p.len() implies to[(#[trigger] p[j]).var() as int] == Some(
            p[j],
        ) by {
            let v = p[j].var() as int;
            assert(from[v] == Some(p[j]));
            assert(literal_vars(p).contains(p[j].var()));
            assert(self.involved(n).contains(v as nat));
        }
        assert forall|v: int|
            0 <= v < self.n_vars && self.involved(child).contains(v as nat) && from[v] is Some
                && from[v]->0.var() == v implies #[trigger] to[v] == from[v] by {
            assert(self.involved(n).contains(v as nat));
        }
        self.lemma_transfer(child, from, to);
    }

    /// The same for the first `i` branches of a conjunction node.
    pub proof fn lemma_transfer_and(
        self,
        n: int,
        i: int,
        from: Seq<Option<Literal>>,
        to: Seq<Option<Literal>>,
    )
        requires
            self.wf(),
            0 <= n < self.nodes.len(),
            0 <= i <= self.edge_list(n).len(),
            forall|v: int|
                0 <= v < self.n_vars && self.involved(n).contains(v as nat) && from[v] is Some
                    && from[v]->0.var() == v ==> #[trigger] to[v] == from[v],
            self.satisfies_and(n, i, from),
        ensures
            self.satisfies_and(n, i, to),
        decreases self.rank()[n], 1nat, i,
    {
        if i > 0 {
            self.lemma_branch_transfer(n, i - 1, from, to);
            self.lemma_transfer_and(n, i - 1, from, to);
        }
    }

    /// The same for the branches of a disjunction node from the `i`-th
    /// on.
    pub proof fn lemma_transfer_or(
        self,
        n: int,
        i: int,
        from: Seq<Option<Literal>>,
        to: Seq<Option<Literal>>,
    )
        requires
            self.wf(),
            0 <= n < self.nodes.len(),
            0 <= i <= self.edge_list(n).len(),
            forall|v: int|
                0 <= v < self.n_vars && self.involved(n).contains(v as nat) && from[v] is Some
                    && from[v]->0.var() == v ==> #[trigger] to[v] == from[v],
            self.satisfies_or(n, i, from),
        ensures
            self.satisfies_or(n, i, to),
        decreases self.rank()[n], 1nat, self.edge_list(n).len() - i,
    {
        if i < self.edge_list(n).len() {
            if self.satisfies_branch(n, i, from) {
                self.lemma_branch_transfer(n, i, from, to);
            } else {
                self.lemma_transfer_or(n, i + 1, from, to);
            }
        }
    }

    /// A state that shows an index at a node holds a model that satisfies
    /// the node, and a literal for each variable that is involved at the
    /// node where models are counted.
    pub proof fn lemma_sound(self, q: Query, n: int, r: nat, t: Trace)
        requires
            self.regular(q),
            self.consistent_edges(),
            0 <= n < self.nodes.len(),
            self.fits(q, t),
            self.shows(q, n, r, t),
        ensures
            self.satisfies(n, t.model),
            !q.partial ==> forall|v: int|
                0 <= v < self.n_vars && self.involved(n).contains(v as nat) ==> #[trigger] set_at(
                    t.model,
                    v,
                ),
        decreases self.rank()[n], 1nat, 0nat,
    {
        let len = self.edge_list(n).len() as int;
        match self.nodes[n] {
            NodeModel::And(_) => {
                self.lemma_sound_and(q, n, len, r, t);
            },
            NodeModel::Or(_) => {
                self.lemma_sound_or(q, n, r, t);
            },
            _ => {
                assert(self.involved(n) == self.involved_upto(n, 0));
            },
        }
    }

    /// The literals that a state holds for an edge are literals of their
    /// variables.
    pub proof fn lemma_edge_set(self, n: int, i: int, model: Seq<Option<Literal>>)
        requires
            self.wf(),
            0 <= n < self.nodes.len(),
            0 <= i < self.edge_list(n).len(),
            model.len() == self.n_vars,
            write_all(model, self.edge(n, i).propagated) == model,
        ensures
            forall|v: int|
                0 <= v < self.n_vars && literal_vars(self.edge(n, i).propagated).contains(v as nat)
                    ==> #[trigger] set_at(model, v),
    {
        let p = self.edge(n, i).propagated;
        lemma_propagated_in_range(self, n, i);
        assert forall|v: int|
            0 <= v < self.n_vars && literal_vars(p).contains(v as nat) implies #[trigger] set_at(
            model,
            v,
        ) by {
            lemma_write_all_places(model, p, v);
            lemma_last_literal(p, v as nat);
        }
    }

    /// The same for the first `i` edges of a conjunction node.
    pub proof fn lemma_sound_and(self, q: Query, n: int, i: int, r: nat, t: Trace)
        requires
            self.regular(q),
            self.consistent_edges(),
            0 <= n < self.nodes.len(),
            self.nodes[n] is And,
            0 <= i <= self.edge_list(n).len(),
            self.fits(q, t),
            self.shows_and(q, n, i, r, t),
        ensures
            self.satisfies_and(n, i, t.model),
            !q.partial ==> forall|v: int|
                0 <= v < self.n_vars && self.involved_upto(n, i).contains(v as nat)
                    ==> #[trigger] set_at(t.model, v),
        decreases self.rank()[n], 0nat, i,
    {
        if i > 0 {
            self.lemma_child_below(n, i - 1);
            let child = self.child(n, i - 1);
            let c = self.count(q, child);
            let p = self.edge(n, i - 1).propagated;
            lemma_propagated_in_range(self, n, i - 1);
            assert(self.shows_and(q, n, i, r, t) == (c > 0 && !self.blocked(q, n, i - 1)
                && write_all(t.model, p) == t.model && self.shows(q, child, r % c, t)
                && self.shows_and(q, n, i - 1, r / c, t)));
            assert(consistent_edge(self, n, i - 1));
            lemma_stable_holds(t.model, p);
            self.lemma_sound(q, child, r % c, t);
            self.lemma_sound_and(q, n, i - 1, r / c, t);
            self.lemma_edge_set(n, i - 1, t.model);
            assert(self.satisfies_branch(n, i - 1, t.model));
            assert(self.involved_upto(n, i) == self.involved_upto(n, i - 1).union(
                self.branch_vars(n, i - 1),
            ));
            assert(self.branch_vars(n, i - 1) == literal_vars(p).union(self.involved(child)));
        }
    }

    /// The same at a disjunction node.
    pub proof fn lemma_sound_or(self, q: Query, n: int, r: nat, t: Trace)
        requires
            self.regular(q),
            self.consistent_edges(),
            0 <= n < self.nodes.len(),
            self.nodes[n] is Or,
            self.fits(q, t),
            self.shows(q, n, r, t),
        ensures
            self.satisfies(n, t.model),
            !q.partial ==> forall|v: int|
                0 <= v < self.n_vars && self.involved(n).contains(v as nat) ==> #[trigger] set_at(
                    t.model,
                    v,
                ),
        decreases self.rank()[n], 0nat, 0nat,
    {
        assert(self.sum_upto(q, n, 0) == 0);
        let s = self.lemma_locate(q, n, 0, r, t);
        self.lemma_child_below(n, s);
        let child = self.child(n, s);
        let p = self.edge(n, s).propagated;
        let open = self.open_vars(q, n, s);
        let local = (r - self.sum_upto(q, n, s)) as nat;
        lemma_propagated_in_range(self, n, s);
        self.lemma_open_vars(q, n, s);
        assert(consistent_edge(self, n, s));
        lemma_stable_holds(t.model, p);
        self.lemma_sound(
            q,
            child,
            local / vstd::arithmetic::power2::pow2(self.weight(q, n, s)),
            t,
        );
        self.lemma_edge_set(n, s, t.model);
        assert(self.satisfies_branch(n, s, t.model));
        self.lemma_satisfies_from(n, 0, s, t.model);
        assert(self.branch_vars(n, s) == literal_vars(p).union(self.involved(child)));
        if !q.partial {
            assert forall|v: int|
                0 <= v < self.n_vars && self.involved(n).contains(
                    v as nat,
                ) implies #[trigger] set_at(t.model, v) by {
                if self.branch_vars(n, s).contains(v as nat) {
                } else if q.assumptions[v] is Some {
                    Literal::lemma_of(v as nat, q.assumptions[v]->0);
                } else {
                    self.lemma_open_vars_cover(q, n, s, v as nat);
                    lemma_write_free_sets(t.model, local, open, v);
                }
            }
        }
    }
}

/// The literals of an edge are consistent where the nodes decide.
pub open spec fn consistent_edge(f: Formula, n: int, i: int) -> bool {
    crate::laws::distinct::consistent(f.edge(n, i).propagated)
}

} // verus!
