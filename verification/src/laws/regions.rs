//! Regions: the part of a model and of the choices that belongs to a node,
//! and what it means for a state to show the model of a given index there.

use crate::algorithms::counting::Query;
use crate::algorithms::direct_access::vars_below;
use crate::algorithms::direct_access::write_all;
use crate::algorithms::direct_access::write_free;
use crate::algorithms::direct_access::Trace;
use crate::formula::assumptions::any_contradicts;
use crate::formula::assumptions::contradicts;
use crate::formula::decision_dnnf::Formula;
use crate::formula::decision_dnnf::NodeModel;
use crate::formula::involved_vars::literal_vars;
use crate::formula::literal::Literal;
use crate::laws::increment::canonical;
use crate::laws::increment::lemma_canonical_rest;
use crate::laws::increment::lemma_write_free_frame;
use vstd::arithmetic::power2::pow2;
use vstd::prelude::*;

verus! {

/// Whether a model holds the literal of each assumption.
pub open spec fn holds_assumptions(q: Query, model: Seq<Option<Literal>>) -> bool {
    forall|v: int|
        0 <= v < q.assumptions.len() && v < model.len() && (#[trigger] q.assumptions[v]) is Some
            ==> model[v] == Some(Literal::of(v as nat, q.assumptions[v]->0))
}

impl Formula {
    /// Whether the node `n` involves a variable.
    pub open spec fn busy(self, n: int) -> bool {
        exists|v: nat| self.involved(n).contains(v)
    }

    /// What the search of a model asks of a formula and of a query, beside
    /// well-formedness: the query speaks of the variables of the formula;
    /// the conjunction nodes are decomposable; and no edge propagates a
    /// literal of a variable that is involved at its target.
    pub open spec fn plain(self, q: Query) -> bool {
        &&& self.wf()
        &&& q.assumptions.len() == self.n_vars
        &&& self.decomposable()
        &&& forall|n: int, i: int|
            0 <= n < self.nodes.len() && 0 <= i < self.edge_list(n).len() ==> literal_vars(
                self.edge(n, i).propagated,
            ).disjoint(self.involved(#[trigger] self.child(n, i)))
    }

    /// What the order of the models asks of a formula and of a query, beside
    /// well-formedness: the conjunction nodes are decomposable; no edge
    /// propagates a literal of a variable that is involved at its target;
    /// a disjunction node that involves no variable has at most one edge;
    /// and, in partial mode, no literal of an edge contradicts an
    /// assumption.
    pub open spec fn regular(self, q: Query) -> bool {
        &&& self.plain(q)
        &&& forall|n: int|
            0 <= n < self.nodes.len() && (#[trigger] self.nodes[n]) is Or && !self.busy(n)
                ==> self.edge_list(n).len() <= 1
        &&& q.partial ==> forall|n: int, i: int|
            0 <= n < self.nodes.len() && 0 <= i < self.edge_list(n).len() ==> !any_contradicts(
                q.assumptions,
                (#[trigger] self.edge(n, i)).propagated,
            )
    }

    /// Whether node `m` is in the part of the graph that belongs to node
    /// `n`: it is no higher than `n`, and involves no variable that `n` does
    /// not involve.
    pub open spec fn below(self, m: int, n: int) -> bool {
        &&& 0 <= m < self.nodes.len()
        &&& self.rank()[m] <= self.rank()[n]
        &&& self.involved(m).subset_of(self.involved(n))
    }

    /// Whether a state takes the first branch at each disjunction node that
    /// involves no variable.
    pub open spec fn calm(self, t: Trace) -> bool {
        forall|m: int|
            0 <= m < t.graph.len() && 0 <= m < self.nodes.len() && self.nodes[m] is Or
                && !self.busy(m) ==> (#[trigger] t.graph[m]) == 0
    }

    /// Whether two states are the same in the region of node `n`: for the
    /// variables involved at `n` and for the disjunction nodes below it.
    pub open spec fn same_on(self, n: int, a: Trace, b: Trace) -> bool {
        &&& a.model.len() == b.model.len()
        &&& a.graph.len() == b.graph.len()
        &&& forall|v: int|
            0 <= v < a.model.len() && self.involved(n).contains(v as nat) ==> (
            #[trigger] a.model[v]) == b.model[v]
        &&& forall|m: int|
            0 <= m < a.graph.len() && self.nodes[m] is Or && self.below(m, n) ==> (
            #[trigger] a.graph[m]) == b.graph[m]
    }

    /// Whether two states are the same off the region of node `n`, widened
    /// to the variables of `vars`.
    pub open spec fn same_off(self, n: int, vars: Set<nat>, a: Trace, b: Trace) -> bool {
        &&& a.model.len() == b.model.len()
        &&& a.graph.len() == b.graph.len()
        &&& forall|v: int|
            0 <= v < a.model.len() && !self.involved(n).contains(v as nat) && !vars.contains(
                v as nat,
            ) ==> (#[trigger] a.model[v]) == b.model[v]
        &&& forall|m: int|
            0 <= m < a.graph.len() && self.nodes[m] is Or && !self.below(m, n) ==> (
            #[trigger] a.graph[m]) == b.graph[m]
    }

    /// Whether the state `t` shows, in the region of node `n`, the model of
    /// index `r` among those of the subformula rooted at `n`: each write that
    /// direct access makes for this index finds the state as it leaves it.
    pub open spec fn shows(self, q: Query, n: int, r: nat, t: Trace) -> bool
        decreases self.rank()[n], 1nat, 0nat,
        when self.wf() && 0 <= n < self.nodes.len()
    {
        match self.nodes[n] {
            NodeModel::True => true,
            NodeModel::False => false,
            NodeModel::And(_) => self.shows_and(q, n, self.edge_list(n).len() as int, r, t),
            NodeModel::Or(_) => self.shows_or(q, n, 0, r, t),
        }
    }

    /// The same for the first `i` edges of the conjunction node `n`.
    pub open spec fn shows_and(self, q: Query, n: int, i: int, r: nat, t: Trace) -> bool
        decreases self.rank()[n], 0nat, i,
        when self.wf() && 0 <= n < self.nodes.len() && 0 <= i <= self.edge_list(n).len()
    {
        if i == 0 {
            true
        } else {
            proof {
                self.lemma_child(n, i - 1);
            }
            let c = self.count(q, self.child(n, i - 1));
            &&& c > 0
            &&& !self.blocked(q, n, i - 1)
            &&& write_all(t.model, self.edge(n, i - 1).propagated) == t.model
            &&& self.shows(q, self.child(n, i - 1), r % c, t)
            &&& self.shows_and(q, n, i - 1, r / c, t)
        }
    }

    /// The same for the branches of the disjunction node `n` from the
    /// `i`-th on.
    pub open spec fn shows_or(self, q: Query, n: int, i: int, r: nat, t: Trace) -> bool
        decreases self.rank()[n], 0nat, self.edge_list(n).len() - i,
        when self.wf() && 0 <= n < self.nodes.len() && 0 <= i <= self.edge_list(n).len()
    {
        if i >= self.edge_list(n).len() {
            false
        } else {
            proof {
                self.lemma_child(n, i);
            }
            let total = self.branch_total(q, n, i);
            if r < total {
                &&& 0 <= n < t.graph.len()
                &&& t.graph[n] == i
                &&& write_free(t.model, r, self.open_vars(q, n, i), q.partial) == t.model
                &&& write_all(t.model, self.edge(n, i).propagated) == t.model
                &&& self.shows(q, self.child(n, i), r / pow2(self.weight(q, n, i)), t)
            } else {
                self.shows_or(q, n, i + 1, (r - total) as nat, t)
            }
        }
    }

    /// The variables involved at a child are involved at its parent, and a
    /// child is below its parent.
    pub proof fn lemma_child_below(self, n: int, i: int)
        requires
            self.wf(),
            0 <= n < self.nodes.len(),
            0 <= i < self.edge_list(n).len(),
        ensures
            self.below(self.child(n, i), n),
            self.involved(self.child(n, i)).subset_of(self.branch_vars(n, i)),
            literal_vars(self.edge(n, i).propagated).subset_of(self.branch_vars(n, i)),
            self.branch_vars(n, i).subset_of(self.involved(n)),
            self.rank()[self.child(n, i)] < self.rank()[n],
    {
        self.lemma_child(n, i);
        self.lemma_involved_bounds(n);
        assert(self.branch_vars(n, i) == literal_vars(self.edge(n, i).propagated).union(
            self.involved(self.child(n, i)),
        ));
        assert forall|v: nat| self.branch_vars(n, i).contains(v) implies self.involved(n).contains(
            v,
        ) by {}
    }

    /// Being below is transitive.
    pub proof fn lemma_below_trans(self, a: int, b: int, c: int)
        requires
            self.below(a, b),
            self.below(b, c),
        ensures
            self.below(a, c),
    {
    }

    /// In a regular formula no disjunction node that involves a variable
    /// is below two branches of a conjunction node.
    pub proof fn lemma_branches_apart(self, q: Query, n: int, i: int, j: int, m: int)
        requires
            self.regular(q),
            0 <= n < self.nodes.len(),
            self.nodes[n] is And,
            0 <= i < self.edge_list(n).len(),
            0 <= j < self.edge_list(n).len(),
            i != j,
            self.nodes[m] is Or,
            self.busy(m),
            self.below(m, self.child(n, i)),
        ensures
            !self.below(m, self.child(n, j)),
            self.branch_vars(n, i).disjoint(self.branch_vars(n, j)),
    {
        self.lemma_child_below(n, i);
        self.lemma_child_below(n, j);
        assert(self.decomposable_at(n));
        if i < j {
            assert(self.branch_vars(n, i).disjoint(self.branch_vars(n, j)));
        } else {
            assert(self.branch_vars(n, j).disjoint(self.branch_vars(n, i)));
        }
        let v = choose|v: nat| self.involved(m).contains(v);
        if self.below(m, self.child(n, j)) {
            assert(self.branch_vars(n, i).contains(v));
            assert(self.branch_vars(n, j).contains(v));
        }
    }
}

/// The last literal of the variable `var` in a list, if there is one.
pub open spec fn last_literal(literals: Seq<Literal>, var: nat) -> Option<Literal>
    decreases literals.len(),
{
    if literals.len() == 0 {
        None
    } else if literals.last().var() == var {
        Some(literals.last())
    } else {
        last_literal(literals.drop_last(), var)
    }
}

/// What writing literals makes of each place of a model: the last literal
/// of the variable, or what the place held.
pub proof fn lemma_write_all_places(model: Seq<Option<Literal>>, literals: Seq<Literal>, var: int)
    requires
        vars_below(literals, model.len()),
        0 <= var < model.len(),
    ensures
        write_all(model, literals).len() == model.len(),
        write_all(model, literals)[var] == match last_literal(literals, var as nat) {
            Some(l) => Some(l),
            None => model[var],
        },
        last_literal(literals, var as nat) is Some <==> literal_vars(literals).contains(var as nat),
    decreases literals.len(),
{
    if literals.len() > 0 {
        let rest = literals.drop_last();
        assert(vars_below(rest, model.len())) by {
            assert forall|i: int| 0 <= i < rest.len() implies (#[trigger] rest[i]).var()
                < model.len() by {
                assert(rest[i] == literals[i]);
            }
        }
        lemma_write_all_places(model, rest, var);
        if literal_vars(rest).contains(var as nat) {
            let k = choose|k: int| 0 <= k < rest.len() && (#[trigger] rest[k]).var() == var;
            assert(literals[k].var() == var);
        }
        if literals.last().var() == var {
            assert(literals[literals.len() - 1].var() == var);
        }
        if literal_vars(literals).contains(var as nat) && literals.last().var() != var {
            let k = choose|k: int| 0 <= k < literals.len() && (#[trigger] literals[k]).var() == var;
            assert(rest[k].var() == var);
        }
    }
}

/// A model that writing literals leaves as it is stays so where other
/// places change.
pub proof fn lemma_write_all_stable(
    a: Seq<Option<Literal>>,
    b: Seq<Option<Literal>>,
    literals: Seq<Literal>,
)
    requires
        vars_below(literals, a.len()),
        a.len() == b.len(),
        write_all(a, literals) == a,
        forall|v: int|
            0 <= v < a.len() && literal_vars(literals).contains(v as nat) ==> a[v] == b[v],
    ensures
        write_all(b, literals) == b,
{
    assert forall|v: int| 0 <= v < b.len() implies write_all(b, literals)[v] == b[v] by {
        lemma_write_all_places(a, literals, v);
        lemma_write_all_places(b, literals, v);
    }
    lemma_write_all_places_len(b, literals);
    assert(write_all(b, literals) =~= b);
}

/// Writing literals keeps the length of a model.
pub proof fn lemma_write_all_places_len(model: Seq<Option<Literal>>, literals: Seq<Literal>)
    requires
        vars_below(literals, model.len()),
    ensures
        write_all(model, literals).len() == model.len(),
{
    crate::algorithms::direct_access::lemma_write_all_len(model, literals);
}

/// What writing the free variables of a canonical list makes of the place
/// of one of them does not depend on what the model held.
pub proof fn lemma_write_free_places(
    a: Seq<Option<Literal>>,
    b: Seq<Option<Literal>>,
    k: nat,
    free_vars: Seq<Literal>,
    erase: bool,
    var: int,
)
    requires
        canonical(free_vars, a.len()),
        a.len() == b.len(),
        0 <= var < a.len(),
        literal_vars(free_vars).contains(var as nat),
    ensures
        write_free(a, k, free_vars, erase)[var] == write_free(b, k, free_vars, erase)[var],
    decreases free_vars.len(),
{
    if free_vars.len() > 0 {
        let v = free_vars.last();
        let x = if erase {
            None
        } else if k % 2 == 1 {
            Some(v.flipped())
        } else {
            Some(v)
        };
        let rest = free_vars.drop_last();
        lemma_canonical_rest(free_vars, a.len());
        if v.var() == var {
            lemma_write_free_frame(a.update(var, x), k / 2, rest, erase, var);
            lemma_write_free_frame(b.update(var, x), k / 2, rest, erase, var);
        } else {
            let j = choose|j: int| 0 <= j < free_vars.len() && (#[trigger] free_vars[j]).var() == var;
            assert(rest[j].var() == var);
            lemma_write_free_places(
                a.update(v.var() as int, x),
                b.update(v.var() as int, x),
                k / 2,
                rest,
                erase,
                var,
            );
        }
    }
}

/// A model that writing free variables leaves as it is stays so where other
/// places change.
pub proof fn lemma_write_free_stable(
    a: Seq<Option<Literal>>,
    b: Seq<Option<Literal>>,
    k: nat,
    free_vars: Seq<Literal>,
    erase: bool,
)
    requires
        canonical(free_vars, a.len()),
        a.len() == b.len(),
        write_free(a, k, free_vars, erase) == a,
        forall|v: int|
            0 <= v < a.len() && literal_vars(free_vars).contains(v as nat) ==> a[v] == b[v],
    ensures
        write_free(b, k, free_vars, erase) == b,
{
    assert forall|v: int| 0 <= v < b.len() implies write_free(b, k, free_vars, erase)[v]
        == b[v] by {
        if literal_vars(free_vars).contains(v as nat) {
            lemma_write_free_places(a, b, k, free_vars, erase, v);
        } else {
            assert forall|i: int| 0 <= i < free_vars.len() implies (#[trigger] free_vars[i]).var()
                != v by {}
            lemma_write_free_frame(b, k, free_vars, erase, v);
        }
    }
    crate::algorithms::direct_access::lemma_write_free_len(b, k, free_vars, erase);
    assert(write_free(b, k, free_vars, erase) =~= b);
}

} // verus!
