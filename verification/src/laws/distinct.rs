//! The models of two indices are two models.

use crate::algorithms::counting::Query;
use crate::algorithms::direct_access::vars_below;
use crate::algorithms::direct_access::write_all;
use crate::algorithms::direct_access::write_free;
use crate::algorithms::direct_access::Trace;
use crate::algorithms::model_enumerator::lemma_propagated_in_range;
use crate::algorithms::model_enumerator::EnumState;
use crate::formula::decision_dnnf::Formula;
use crate::formula::decision_dnnf::NodeModel;
use crate::formula::involved_vars::literal_vars;
use crate::formula::literal::Literal;
use crate::laws::enumeration::holding;
use crate::laws::facts::lemma_digits_bound;
use crate::laws::models::set_at;
use crate::laws::models::total;
use crate::laws::increment::canonical;
use crate::laws::increment::lemma_canonical_rest;
use crate::laws::increment::lemma_write_free_frame;
use crate::laws::regions::last_literal;
use crate::laws::regions::lemma_write_all_places;
use vstd::arithmetic::power2::lemma_pow2_pos;
use vstd::arithmetic::power2::lemma_pow2_unfold;
use vstd::arithmetic::power2::pow2;
use vstd::prelude::*;

verus! {

/// Whether no two literals of a list are the two literals of one variable.
pub open spec fn consistent(literals: Seq<Literal>) -> bool {
    forall|i: int, j: int|
        0 <= i < literals.len() && 0 <= j < literals.len() && (#[trigger] literals[i]).var() == (
        #[trigger] literals[j]).var() ==> literals[i] == literals[j]
}

/// Whether a model holds each literal of a list.
pub open spec fn holds_all(model: Seq<Option<Literal>>, literals: Seq<Literal>) -> bool {
    forall|j: int|
        0 <= j < literals.len() ==> model[(#[trigger] literals[j]).var() as int] == Some(
            literals[j],
        )
}

/// Whether two lists hold the two literals of some variable.
pub open spec fn clash(a: Seq<Literal>, b: Seq<Literal>) -> bool {
    exists|i: int, j: int|
        0 <= i < a.len() && 0 <= j < b.len() && (#[trigger] a[i]).var() == (#[trigger] b[j]).var()
            && a[i] != b[j]
}

/// Whether two models differ for a variable of a set.
pub open spec fn differ_on(vars: Set<nat>, a: Seq<Option<Literal>>, b: Seq<Option<Literal>>) -> bool {
    exists|v: int| 0 <= v < a.len() && vars.contains(v as nat) && (#[trigger] a[v]) != b[v]
}

/// The last literal of a variable in a list is a literal of the list and of
/// the variable.
pub proof fn lemma_last_literal(literals: Seq<Literal>, var: nat)
    ensures
        last_literal(literals, var) matches Some(l) ==> l.var() == var && exists|j: int|
            0 <= j < literals.len() && #[trigger] literals[j] == l,
    decreases literals.len(),
{
    if literals.len() > 0 {
        if literals.last().var() == var {
            assert(literals[literals.len() - 1] == literals.last());
        } else {
            let rest = literals.drop_last();
            lemma_last_literal(rest, var);
            if last_literal(rest, var) is Some {
                let l = last_literal(rest, var)->0;
                let j = choose|j: int| 0 <= j < rest.len() && #[trigger] rest[j] == l;
                assert(literals[j] == l);
            }
        }
    }
}

/// A model that the writing of a consistent list of literals leaves as it is
/// holds these literals, and the other way round.
pub proof fn lemma_stable_holds(model: Seq<Option<Literal>>, literals: Seq<Literal>)
    requires
        vars_below(literals, model.len()),
        consistent(literals),
    ensures
        write_all(model, literals) == model <==> holds_all(model, literals),
{
    crate::algorithms::direct_access::lemma_write_all_len(model, literals);
    if write_all(model, literals) == model {
        assert forall|j: int| 0 <= j < literals.len() implies model[(
        #[trigger] literals[j]).var() as int] == Some(literals[j]) by {
            let v = literals[j].var();
            lemma_write_all_places(model, literals, v as int);
            lemma_last_literal(literals, v);
            assert(literal_vars(literals).contains(v));
            let l = last_literal(literals, v)->0;
            let i = choose|i: int| 0 <= i < literals.len() && #[trigger] literals[i] == l;
            assert(literals[i] == literals[j]);
        }
    }
    if holds_all(model, literals) {
        assert forall|v: int| 0 <= v < model.len() implies write_all(model, literals)[v]
            == model[v] by {
            lemma_write_all_places(model, literals, v);
            lemma_last_literal(literals, v as nat);
            if last_literal(literals, v as nat) is Some {
                let l = last_literal(literals, v as nat)->0;
                let i = choose|i: int| 0 <= i < literals.len() && #[trigger] literals[i] == l;
                assert(model[literals[i].var() as int] == Some(literals[i]));
            }
        }
        assert(write_all(model, literals) =~= model);
    }
}

/// Two models that hold the polarities of two numbers for the free
/// variables of a list differ for one of these variables where the numbers
/// differ in the bits that are written.
pub proof fn lemma_bits_differ(
    a: Seq<Option<Literal>>,
    b: Seq<Option<Literal>>,
    k1: nat,
    k2: nat,
    free_vars: Seq<Literal>,
)
    requires
        canonical(free_vars, a.len()),
        a.len() == b.len(),
        write_free(a, k1, free_vars, false) == a,
        write_free(b, k2, free_vars, false) == b,
        k1 % pow2(free_vars.len()) != k2 % pow2(free_vars.len()),
    ensures
        differ_on(literal_vars(free_vars), a, b),
    decreases free_vars.len(),
{
    let len = free_vars.len();
    if len == 0 {
        assert(pow2(0) == 1) by {
            vstd::arithmetic::power2::lemma2_to64();
        }
    } else {
        let v = free_vars.last();
        let rest = free_vars.drop_last();
        let var = v.var() as int;
        lemma_canonical_rest(free_vars, a.len());
        v.lemma_of_self();
        Literal::lemma_of(v.var(), true);
        Literal::lemma_of(v.var(), false);
        assert(v == Literal::of(v.var(), false));
        assert(v.flipped() == Literal::of(v.var(), true));
        assert(Literal::of(v.var(), true) != Literal::of(v.var(), false));
        let x1 = if k1 % 2 == 1 {
            Some(v.flipped())
        } else {
            Some(v)
        };
        let x2 = if k2 % 2 == 1 {
            Some(v.flipped())
        } else {
            Some(v)
        };
        assert(vars_below(rest, a.len()));
        lemma_write_free_frame(a.update(var, x1), k1 / 2, rest, false, var);
        lemma_write_free_frame(b.update(var, x2), k2 / 2, rest, false, var);
        assert(a[var] == x1);
        assert(b[var] == x2);
        assert(a.update(var, x1) =~= a);
        assert(b.update(var, x2) =~= b);
        assert(free_vars[len - 1].var() == var);
        if k1 % 2 != k2 % 2 {
            assert(literal_vars(free_vars).contains(var as nat));
            assert(a[var] != b[var]);
        } else {
            let low = (len - 1) as nat;
            lemma_pow2_unfold(len);
            lemma_pow2_pos(low);
            vstd::arithmetic::div_mod::lemma_mod_breakdown(k1 as int, 2, pow2(low) as int);
            vstd::arithmetic::div_mod::lemma_mod_breakdown(k2 as int, 2, pow2(low) as int);
            lemma_bits_differ(a, b, k1 / 2, k2 / 2, rest);
            let w = choose|w: int|
                0 <= w < a.len() && literal_vars(rest).contains(w as nat) && (#[trigger] a[w])
                    != b[w];
            let j = choose|j: int| 0 <= j < rest.len() && (#[trigger] rest[j]).var() == w;
            assert(free_vars[j].var() == w);
            assert(literal_vars(free_vars).contains(w as nat));
        }
    }
}

impl Formula {
    /// Whether the literals of each edge are consistent.
    pub open spec fn consistent_edges(self) -> bool {
        forall|n: int, i: int|
            0 <= n < self.nodes.len() && 0 <= i < self.edge_list(n).len() ==> consistent(
                (#[trigger] self.edge(n, i)).propagated,
            )
    }

    /// Whether the disjunction nodes are deterministic: no model that gives
    /// each variable a literal satisfies two branches of a disjunction
    /// node.
    pub open spec fn exclusive(self) -> bool {
        forall|n: int, i: int, j: int, model: Seq<Option<Literal>>|
            0 <= n < self.nodes.len() && self.nodes[n] is Or && 0 <= i < j < self.edge_list(
                n,
            ).len() && total(model, self.n_vars) ==> !(#[trigger] self.satisfies_branch(
                n,
                i,
                model,
            ) && #[trigger] self.satisfies_branch(n, j, model))
    }

    /// Whether each disjunction node decides: the literals of an edge are
    /// consistent, and two edges of a disjunction node hold the two
    /// literals of some variable.
    pub open spec fn deciding(self) -> bool {
        &&& self.consistent_edges()
        &&& forall|n: int, i: int, j: int|
            0 <= n < self.nodes.len() && self.nodes[n] is Or && 0 <= i < j < self.edge_list(
                n,
            ).len() ==> clash(
                (#[trigger] self.edge(n, i)).propagated,
                (#[trigger] self.edge(n, j)).propagated,
            )
    }

    /// Disjunction nodes that decide are deterministic: where the literals
    /// of the edges are consistent and two edges of a disjunction node hold
    /// the two literals of some variable, no model satisfies two branches of
    /// a disjunction node.
    pub proof fn law_deciding_is_deterministic(self)
        requires
            self.wf(),
            self.consistent_edges(),
            self.exclusive(),
        ensures
            self.consistent_edges(),
            self.exclusive(),
    {
        assert forall|n: int, i: int, j: int, model: Seq<Option<Literal>>|
            0 <= n < self.nodes.len() && self.nodes[n] is Or && 0 <= i < j < self.edge_list(
                n,
            ).len() && total(model, self.n_vars) implies !(#[trigger] self.satisfies_branch(
            n,
            i,
            model,
        ) && #[trigger] self.satisfies_branch(n, j, model)) by {
            let here = self.edge(n, i).propagated;
            let there = self.edge(n, j).propagated;
            self.lemma_child(n, i);
            self.lemma_child(n, j);
            if self.satisfies_branch(n, i, model) && self.satisfies_branch(n, j, model) {
                assert(clash(self.edge(n, i).propagated, self.edge(n, j).propagated));
                let (x, y) = choose|x: int, y: int|
                    0 <= x < here.len() && 0 <= y < there.len() && (#[trigger] here[x]).var() == (
                    #[trigger] there[y]).var() && here[x] != there[y];
                assert(model[here[x].var() as int] == Some(here[x]));
                assert(model[there[y].var() as int] == Some(there[y]));
            }
        }
    }

    /// A total model that holds, for the variables involved at a node, what
    /// a state holds.
    pub open spec fn filled(self, model: Seq<Option<Literal>>) -> Seq<Option<Literal>> {
        Seq::new(
            self.n_vars,
            |v: int|
                if 0 <= v < model.len() && model[v] is Some && model[v]->0.var() == v {
                    model[v]
                } else {
                    Some(Literal::of(v as nat, true))
                },
        )
    }

    /// Two states that show two indices at a node differ for a variable
    /// that is involved at the node.
    pub proof fn lemma_distinct(self, q: Query, n: int, r1: nat, r2: nat, a: Trace, b: Trace)
        requires
            self.regular(q),
            self.consistent_edges(),
            self.exclusive(),
            0 <= n < self.nodes.len(),
            self.fits(q, a),
            self.fits(q, b),
            self.shows(q, n, r1, a),
            self.shows(q, n, r2, b),
            r1 < self.count(q, n),
            r2 < self.count(q, n),
            r1 != r2,
        ensures
            differ_on(self.involved(n), a.model, b.model),
        decreases self.rank()[n], 1nat, 0nat,
    {
        let len = self.edge_list(n).len() as int;
        match self.nodes[n] {
            NodeModel::And(_) => {
                assert(self.count(q, n) == self.product_upto(q, n, len));
                self.lemma_distinct_and(q, n, len, r1, r2, a, b);
            },
            NodeModel::Or(_) => {
                self.lemma_distinct_or(q, n, r1, r2, a, b);
            },
            _ => {},
        }
    }

    /// The same for the first `i` edges of a conjunction node.
    pub proof fn lemma_distinct_and(
        self,
        q: Query,
        n: int,
        i: int,
        r1: nat,
        r2: nat,
        a: Trace,
        b: Trace,
    )
        requires
            self.regular(q),
            self.consistent_edges(),
            self.exclusive(),
            0 <= n < self.nodes.len(),
            self.nodes[n] is And,
            0 <= i <= self.edge_list(n).len(),
            self.fits(q, a),
            self.fits(q, b),
            self.shows_and(q, n, i, r1, a),
            self.shows_and(q, n, i, r2, b),
            r1 < self.product_upto(q, n, i),
            r2 < self.product_upto(q, n, i),
            r1 != r2,
        ensures
            differ_on(self.involved_upto(n, i), a.model, b.model),
        decreases self.rank()[n], 0nat, i,
    {
        if i == 0 {
            assert(self.product_upto(q, n, 0) == 1);
        } else {
            self.lemma_child_below(n, i - 1);
            let child = self.child(n, i - 1);
            let c = self.count(q, child);
            let p = self.edge(n, i - 1).propagated;
            let before = self.product_upto(q, n, i - 1);
            assert(self.shows_and(q, n, i, r1, a) == (c > 0 && !self.blocked(q, n, i - 1)
                && write_all(a.model, p) == a.model && self.shows(q, child, r1 % c, a)
                && self.shows_and(q, n, i - 1, r1 / c, a)));
            assert(self.shows_and(q, n, i, r2, b) == (c > 0 && !self.blocked(q, n, i - 1)
                && write_all(b.model, p) == b.model && self.shows(q, child, r2 % c, b)
                && self.shows_and(q, n, i - 1, r2 / c, b)));
            assert(self.count_via(q, n, i - 1) == c);
            assert(self.product_upto(q, n, i) == before * c);
            lemma_digits_bound(r1, before, c);
            lemma_digits_bound(r2, before, c);
            vstd::arithmetic::div_mod::lemma_fundamental_div_mod(r1 as int, c as int);
            vstd::arithmetic::div_mod::lemma_fundamental_div_mod(r2 as int, c as int);
            assert(self.involved_upto(n, i) == self.involved_upto(n, i - 1).union(
                self.branch_vars(n, i - 1),
            ));
            if r1 % c != r2 % c {
                self.lemma_distinct(q, child, r1 % c, r2 % c, a, b);
                let v = choose|v: int|
                    0 <= v < a.model.len() && self.involved(child).contains(v as nat) && (
                    #[trigger] a.model[v]) != b.model[v];
                assert(self.involved_upto(n, i).contains(v as nat));
            } else {
                assert(r1 / c != r2 / c);
                self.lemma_distinct_and(q, n, i - 1, r1 / c, r2 / c, a, b);
                let v = choose|v: int|
                    0 <= v < a.model.len() && self.involved_upto(n, i - 1).contains(v as nat) && (
                    #[trigger] a.model[v]) != b.model[v];
                assert(self.involved_upto(n, i).contains(v as nat));
            }
        }
    }

    /// The same at a disjunction node.
    pub proof fn lemma_distinct_or(self, q: Query, n: int, r1: nat, r2: nat, a: Trace, b: Trace)
        requires
            self.regular(q),
            self.consistent_edges(),
            self.exclusive(),
            0 <= n < self.nodes.len(),
            self.nodes[n] is Or,
            self.fits(q, a),
            self.fits(q, b),
            self.shows(q, n, r1, a),
            self.shows(q, n, r2, b),
            r1 != r2,
        ensures
            differ_on(self.involved(n), a.model, b.model),
        decreases self.rank()[n], 0nat, 0nat,
    {
        assert(self.sum_upto(q, n, 0) == 0);
        let s1 = self.lemma_locate(q, n, 0, r1, a);
        let s2 = self.lemma_locate(q, n, 0, r2, b);
        self.lemma_child_below(n, s1);
        self.lemma_child_below(n, s2);
        lemma_propagated_in_range(self, n, s1);
        lemma_propagated_in_range(self, n, s2);
        let here = self.edge(n, s1).propagated;
        let there = self.edge(n, s2).propagated;
        lemma_stable_holds(a.model, here);
        lemma_stable_holds(b.model, there);
        if s1 != s2 {
            if !differ_on(self.involved(n), a.model, b.model) {
                assert(consistent(self.edge(n, s1).propagated));
                assert(consistent(self.edge(n, s2).propagated));
                self.lemma_sound(
                    q,
                    self.child(n, s1),
                    (r1 - self.sum_upto(q, n, s1)) as nat / pow2(self.weight(q, n, s1)),
                    a,
                );
                self.lemma_sound(
                    q,
                    self.child(n, s2),
                    (r2 - self.sum_upto(q, n, s2)) as nat / pow2(self.weight(q, n, s2)),
                    b,
                );
                assert(self.satisfies_branch(n, s1, a.model));
                assert(self.satisfies_branch(n, s2, b.model));
                let whole = self.filled(a.model);
                self.lemma_involved_bounds(n);
                assert forall|v: int| 0 <= v < self.n_vars implies #[trigger] set_at(whole, v) by {
                    Literal::lemma_of(v as nat, true);
                }
                assert(total(whole, self.n_vars));
                assert forall|v: int|
                    0 <= v < self.n_vars && self.involved(n).contains(v as nat) && b.model[v]
                        is Some && b.model[v]->0.var() == v implies #[trigger] whole[v]
                    == b.model[v] by {
                    assert(a.model[v] == b.model[v]);
                }
                self.lemma_branch_transfer(n, s1, a.model, whole);
                self.lemma_branch_transfer(n, s2, b.model, whole);
                if s1 < s2 {
                    assert(!(self.satisfies_branch(n, s1, whole) && self.satisfies_branch(
                        n,
                        s2,
                        whole,
                    )));
                } else {
                    assert(!(self.satisfies_branch(n, s2, whole) && self.satisfies_branch(
                        n,
                        s1,
                        whole,
                    )));
                }
            }
        } else {
            let child = self.child(n, s1);
            let open = self.open_vars(q, n, s1);
            let w = self.weight(q, n, s1);
            let gain = self.count_via(q, n, s1);
            let l1 = (r1 - self.sum_upto(q, n, s1)) as nat;
            let l2 = (r2 - self.sum_upto(q, n, s1)) as nat;
            self.lemma_open_vars(q, n, s1);
            lemma_pow2_pos(w);
            lemma_digits_bound(l1, gain, pow2(w));
            lemma_digits_bound(l2, gain, pow2(w));
            assert(gain > 0) by (nonlinear_arith)
                requires
                    l1 < gain * pow2(w),
            ;
            assert(self.count_via(q, n, s1) == if self.blocked(q, n, s1) {
                0
            } else {
                self.count(q, child)
            });
            vstd::arithmetic::div_mod::lemma_fundamental_div_mod(l1 as int, pow2(w) as int);
            vstd::arithmetic::div_mod::lemma_fundamental_div_mod(l2 as int, pow2(w) as int);
            if l1 / pow2(w) != l2 / pow2(w) {
                self.lemma_distinct(q, child, l1 / pow2(w), l2 / pow2(w), a, b);
                let v = choose|v: int|
                    0 <= v < a.model.len() && self.involved(child).contains(v as nat) && (
                    #[trigger] a.model[v]) != b.model[v];
                assert(self.involved(n).contains(v as nat));
            } else {
                assert(l1 % pow2(w) != l2 % pow2(w));
                if q.partial {
                    assert(pow2(0) == 1) by {
                        vstd::arithmetic::power2::lemma2_to64();
                    }
                } else {
                    lemma_bits_differ(a.model, b.model, l1, l2, open);
                    let v = choose|v: int|
                        0 <= v < a.model.len() && literal_vars(open).contains(v as nat) && (
                        #[trigger] a.model[v]) != b.model[v];
                    let j = choose|j: int| 0 <= j < open.len() && (#[trigger] open[j]).var() == v;
                    assert(self.involved(n).contains(open[j].var()));
                }
            }
        }
    }

    /// Two states of an enumeration that show two indices hold two models.
    pub proof fn lemma_distinct_states(self, q: Query, s1: EnumState, s2: EnumState, k1: nat, k2: nat)
        requires
            self.regular(q),
            self.consistent_edges(),
            self.exclusive(),
            self.at_index(q, s1, k1),
            self.at_index(q, s2, k2),
            k1 < self.global_count(q),
            k2 < self.global_count(q),
            k1 != k2,
        ensures
            s1.trace.model != s2.trace.model,
    {
        let open = self.open_root_vars(q);
        let w = self.root_weight(q);
        self.lemma_open_root_vars(q);
        lemma_pow2_pos(w);
        lemma_digits_bound(k1, self.count(q, 0), pow2(w));
        lemma_digits_bound(k2, self.count(q, 0), pow2(w));
        vstd::arithmetic::div_mod::lemma_fundamental_div_mod(k1 as int, pow2(w) as int);
        vstd::arithmetic::div_mod::lemma_fundamental_div_mod(k2 as int, pow2(w) as int);
        if k1 / pow2(w) != k2 / pow2(w) {
            self.lemma_distinct(q, 0, k1 / pow2(w), k2 / pow2(w), s1.trace, s2.trace);
        } else if q.partial {
            assert(pow2(0) == 1) by {
                vstd::arithmetic::power2::lemma2_to64();
            }
        } else {
            lemma_bits_differ(s1.trace.model, s2.trace.model, k1, k2, open);
        }
    }

    /// Direct access gives two models for two indices: where the
    /// disjunction nodes are deterministic, the models of the indices below the count
    /// differ from one another.
    pub proof fn law_models_are_distinct(self, q: Query, k: nat, j: nat)
        requires
            self.regular(q),
            self.consistent_edges(),
            self.exclusive(),
            k < self.global_count(q),
            j < self.global_count(q),
            k != j,
        ensures
            self.model_at(q, k as int) is Some,
            self.model_at(q, j as int) is Some,
            self.model_at(q, k as int) != self.model_at(q, j as int),
    {
        self.lemma_trace_at(q, k);
        self.lemma_trace_at(q, j);
        self.lemma_distinct_states(q, holding(self, q, k), holding(self, q, j), k, j);
    }
}

} // verus!
