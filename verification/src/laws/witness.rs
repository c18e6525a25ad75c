//! The model that a finder finds is a model of the formula.

use crate::algorithms::counting::Query;
use crate::algorithms::direct_access::vars_below;
use crate::algorithms::direct_access::write_all;
use crate::algorithms::model_enumerator::lemma_propagated_in_range;
use crate::algorithms::model_finder::completed;
use crate::algorithms::model_finder::filling;
use crate::formula::assumptions::contradicts;
use crate::formula::decision_dnnf::Formula;
use crate::formula::decision_dnnf::NodeModel;
use crate::formula::involved_vars::literal_vars;
use crate::formula::literal::Literal;
use crate::laws::distinct::holds_all;
use crate::laws::distinct::lemma_last_literal;
use crate::laws::models::set_at;
use crate::laws::models::total;
use crate::laws::regions::holds_assumptions;
use crate::laws::regions::last_literal;
use crate::laws::regions::lemma_write_all_places;
use vstd::prelude::*;

verus! {

/// Whether no two literals of a list are of the same variable.
pub open spec fn distinct_vars(list: Seq<Literal>) -> bool {
    forall|i: int, j: int|
        0 <= i < j < list.len() ==> (#[trigger] list[i]).var() != (#[trigger] list[j]).var()
}

/// The model that holds the literals of a list, each at the place of its
/// variable, and nothing else.
pub open spec fn as_model(list: Seq<Literal>, n_vars: nat) -> Seq<Option<Literal>> {
    write_all(Seq::new(n_vars, |v: int| None::<Literal>), list)
}

/// A model that holds the literals of two lists put together holds those
/// of each list.
pub proof fn lemma_holds_parts(model: Seq<Option<Literal>>, s: Seq<Literal>, t: Seq<Literal>)
    requires
        holds_all(model, s + t),
    ensures
        holds_all(model, s),
        holds_all(model, t),
{
    assert forall|j: int| 0 <= j < s.len() implies model[(#[trigger] s[j]).var() as int] == Some(
        s[j],
    ) by {
        assert((s + t)[j] == s[j]);
    }
    assert forall|j: int| 0 <= j < t.len() implies model[(#[trigger] t[j]).var() as int] == Some(
        t[j],
    ) by {
        assert((s + t)[s.len() + j] == t[j]);
    }
}

/// Two lists without a repeated variable, of variables of two sets that
/// share none, make a list without a repeated variable.
pub proof fn lemma_distinct_parts(s: Seq<Literal>, t: Seq<Literal>, a: Set<nat>, b: Set<nat>)
    requires
        distinct_vars(s),
        distinct_vars(t),
        forall|j: int| 0 <= j < s.len() ==> a.contains((#[trigger] s[j]).var()),
        forall|j: int| 0 <= j < t.len() ==> b.contains((#[trigger] t[j]).var()),
        a.disjoint(b),
    ensures
        distinct_vars(s + t),
{
    let whole = s + t;
    assert forall|i: int, j: int| 0 <= i < j < whole.len() implies (#[trigger] whole[i]).var() != (
    #[trigger] whole[j]).var() by {
        if j < s.len() {
            assert(whole[i] == s[i] && whole[j] == s[j]);
        } else if i >= s.len() {
            assert(whole[i] == t[i - s.len()] && whole[j] == t[j - s.len()]);
        } else {
            assert(whole[i] == s[i] && whole[j] == t[j - s.len()]);
            assert(a.contains(s[i].var()));
            assert(b.contains(t[j - s.len()].var()));
        }
    }
}

/// Writing a list without a repeated variable leaves a model that holds
/// each literal of the list, and what it held for the other variables.
pub proof fn lemma_written_holds(base: Seq<Option<Literal>>, list: Seq<Literal>)
    requires
        vars_below(list, base.len()),
        distinct_vars(list),
    ensures
        write_all(base, list).len() == base.len(),
        holds_all(write_all(base, list), list),
        forall|v: int|
            0 <= v < base.len() && !literal_vars(list).contains(v as nat) ==> write_all(
                base,
                list,
            )[v] == base[v],
{
    crate::algorithms::direct_access::lemma_write_all_len(base, list);
    assert forall|j: int| 0 <= j < list.len() implies write_all(base, list)[(
    #[trigger] list[j]).var() as int] == Some(list[j]) by {
        let v = list[j].var();
        lemma_write_all_places(base, list, v as int);
        lemma_last_literal(list, v);
        assert(literal_vars(list).contains(v));
        let l = last_literal(list, v)->0;
        let i = choose|i: int| 0 <= i < list.len() && #[trigger] list[i] == l;
        if i < j {
            assert(list[i].var() != list[j].var());
        }
        if j < i {
            assert(list[j].var() != list[i].var());
        }
    }
    assert forall|v: int|
        0 <= v < base.len() && !literal_vars(list).contains(v as nat) implies write_all(
        base,
        list,
    )[v] == base[v] by {
        lemma_write_all_places(base, list, v);
    }
}

/// The literals that complete a model are one for each variable below
/// `hi` that is not in `s`, positive unless the mapping asks for the
/// negative one.
pub proof fn lemma_filling(s: Set<nat>, a: Seq<Option<bool>>, hi: nat)
    requires
        2 * hi <= usize::MAX + 1,
    ensures
        distinct_vars(filling(s, a, hi)),
        forall|j: int|
            0 <= j < filling(s, a, hi).len() ==> {
                let l = #[trigger] filling(s, a, hi)[j];
                &&& l.var() < hi
                &&& !s.contains(l.var())
                &&& l.is_positive() == !(l.var() < a.len() && a[l.var() as int] == Some(false))
            },
        forall|v: nat|
            v < hi && !s.contains(v) ==> exists|j: int|
                0 <= j < filling(s, a, hi).len() && (#[trigger] filling(s, a, hi)[j]).var() == v,
    decreases hi,
{
    if hi > 0 {
        let top = (hi - 1) as nat;
        let rest = filling(s, a, top);
        let all = filling(s, a, hi);
        lemma_filling(s, a, top);
        if s.contains(top) {
            assert(all == rest);
            assert forall|v: nat| v < hi && !s.contains(v) implies exists|j: int|
                0 <= j < all.len() && (#[trigger] all[j]).var() == v by {
                assert(v < top);
                let j = choose|j: int| 0 <= j < rest.len() && (#[trigger] rest[j]).var() == v;
                assert(all[j].var() == v);
            }
        } else {
            let l = Literal::of(top, !(hi - 1 < a.len() && a[hi - 1] == Some(false)));
            Literal::lemma_of(top, !(hi - 1 < a.len() && a[hi - 1] == Some(false)));
            assert(all == rest.push(l));
            assert forall|i: int, j: int| 0 <= i < j < all.len() implies (#[trigger] all[i]).var()
                != (#[trigger] all[j]).var() by {
                if j < rest.len() {
                    assert(all[i] == rest[i] && all[j] == rest[j]);
                } else {
                    assert(all[i] == rest[i]);
                    assert(rest[i].var() < top);
                }
            }
            assert forall|j: int| 0 <= j < all.len() implies {
                let x = #[trigger] all[j];
                &&& x.var() < hi
                &&& !s.contains(x.var())
                &&& x.is_positive() == !(x.var() < a.len() && a[x.var() as int] == Some(false))
            } by {
                if j < rest.len() {
                    assert(all[j] == rest[j]);
                }
            }
            assert forall|v: nat| v < hi && !s.contains(v) implies exists|j: int|
                0 <= j < all.len() && (#[trigger] all[j]).var() == v by {
                if v < top {
                    let j = choose|j: int| 0 <= j < rest.len() && (#[trigger] rest[j]).var() == v;
                    assert(all[j].var() == v);
                } else {
                    assert(all[rest.len() as int].var() == v);
                }
            }
        }
    }
}

/// A list without a repeated variable, of variables below `n`, has at
/// most `n` literals, and a literal of each variable where it has `n`.
pub proof fn lemma_all_vars(list: Seq<Literal>, n: nat)
    requires
        distinct_vars(list),
        vars_below(list, n),
    ensures
        list.len() <= n,
        list.len() == n ==> forall|v: nat| v < n ==> #[trigger] literal_vars(list).contains(v),
    decreases n,
{
    if n == 0 {
        if list.len() > 0 {
            assert(list[0].var() < n);
        }
    } else {
        let top = (n - 1) as nat;
        if exists|j: int| 0 <= j < list.len() && (#[trigger] list[j]).var() == top {
            let j = choose|j: int| 0 <= j < list.len() && (#[trigger] list[j]).var() == top;
            let rest = list.remove(j);
            assert forall|i: int| 0 <= i < rest.len() implies (#[trigger] rest[i]).var() < top by {
                if i < j {
                    assert(rest[i] == list[i]);
                    assert(list[i].var() != list[j].var());
                } else {
                    assert(rest[i] == list[i + 1]);
                    assert(list[j].var() != list[i + 1].var());
                }
                assert(rest[i].var() < n);
            }
            assert forall|x: int, y: int| 0 <= x < y < rest.len() implies (
            #[trigger] rest[x]).var() != (#[trigger] rest[y]).var() by {
                let x0 = if x < j {
                    x
                } else {
                    x + 1
                };
                let y0 = if y < j {
                    y
                } else {
                    y + 1
                };
                assert(rest[x] == list[x0] && rest[y] == list[y0]);
                assert(list[x0].var() != list[y0].var());
            }
            lemma_all_vars(rest, top);
            if list.len() == n {
                assert forall|v: nat| v < n implies #[trigger] literal_vars(list).contains(v) by {
                    if v < top {
                        assert(literal_vars(rest).contains(v));
                        let i = choose|i: int|
                            0 <= i < rest.len() && (#[trigger] rest[i]).var() == v;
                        let i0 = if i < j {
                            i
                        } else {
                            i + 1
                        };
                        assert(list[i0].var() == v);
                    } else {
                        assert(list[j].var() == v);
                    }
                }
            }
        } else {
            assert forall|i: int| 0 <= i < list.len() implies (#[trigger] list[i]).var() < top by {
                assert(list[i].var() < n);
            }
            lemma_all_vars(list, top);
        }
    }
}

impl Formula {
    /// Whether no edge propagates two literals of the same variable.
    pub open spec fn neat(self) -> bool {
        forall|e: int| 0 <= e < self.edges.len() ==> distinct_vars((#[trigger] self.edges[e]).propagated)
    }

    /// A model that holds the literals that a walk found from a node
    /// satisfies the node.
    pub proof fn lemma_found_satisfies(self, a: Seq<Option<bool>>, n: int, model: Seq<Option<Literal>>)
        requires
            self.wf(),
            0 <= n < self.nodes.len(),
            self.found(a, n) is Some,
            holds_all(model, self.found(a, n)->0),
        ensures
            self.satisfies(n, model),
        decreases self.rank()[n], 1nat, 0nat,
    {
        let len = self.edge_list(n).len() as int;
        match self.nodes[n] {
            NodeModel::And(_) => {
                self.lemma_found_all_satisfies(a, n, len, model);
            },
            NodeModel::Or(_) => {
                self.lemma_found_first_satisfies(a, n, 0, model);
            },
            _ => {},
        }
    }

    /// The same through one edge.
    pub proof fn lemma_found_via_satisfies(
        self,
        a: Seq<Option<bool>>,
        n: int,
        i: int,
        model: Seq<Option<Literal>>,
    )
        requires
            self.wf(),
            0 <= n < self.nodes.len(),
            0 <= i < self.edge_list(n).len(),
            self.found_via(a, n, i) is Some,
            holds_all(model, self.found_via(a, n, i)->0),
        ensures
            self.satisfies_branch(n, i, model),
        decreases self.rank()[n], 0nat, 0nat,
    {
        self.lemma_child(n, i);
        let below = self.found(a, self.child(n, i))->0;
        lemma_holds_parts(model, self.edge(n, i).propagated, below);
        self.lemma_found_satisfies(a, self.child(n, i), model);
    }

    /// The same through the first `i` edges of a conjunction node.
    pub proof fn lemma_found_all_satisfies(
        self,
        a: Seq<Option<bool>>,
        n: int,
        i: int,
        model: Seq<Option<Literal>>,
    )
        requires
            self.wf(),
            0 <= n < self.nodes.len(),
            0 <= i <= self.edge_list(n).len(),
            self.found_all(a, n, i) is Some,
            holds_all(model, self.found_all(a, n, i)->0),
        ensures
            self.satisfies_and(n, i, model),
        decreases self.rank()[n], 0nat, i + 1,
    {
        if i > 0 {
            let s = self.found_all(a, n, i - 1)->0;
            let t = self.found_via(a, n, i - 1)->0;
            lemma_holds_parts(model, s, t);
            self.lemma_found_all_satisfies(a, n, i - 1, model);
            self.lemma_found_via_satisfies(a, n, i - 1, model);
        }
    }

    /// The same through the first edge, from the `i`-th on, of a
    /// disjunction node.
    pub proof fn lemma_found_first_satisfies(
        self,
        a: Seq<Option<bool>>,
        n: int,
        i: int,
        model: Seq<Option<Literal>>,
    )
        requires
            self.wf(),
            0 <= n < self.nodes.len(),
            0 <= i <= self.edge_list(n).len(),
            self.found_first(a, n, i) is Some,
            holds_all(model, self.found_first(a, n, i)->0),
        ensures
            self.satisfies_or(n, i, model),
        decreases self.rank()[n], 0nat, self.edge_list(n).len() - i + 1,
    {
        if i < self.edge_list(n).len() {
            if self.found_via(a, n, i) is Some {
                self.lemma_found_via_satisfies(a, n, i, model);
            } else {
                self.lemma_found_first_satisfies(a, n, i + 1, model);
            }
        }
    }

    /// The literals that a walk finds from a node are of variables that
    /// are involved at the node, no two of the same variable, and none
    /// contradicts the mapping.
    pub proof fn lemma_found_neat(self, q: Query, n: int)
        requires
            self.plain(q),
            self.neat(),
            0 <= n < self.nodes.len(),
            self.found(q.assumptions, n) is Some,
        ensures
            distinct_vars(self.found(q.assumptions, n)->0),
            forall|j: int|
                0 <= j < self.found(q.assumptions, n)->0.len() ==> self.involved(n).contains(
                    (#[trigger] self.found(q.assumptions, n)->0[j]).var(),
                ) && !contradicts(q.assumptions, self.found(q.assumptions, n)->0[j]),
        decreases self.rank()[n], 1nat, 0nat,
    {
        let len = self.edge_list(n).len() as int;
        match self.nodes[n] {
            NodeModel::And(_) => {
                self.lemma_found_all_neat(q, n, len);
            },
            NodeModel::Or(_) => {
                self.lemma_found_first_neat(q, n, 0);
            },
            _ => {},
        }
    }

    /// The same through one edge, for the variables of the branch.
    pub proof fn lemma_found_via_neat(self, q: Query, n: int, i: int)
        requires
            self.plain(q),
            self.neat(),
            0 <= n < self.nodes.len(),
            0 <= i < self.edge_list(n).len(),
            self.found_via(q.assumptions, n, i) is Some,
        ensures
            distinct_vars(self.found_via(q.assumptions, n, i)->0),
            forall|j: int|
                0 <= j < self.found_via(q.assumptions, n, i)->0.len() ==> self.branch_vars(
                    n,
                    i,
                ).contains((#[trigger] self.found_via(q.assumptions, n, i)->0[j]).var())
                    && !contradicts(q.assumptions, self.found_via(q.assumptions, n, i)->0[j]),
        decreases self.rank()[n], 0nat, 0nat,
    {
        self.lemma_child_below(n, i);
        lemma_propagated_in_range(self, n, i);
        let a = q.assumptions;
        let p = self.edge(n, i).propagated;
        let child = self.child(n, i);
        let below = self.found(a, child)->0;
        let t = self.found_via(a, n, i)->0;
        assert(t == p + below);
        self.lemma_found_neat(q, child);
        assert(self.edges[self.edge_list(n)[i] as int].propagated == p);
        assert(literal_vars(p).disjoint(self.involved(child))) by {
            assert(self.child(n, i) == child);
        }
        lemma_distinct_parts(p, below, literal_vars(p), self.involved(child));
        assert(self.branch_vars(n, i) == literal_vars(p).union(self.involved(child)));
        assert forall|j: int| 0 <= j < t.len() implies self.branch_vars(n, i).contains(
            (#[trigger] t[j]).var(),
        ) && !contradicts(a, t[j]) by {
            if j < p.len() {
                assert(t[j] == p[j]);
                assert(literal_vars(p).contains(p[j].var()));
            } else {
                assert(t[j] == below[j - p.len()]);
            }
        }
    }

    /// The same through the first `i` edges of a conjunction node.
    pub proof fn lemma_found_all_neat(self, q: Query, n: int, i: int)
        requires
            self.plain(q),
            self.neat(),
            0 <= n < self.nodes.len(),
            self.nodes[n] is And,
            0 <= i <= self.edge_list(n).len(),
            self.found_all(q.assumptions, n, i) is Some,
        ensures
            distinct_vars(self.found_all(q.assumptions, n, i)->0),
            forall|j: int|
                0 <= j < self.found_all(q.assumptions, n, i)->0.len() ==> self.involved_upto(
                    n,
                    i,
                ).contains((#[trigger] self.found_all(q.assumptions, n, i)->0[j]).var())
                    && !contradicts(q.assumptions, self.found_all(q.assumptions, n, i)->0[j]),
        decreases self.rank()[n], 0nat, i + 1,
    {
        if i > 0 {
            let a = q.assumptions;
            let s = self.found_all(a, n, i - 1)->0;
            let t = self.found_via(a, n, i - 1)->0;
            let whole = self.found_all(a, n, i)->0;
            assert(whole == s + t);
            self.lemma_found_all_neat(q, n, i - 1);
            self.lemma_found_via_neat(q, n, i - 1);
            assert(self.involved_upto(n, i) == self.involved_upto(n, i - 1).union(
                self.branch_vars(n, i - 1),
            ));
            assert(self.involved_upto(n, i - 1).disjoint(self.branch_vars(n, i - 1))) by {
                assert forall|v: nat| #[trigger]
                    self.involved_upto(n, i - 1).contains(v) implies !self.branch_vars(
                    n,
                    i - 1,
                ).contains(v) by {
                    self.lemma_involved_upto_witness(n, i - 1, v);
                    let k = choose|k: int|
                        0 <= k < i - 1 && (#[trigger] self.branch_vars(n, k)).contains(v);
                    assert(self.decomposable_at(n));
                    assert(self.branch_vars(n, k).disjoint(self.branch_vars(n, i - 1)));
                }
            }
            lemma_distinct_parts(s, t, self.involved_upto(n, i - 1), self.branch_vars(n, i - 1));
            assert forall|j: int| 0 <= j < whole.len() implies self.involved_upto(n, i).contains(
                (#[trigger] whole[j]).var(),
            ) && !contradicts(a, whole[j]) by {
                if j < s.len() {
                    assert(whole[j] == s[j]);
                } else {
                    assert(whole[j] == t[j - s.len()]);
                }
            }
        }
    }

    /// The same through the first edge, from the `i`-th on, of a
    /// disjunction node.
    pub proof fn lemma_found_first_neat(self, q: Query, n: int, i: int)
        requires
            self.plain(q),
            self.neat(),
            0 <= n < self.nodes.len(),
            self.nodes[n] is Or,
            0 <= i <= self.edge_list(n).len(),
            self.found_first(q.assumptions, n, i) is Some,
        ensures
            distinct_vars(self.found_first(q.assumptions, n, i)->0),
            forall|j: int|
                0 <= j < self.found_first(q.assumptions, n, i)->0.len() ==> self.involved(
                    n,
                ).contains((#[trigger] self.found_first(q.assumptions, n, i)->0[j]).var())
                    && !contradicts(q.assumptions, self.found_first(q.assumptions, n, i)->0[j]),
        decreases self.rank()[n], 0nat, self.edge_list(n).len() - i + 1,
    {
        if i < self.edge_list(n).len() {
            if self.found_via(q.assumptions, n, i) is Some {
                self.lemma_found_via_neat(q, n, i);
                self.lemma_child_below(n, i);
            } else {
                self.lemma_found_first_neat(q, n, i + 1);
            }
        }
    }

    /// The model that a finder finds is a model of the formula: where the
    /// walk succeeds under a mapping, the literals that it found, completed,
    /// give each variable a literal, hold the literals of the mapping and
    /// satisfy the root.
    pub proof fn law_found_is_a_model(self, q: Query)
        requires
            self.plain(q),
            self.neat(),
            !q.partial,
            self.found(q.assumptions, 0) is Some,
        ensures
            self.models(q).contains(
                as_model(
                    completed(self.found(q.assumptions, 0)->0, q.assumptions, self.n_vars),
                    self.n_vars,
                ),
            ),
    {
        let a = q.assumptions;
        let n_vars = self.n_vars;
        let lits = self.found(a, 0)->0;
        let list = completed(lits, a, n_vars);
        let base = Seq::new(n_vars, |v: int| None::<Literal>);
        let model = as_model(list, n_vars);
        self.lemma_found_neat(q, 0);
        self.lemma_involved_bounds(0);
        assert(vars_below(lits, n_vars)) by {
            assert forall|j: int| 0 <= j < lits.len() implies (#[trigger] lits[j]).var()
                < n_vars by {}
        }
        lemma_all_vars(lits, n_vars);
        lemma_filling(literal_vars(lits), a, n_vars);
        let rest = filling(literal_vars(lits), a, n_vars);
        if lits.len() < n_vars {
            assert(list == lits + rest);
            lemma_distinct_parts(
                lits,
                rest,
                literal_vars(lits),
                Set::new(|v: nat| !literal_vars(lits).contains(v)),
            );
        }
        assert(vars_below(list, n_vars)) by {
            assert forall|j: int| 0 <= j < list.len() implies (#[trigger] list[j]).var()
                < n_vars by {
                if j >= lits.len() {
                    assert(list[j] == rest[j - lits.len()]);
                } else {
                    assert(list[j] == lits[j]);
                }
            }
        }
        lemma_written_holds(base, list);
        // each variable has a literal in the list
        assert forall|v: nat| v < n_vars implies #[trigger] literal_vars(list).contains(v) by {
            if lits.len() < n_vars {
                if literal_vars(lits).contains(v) {
                    let j = choose|j: int| 0 <= j < lits.len() && (#[trigger] lits[j]).var() == v;
                    assert(list[j] == lits[j]);
                } else {
                    let j = choose|j: int| 0 <= j < rest.len() && (#[trigger] rest[j]).var() == v;
                    assert(list[lits.len() + j] == rest[j]);
                }
            }
        }
        assert forall|v: int| 0 <= v < n_vars implies #[trigger] set_at(model, v) by {
            assert(literal_vars(list).contains(v as nat));
            let j = choose|j: int| 0 <= j < list.len() && (#[trigger] list[j]).var() == v as nat;
            assert(model[list[j].var() as int] == Some(list[j]));
        }
        assert(total(model, n_vars));
        assert forall|v: int|
            0 <= v < a.len() && v < model.len() && (#[trigger] a[v]) is Some implies model[v]
            == Some(Literal::of(v as nat, a[v]->0)) by {
            assert(literal_vars(list).contains(v as nat));
            let j = choose|j: int| 0 <= j < list.len() && (#[trigger] list[j]).var() == v as nat;
            assert(model[list[j].var() as int] == Some(list[j]));
            list[j].lemma_of_self();
            if j < lits.len() {
                assert(list[j] == lits[j]);
                assert(!contradicts(a, lits[j]));
            } else {
                assert(list[j] == rest[j - lits.len()]);
            }
        }
        assert(holds_assumptions(q, model));
        lemma_holds_parts(model, lits, if lits.len() < n_vars {
            rest
        } else {
            Seq::empty()
        });
        self.lemma_found_satisfies(a, 0, model);
    }
}

} // verus!
