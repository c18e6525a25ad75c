//! Facts on the lists of free variables, on the writes in a model, and on
//! the arithmetic of indices.

use crate::algorithms::counting::Query;
use crate::algorithms::direct_access::vars_below;
use crate::algorithms::direct_access::write_all;
use crate::algorithms::direct_access::write_free;
use crate::algorithms::model_enumerator::advance_free;
use crate::formula::assumptions::any_contradicts;
use crate::formula::assumptions::contradicts;
use crate::formula::decision_dnnf::Formula;
use crate::formula::free_variables::unassumed;
use crate::formula::involved_vars::complement;
use crate::formula::involved_vars::literal_vars;
use crate::formula::involved_vars::literals_of;
use crate::formula::literal::Literal;
use crate::laws::increment::canonical;
use crate::laws::increment::lemma_advance_free_frame;
use crate::laws::increment::lemma_listing_canonical;
use crate::laws::increment::lemma_unassumed_canonical;
use crate::laws::increment::lemma_write_free_frame;
use crate::laws::regions::holds_assumptions;
use crate::laws::regions::lemma_write_all_places;
use crate::laws::regions::lemma_write_free_places;
use vstd::prelude::*;

verus! {

/// Adding one to an index changes its last digit in base `c`, or carries
/// over where the digit is the last one.
pub proof fn lemma_digit_step(r: nat, c: nat)
    requires
        c > 0,
    ensures
        (r % c) + 1 < c ==> (r + 1) % c == (r % c) + 1 && (r + 1) / c == r / c,
        (r % c) + 1 == c ==> (r + 1) % c == 0 && (r + 1) / c == r / c + 1,
        r % c < c,
{
    let q = (r / c) as int;
    let d = (r % c) as int;
    vstd::arithmetic::div_mod::lemma_fundamental_div_mod(r as int, c as int);
    vstd::arithmetic::div_mod::lemma_mod_bound(r as int, c as int);
    assert(r == q * c + d) by (nonlinear_arith)
        requires
            r == c * q + d,
    ;
    if d + 1 < c {
        vstd::arithmetic::div_mod::lemma_fundamental_div_mod_converse(
            (r + 1) as int,
            c as int,
            q,
            d + 1,
        );
    } else {
        assert(r + 1 == (q + 1) * c + 0) by (nonlinear_arith)
            requires
                r == q * c + d,
                d + 1 == c,
        ;
        vstd::arithmetic::div_mod::lemma_fundamental_div_mod_converse(
            (r + 1) as int,
            c as int,
            q + 1,
            0,
        );
    }
}

/// An index below a product has a last digit below the last factor and a
/// rest below the product of the other factors; and the other way round.
pub proof fn lemma_digits_bound(r: nat, rest: nat, c: nat)
    requires
        c > 0,
    ensures
        r < rest * c <==> r / c < rest,
        r % c < c,
{
    vstd::arithmetic::div_mod::lemma_fundamental_div_mod(r as int, c as int);
    vstd::arithmetic::div_mod::lemma_mod_bound(r as int, c as int);
    let q = (r / c) as int;
    let d = (r % c) as int;
    vstd::arithmetic::div_mod::lemma_div_pos_is_pos(r as int, c as int);
    if q < rest {
        assert(r < rest * c) by (nonlinear_arith)
            requires
                r == c * q + d,
                0 <= d < c,
                q + 1 <= rest,
                0 <= q,
        ;
    } else {
        assert(r >= rest * c) by (nonlinear_arith)
            requires
                r == c * q + d,
                0 <= d,
                q >= rest,
                c > 0,
        ;
    }
}

/// The listing of a set holds a literal of each of its variables.
pub proof fn lemma_listing_covers(s: Set<nat>, n: nat, v: nat)
    requires
        s.contains(v),
        v < n,
        2 * n <= usize::MAX + 1,
    ensures
        literal_vars(literals_of(s, 0, n, false)).contains(v),
        literals_of(s, 0, n, false).contains(Literal::of(v, false)),
    decreases n,
{
    let all = literals_of(s, 0, n, false);
    if v == n - 1 {
        assert(all.last() == Literal::of(v, false));
        assert(all[all.len() - 1] == Literal::of(v, false));
        Literal::lemma_of_unchecked(v);
        assert(all[all.len() - 1].var() == v);
    } else {
        lemma_listing_covers(s, (n - 1) as nat, v);
        let rest = literals_of(s, 0, (n - 1) as nat, false);
        let k = choose|k: int| 0 <= k < rest.len() && (#[trigger] rest[k]).var() == v;
        assert(all[k] == rest[k]);
        let j = choose|j: int| 0 <= j < rest.len() && rest[j] == Literal::of(v, false);
        assert(all[j] == rest[j]);
    }
}

/// A literal of a list whose variable is not assumed stays in what is left
/// of the list.
pub proof fn lemma_unassumed_keeps(literals: Seq<Literal>, mapping: Seq<Option<bool>>, l: Literal)
    requires
        literals.contains(l),
        !(l.var() < mapping.len() && mapping[l.var() as int] is Some),
    ensures
        unassumed(literals, mapping).contains(l),
    decreases literals.len(),
{
    let rest = literals.drop_last();
    let all = unassumed(literals, mapping);
    let kept = unassumed(rest, mapping);
    if literals.last() == l {
        assert(all == kept.push(l));
        assert(all[all.len() - 1] == l);
    } else {
        let k = choose|k: int| 0 <= k < literals.len() && literals[k] == l;
        assert(rest[k] == l);
        lemma_unassumed_keeps(rest, mapping, l);
        let j = choose|j: int| 0 <= j < kept.len() && kept[j] == l;
        assert(all[j] == l);
    }
}

impl Formula {
    /// The free variables that a query leaves open in a branch are a
    /// canonical list of variables that are involved at the node, that the
    /// branch does not speak of, and that no assumption fixes.
    pub proof fn lemma_open_vars(self, q: Query, n: int, i: int)
        requires
            self.wf(),
            0 <= n < self.nodes.len(),
            0 <= i < self.edge_list(n).len(),
        ensures
            canonical(self.open_vars(q, n, i), self.n_vars),
            forall|j: int|
                0 <= j < self.open_vars(q, n, i).len() ==> {
                    let v = (#[trigger] self.open_vars(q, n, i)[j]).var();
                    &&& self.involved(n).contains(v)
                    &&& !self.branch_vars(n, i).contains(v)
                    &&& !(v < q.assumptions.len() && q.assumptions[v as int] is Some)
                },
    {
        let s = self.or_free_set(n, i);
        lemma_listing_canonical(s, self.n_vars);
        crate::formula::involved_vars::lemma_literals_of_members(s, 0, self.n_vars, false);
        lemma_unassumed_canonical(self.or_free_vars(n, i), q.assumptions, self.n_vars);
        self.lemma_involved_bounds(n);
        let open = self.open_vars(q, n, i);
        assert forall|j: int| 0 <= j < open.len() implies {
            let v = (#[trigger] open[j]).var();
            &&& self.involved(n).contains(v)
            &&& !self.branch_vars(n, i).contains(v)
            &&& !(v < q.assumptions.len() && q.assumptions[v as int] is Some)
        } by {
            assert(self.or_free_vars(n, i).contains(open[j]));
            let k = choose|k: int|
                0 <= k < self.or_free_vars(n, i).len() && self.or_free_vars(n, i)[k] == open[j];
            assert(s.contains(self.or_free_vars(n, i)[k].var()));
        }
    }

    /// A variable that is involved at a node, that a branch does not speak
    /// of and that no assumption fixes is among the free variables that the
    /// query leaves open in the branch.
    pub proof fn lemma_open_vars_cover(self, q: Query, n: int, i: int, v: nat)
        requires
            self.wf(),
            0 <= n < self.nodes.len(),
            0 <= i < self.edge_list(n).len(),
            self.involved(n).contains(v),
            !self.branch_vars(n, i).contains(v),
            !(v < q.assumptions.len() && q.assumptions[v as int] is Some),
        ensures
            literal_vars(self.open_vars(q, n, i)).contains(v),
    {
        let s = self.or_free_set(n, i);
        self.lemma_involved_bounds(n);
        assert(s.contains(v));
        lemma_listing_covers(s, self.n_vars, v);
        Literal::lemma_of_unchecked(v);
        lemma_unassumed_keeps(self.or_free_vars(n, i), q.assumptions, Literal::of(v, false));
        let open = self.open_vars(q, n, i);
        let j = choose|j: int| 0 <= j < open.len() && open[j] == Literal::of(v, false);
        assert(open[j].var() == v);
    }

    /// The free variables of the root that a query leaves open are a
    /// canonical list of variables that are not involved at the root and
    /// that no assumption fixes.
    pub proof fn lemma_open_root_vars(self, q: Query)
        requires
            self.wf(),
        ensures
            canonical(self.open_root_vars(q), self.n_vars),
            forall|j: int|
                0 <= j < self.open_root_vars(q).len() ==> {
                    let v = (#[trigger] self.open_root_vars(q)[j]).var();
                    &&& !self.involved(0).contains(v)
                    &&& !(v < q.assumptions.len() && q.assumptions[v as int] is Some)
                },
    {
        let s = complement(self.involved(0), self.n_vars);
        lemma_listing_canonical(s, self.n_vars);
        crate::formula::involved_vars::lemma_literals_of_members(s, 0, self.n_vars, false);
        lemma_unassumed_canonical(self.root_free_vars(), q.assumptions, self.n_vars);
        let open = self.open_root_vars(q);
        assert forall|j: int| 0 <= j < open.len() implies {
            let v = (#[trigger] open[j]).var();
            &&& !self.involved(0).contains(v)
            &&& !(v < q.assumptions.len() && q.assumptions[v as int] is Some)
        } by {
            assert(self.root_free_vars().contains(open[j]));
            let k = choose|k: int|
                0 <= k < self.root_free_vars().len() && self.root_free_vars()[k] == open[j];
            assert(s.contains(self.root_free_vars()[k].var()));
        }
    }

    /// A variable that is not involved at the root and that no assumption
    /// fixes is among the free variables of the root that the query leaves
    /// open.
    pub proof fn lemma_open_root_vars_cover(self, q: Query, v: nat)
        requires
            self.wf(),
            v < self.n_vars,
            !self.involved(0).contains(v),
            !(v < q.assumptions.len() && q.assumptions[v as int] is Some),
        ensures
            literal_vars(self.open_root_vars(q)).contains(v),
    {
        let s = complement(self.involved(0), self.n_vars);
        assert(s.contains(v));
        lemma_listing_covers(s, self.n_vars, v);
        Literal::lemma_of_unchecked(v);
        lemma_unassumed_keeps(self.root_free_vars(), q.assumptions, Literal::of(v, false));
        let open = self.open_root_vars(q);
        let j = choose|j: int| 0 <= j < open.len() && open[j] == Literal::of(v, false);
        assert(open[j].var() == v);
    }
}

/// Writing the free variables of a canonical list twice is writing them
/// once.
pub proof fn lemma_write_free_twice(
    model: Seq<Option<Literal>>,
    k: nat,
    free_vars: Seq<Literal>,
    erase: bool,
)
    requires
        canonical(free_vars, model.len()),
    ensures
        write_free(write_free(model, k, free_vars, erase), k, free_vars, erase) == write_free(
            model,
            k,
            free_vars,
            erase,
        ),
        write_free(model, k, free_vars, erase).len() == model.len(),
{
    let once = write_free(model, k, free_vars, erase);
    crate::algorithms::direct_access::lemma_write_free_len(model, k, free_vars, erase);
    crate::algorithms::direct_access::lemma_write_free_len(once, k, free_vars, erase);
    assert forall|v: int| 0 <= v < once.len() implies write_free(once, k, free_vars, erase)[v]
        == once[v] by {
        if literal_vars(free_vars).contains(v as nat) {
            lemma_write_free_places(once, model, k, free_vars, erase, v);
        } else {
            assert forall|i: int| 0 <= i < free_vars.len() implies (#[trigger] free_vars[i]).var()
                != v by {}
            lemma_write_free_frame(once, k, free_vars, erase, v);
        }
    }
    assert(write_free(once, k, free_vars, erase) =~= once);
}

/// Writing literals twice is writing them once.
pub proof fn lemma_write_all_twice(model: Seq<Option<Literal>>, literals: Seq<Literal>)
    requires
        vars_below(literals, model.len()),
    ensures
        write_all(write_all(model, literals), literals) == write_all(model, literals),
        write_all(model, literals).len() == model.len(),
{
    let once = write_all(model, literals);
    crate::algorithms::direct_access::lemma_write_all_len(model, literals);
    crate::algorithms::direct_access::lemma_write_all_len(once, literals);
    assert forall|v: int| 0 <= v < once.len() implies write_all(once, literals)[v] == once[v] by {
        lemma_write_all_places(once, literals, v);
        lemma_write_all_places(model, literals, v);
    }
    assert(write_all(once, literals) =~= once);
}

/// Writing literals of which none contradicts an assumption keeps the
/// literals of the assumptions in a model.
pub proof fn lemma_write_all_keeps(q: Query, model: Seq<Option<Literal>>, literals: Seq<Literal>)
    requires
        vars_below(literals, model.len()),
        q.assumptions.len() == model.len(),
        !any_contradicts(q.assumptions, literals),
        holds_assumptions(q, model),
    ensures
        holds_assumptions(q, write_all(model, literals)),
        write_all(model, literals).len() == model.len(),
    decreases literals.len(),
{
    if literals.len() > 0 {
        let rest = literals.drop_last();
        let l = literals.last();
        assert(vars_below(rest, model.len())) by {
            assert forall|i: int| 0 <= i < rest.len() implies (#[trigger] rest[i]).var()
                < model.len() by {
                assert(rest[i] == literals[i]);
            }
        }
        assert(!any_contradicts(q.assumptions, rest)) by {
            if any_contradicts(q.assumptions, rest) {
                let i = choose|i: int|
                    0 <= i < rest.len() && contradicts(q.assumptions, #[trigger] rest[i]);
                assert(contradicts(q.assumptions, literals[i]));
            }
        }
        lemma_write_all_keeps(q, model, rest);
        assert(!contradicts(q.assumptions, literals[literals.len() - 1]));
        l.lemma_of_self();
    }
}

/// Writing free variables that no assumption fixes keeps the literals of
/// the assumptions in a model.
pub proof fn lemma_write_free_keeps(
    q: Query,
    model: Seq<Option<Literal>>,
    k: nat,
    free_vars: Seq<Literal>,
    erase: bool,
)
    requires
        vars_below(free_vars, model.len()),
        forall|j: int|
            0 <= j < free_vars.len() ==> !((#[trigger] free_vars[j]).var() < q.assumptions.len()
                && q.assumptions[free_vars[j].var() as int] is Some),
        holds_assumptions(q, model),
    ensures
        holds_assumptions(q, write_free(model, k, free_vars, erase)),
        write_free(model, k, free_vars, erase).len() == model.len(),
{
    crate::algorithms::direct_access::lemma_write_free_len(model, k, free_vars, erase);
    assert forall|v: int|
        0 <= v < q.assumptions.len() && v < model.len() && (#[trigger] q.assumptions[v])
            is Some implies write_free(model, k, free_vars, erase)[v] == Some(
        Literal::of(v as nat, q.assumptions[v]->0),
    ) by {
        assert forall|i: int| 0 <= i < free_vars.len() implies (#[trigger] free_vars[i]).var()
            != v by {}
        lemma_write_free_frame(model, k, free_vars, erase, v);
    }
}

/// Stepping the polarities of free variables that no assumption fixes keeps
/// the literals of the assumptions in a model.
pub proof fn lemma_advance_free_keeps(q: Query, model: Seq<Option<Literal>>, free_vars: Seq<Literal>)
    requires
        vars_below(free_vars, model.len()),
        forall|j: int|
            0 <= j < free_vars.len() ==> !((#[trigger] free_vars[j]).var() < q.assumptions.len()
                && q.assumptions[free_vars[j].var() as int] is Some),
        holds_assumptions(q, model),
    ensures
        holds_assumptions(q, advance_free(model, free_vars).0),
        advance_free(model, free_vars).0.len() == model.len(),
{
    crate::algorithms::model_enumerator::lemma_advance_free_len(model, free_vars);
    assert forall|v: int|
        0 <= v < q.assumptions.len() && v < model.len() && (#[trigger] q.assumptions[v])
            is Some implies advance_free(model, free_vars).0[v] == Some(
        Literal::of(v as nat, q.assumptions[v]->0),
    ) by {
        assert forall|i: int| 0 <= i < free_vars.len() implies (#[trigger] free_vars[i]).var()
            != v by {}
        lemma_advance_free_frame(model, free_vars, v);
    }
}

} // verus!
