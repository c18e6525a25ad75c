//! The models of a formula whose root is the true node, in their order.

use crate::algorithms::counting::lemma_unassumed_none;
use crate::algorithms::counting::no_assumption;
use crate::algorithms::counting::Query;
use crate::algorithms::direct_access::assumed_model;
use crate::algorithms::direct_access::vars_below;
use crate::algorithms::direct_access::write_free;
use crate::formula::decision_dnnf::Formula;
use crate::formula::involved_vars::complement;
use crate::formula::literal::Literal;
use crate::laws::counting::law_true_root;
use crate::laws::counting::lemma_all_listed;
use crate::laws::increment::canonical;
use crate::laws::increment::lemma_canonical_rest;
use crate::laws::increment::lemma_listing_canonical;
use crate::laws::increment::lemma_write_free_frame;
use vstd::arithmetic::power2::lemma_pow2_pos;
use vstd::arithmetic::power2::lemma_pow2_unfold;
use vstd::arithmetic::power2::pow2;
use vstd::prelude::*;

verus! {

/// Whether the bit of rank `e` of the number `k` is set.
pub open spec fn bit_set(k: nat, e: nat) -> bool {
    (k / pow2(e)) % 2 == 1
}

/// A canonical list of as many literals as there are variables holds the
/// variables in their order.
pub proof fn lemma_all_in_order(free_vars: Seq<Literal>, n: nat, j: int)
    requires
        canonical(free_vars, n),
        free_vars.len() == n,
        0 <= j < n,
    ensures
        free_vars[j].var() == j,
{
    lemma_at_least(free_vars, n, j);
    lemma_at_most(free_vars, n, j);
}

/// The variable at a place of a canonical list is no less than the place.
pub proof fn lemma_at_least(free_vars: Seq<Literal>, n: nat, j: int)
    requires
        canonical(free_vars, n),
        0 <= j < free_vars.len(),
    ensures
        free_vars[j].var() >= j,
    decreases j,
{
    if j > 0 {
        lemma_at_least(free_vars, n, j - 1);
        assert(free_vars[j - 1].var() < free_vars[j].var());
    }
}

/// The variable at a place of a canonical list is as far from the number
/// of variables as the place is from the end.
pub proof fn lemma_at_most(free_vars: Seq<Literal>, n: nat, j: int)
    requires
        canonical(free_vars, n),
        0 <= j < free_vars.len(),
    ensures
        free_vars[j].var() + (free_vars.len() - j) <= n,
    decreases free_vars.len() - j,
{
    if j + 1 < free_vars.len() {
        lemma_at_most(free_vars, n, j + 1);
        assert(free_vars[j].var() < free_vars[j + 1].var());
    } else {
        assert(free_vars[j].var() < n);
    }
}

/// Writing the polarities of a number gives the variable at the place `j`
/// of the list the positive literal exactly where the bit of the number is
/// set whose rank is the distance of the place from the end of the list.
pub proof fn lemma_write_free_bit(
    model: Seq<Option<Literal>>,
    k: nat,
    free_vars: Seq<Literal>,
    j: int,
)
    requires
        canonical(free_vars, model.len()),
        0 <= j < free_vars.len(),
    ensures
        write_free(model, k, free_vars, false)[free_vars[j].var() as int] == Some(
            Literal::of(free_vars[j].var(), bit_set(k, (free_vars.len() - 1 - j) as nat)),
        ),
    decreases free_vars.len(),
{
    let len = free_vars.len();
    let v = free_vars.last();
    let rest = free_vars.drop_last();
    lemma_canonical_rest(free_vars, model.len());
    v.lemma_of_self();
    Literal::lemma_of(v.var(), true);
    Literal::lemma_of(v.var(), false);
    assert(v == Literal::of(v.var(), false));
    assert(v.flipped() == Literal::of(v.var(), true));
    let x = if k % 2 == 1 {
        Some(v.flipped())
    } else {
        Some(v)
    };
    let written = model.update(v.var() as int, x);
    assert(vars_below(rest, model.len()));
    if j == len - 1 {
        lemma_write_free_frame(written, k / 2, rest, false, v.var() as int);
        assert(pow2(0) == 1) by {
            vstd::arithmetic::power2::lemma2_to64();
        }
        assert(k / 1 == k);
    } else {
        let e = (len - 2 - j) as nat;
        lemma_write_free_bit(written, k / 2, rest, j);
        assert(rest[j] == free_vars[j]);
        lemma_pow2_unfold(e + 1);
        lemma_pow2_pos(e);
        vstd::arithmetic::div_mod::lemma_div_denominator(k as int, 2, pow2(e) as int);
        assert(bit_set(k / 2, e) == bit_set(k, e + 1));
    }
}

/// The models of a formula whose root is the true node come in the order
/// of the numbers that their polarities spell: with no assumption, the
/// model of index `k` gives the variable `v` of `n` its positive literal
/// exactly where the bit of rank `n - 1 - v` of `k` is set. The first model
/// holds the negative literals, the last one the positive literals, and the
/// last variable changes fastest.
pub proof fn law_true_root_order(f: Formula, k: nat, v: int)
    requires
        f.wf(),
        f.nodes[0] is True,
        k < pow2(f.n_vars),
        0 <= v < f.n_vars,
    ensures
        f.model_at(Query { assumptions: no_assumption(f.n_vars), partial: false }, k as int)
            is Some,
        f.model_at(Query { assumptions: no_assumption(f.n_vars), partial: false }, k as int)->0[v]
            == Some(Literal::of(v as nat, bit_set(k, (f.n_vars - 1 - v) as nat))),
{
    let q = Query { assumptions: no_assumption(f.n_vars), partial: false };
    let free_vars = f.root_free_vars();
    let base = assumed_model(q.assumptions);
    law_true_root(f);
    assert(f.involved(0) == f.involved_upto(0, f.edge_list(0).len() as int));
    assert(f.involved_upto(0, 0) == Set::<nat>::empty());
    let all = complement(f.involved(0), f.n_vars);
    lemma_all_listed(all, f.n_vars, false);
    lemma_listing_canonical(all, f.n_vars);
    lemma_unassumed_none(free_vars, f.n_vars);
    assert(f.open_root_vars(q) == free_vars);
    lemma_all_in_order(free_vars, f.n_vars, v);
    lemma_write_free_bit(base, k, free_vars, v);
}

} // verus!
