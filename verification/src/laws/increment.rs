//! The polarities of a list of free variables as a binary number: writing
//! them from an index, and stepping them to the next combination.

use crate::algorithms::direct_access::vars_below;
use crate::algorithms::direct_access::write_free;
use crate::algorithms::model_enumerator::advance_free;
use crate::formula::free_variables::unassumed;
use crate::formula::involved_vars::literals_of;
use crate::formula::literal::Literal;
use vstd::arithmetic::power2::lemma_pow2_pos;
use vstd::arithmetic::power2::lemma_pow2_unfold;
use vstd::arithmetic::power2::pow2;
use vstd::prelude::*;

verus! {

/// Whether the literals of a list are negative, of variables below
/// `n_vars`, in increasing order of variable.
pub open spec fn canonical(free_vars: Seq<Literal>, n_vars: nat) -> bool {
    &&& forall|i: int|
        0 <= i < free_vars.len() ==> !(#[trigger] free_vars[i]).is_positive() && free_vars[i].var()
            < n_vars
    &&& forall|i: int, j: int|
        0 <= i < j < free_vars.len() ==> (#[trigger] free_vars[i]).var() < (
        #[trigger] free_vars[j]).var()
}

/// The first literals of a canonical list are a canonical list.
pub proof fn lemma_canonical_rest(free_vars: Seq<Literal>, n_vars: nat)
    requires
        canonical(free_vars, n_vars),
        free_vars.len() > 0,
    ensures
        canonical(free_vars.drop_last(), n_vars),
        forall|i: int|
            0 <= i < free_vars.len() - 1 ==> (#[trigger] free_vars.drop_last()[i]).var()
                != free_vars.last().var(),
{
    let rest = free_vars.drop_last();
    assert forall|i: int| 0 <= i < rest.len() implies !(#[trigger] rest[i]).is_positive()
        && rest[i].var() < n_vars by {
        assert(rest[i] == free_vars[i]);
    }
    assert forall|i: int, j: int| 0 <= i < j < rest.len() implies (#[trigger] rest[i]).var() < (
    #[trigger] rest[j]).var() by {
        assert(rest[i] == free_vars[i] && rest[j] == free_vars[j]);
    }
    assert forall|i: int| 0 <= i < free_vars.len() - 1 implies (#[trigger] rest[i]).var()
        != free_vars.last().var() by {
        assert(rest[i] == free_vars[i]);
        assert(free_vars[i].var() < free_vars[free_vars.len() - 1].var());
    }
}

/// The listing of the variables of a set is canonical.
pub proof fn lemma_listing_canonical(s: Set<nat>, n_vars: nat)
    requires
        2 * n_vars <= usize::MAX + 1,
    ensures
        canonical(literals_of(s, 0, n_vars, false), n_vars),
{
    crate::formula::involved_vars::lemma_literals_of_members(s, 0, n_vars, false);
}

/// What is left of a canonical list after some literals were taken out is
/// canonical, and holds only literals of the list.
pub proof fn lemma_unassumed_canonical(
    literals: Seq<Literal>,
    mapping: Seq<Option<bool>>,
    n_vars: nat,
)
    requires
        canonical(literals, n_vars),
    ensures
        canonical(unassumed(literals, mapping), n_vars),
        forall|i: int|
            0 <= i < unassumed(literals, mapping).len() ==> literals.contains(
                #[trigger] unassumed(literals, mapping)[i],
            ),
        forall|i: int|
            0 <= i < unassumed(literals, mapping).len() ==> !((#[trigger] unassumed(
                literals,
                mapping,
            )[i]).var() < mapping.len() && mapping[unassumed(literals, mapping)[i].var() as int]
                is Some),
    decreases literals.len(),
{
    if literals.len() > 0 {
        let rest = literals.drop_last();
        lemma_canonical_rest(literals, n_vars);
        lemma_unassumed_canonical(rest, mapping, n_vars);
        let kept = unassumed(rest, mapping);
        let all = unassumed(literals, mapping);
        assert forall|i: int| 0 <= i < kept.len() implies literals.contains(#[trigger] kept[i])
            && kept[i].var() < literals.last().var() by {
            assert(rest.contains(kept[i]));
            let k = choose|k: int| 0 <= k < rest.len() && rest[k] == kept[i];
            assert(literals[k] == kept[i]);
            assert(literals[k].var() < literals[literals.len() - 1].var());
        }
        assert forall|i: int| 0 <= i < all.len() implies literals.contains(#[trigger] all[i]) by {
            if i < kept.len() {
                assert(all[i] == kept[i]);
            } else {
                assert(all[i] == literals[literals.len() - 1]);
            }
        }
        assert forall|i: int, j: int| 0 <= i < j < all.len() implies (#[trigger] all[i]).var() < (
        #[trigger] all[j]).var() by {
            if j < kept.len() {
                assert(all[i] == kept[i] && all[j] == kept[j]);
            } else {
                assert(all[i] == kept[i]);
            }
        }
        assert forall|i: int| 0 <= i < all.len() implies !(#[trigger] all[i]).is_positive()
            && all[i].var() < n_vars by {
            assert(literals.contains(all[i]));
            let k = choose|k: int| 0 <= k < literals.len() && literals[k] == all[i];
            assert(!literals[k].is_positive());
        }
        assert forall|i: int| 0 <= i < all.len() implies !((#[trigger] all[i]).var()
            < mapping.len() && mapping[all[i].var() as int] is Some) by {
            if i < kept.len() {
                assert(all[i] == kept[i]);
            }
        }
    }
}

/// Writing free variables leaves the literals of the other variables as
/// they are.
pub proof fn lemma_write_free_frame(
    model: Seq<Option<Literal>>,
    k: nat,
    free_vars: Seq<Literal>,
    erase: bool,
    var: int,
)
    requires
        vars_below(free_vars, model.len()),
        0 <= var < model.len(),
        forall|i: int| 0 <= i < free_vars.len() ==> (#[trigger] free_vars[i]).var() != var,
    ensures
        write_free(model, k, free_vars, erase).len() == model.len(),
        write_free(model, k, free_vars, erase)[var] == model[var],
    decreases free_vars.len(),
{
    if free_vars.len() > 0 {
        let v = free_vars.last();
        let written = model.update(
            v.var() as int,
            if erase {
                None
            } else if k % 2 == 1 {
                Some(v.flipped())
            } else {
                Some(v)
            },
        );
        let rest = free_vars.drop_last();
        assert forall|i: int| 0 <= i < rest.len() implies (#[trigger] rest[i]).var() != var
            && rest[i].var() < written.len() by {
            assert(rest[i] == free_vars[i]);
        }
        assert(free_vars[free_vars.len() - 1].var() != var);
        lemma_write_free_frame(written, k / 2, rest, erase, var);
    }
}

/// Writing free variables and writing the literal of another variable can
/// be done in either order.
pub proof fn lemma_write_free_commutes(
    model: Seq<Option<Literal>>,
    k: nat,
    free_vars: Seq<Literal>,
    erase: bool,
    var: int,
    value: Option<Literal>,
)
    requires
        vars_below(free_vars, model.len()),
        0 <= var < model.len(),
        forall|i: int| 0 <= i < free_vars.len() ==> (#[trigger] free_vars[i]).var() != var,
    ensures
        write_free(model.update(var, value), k, free_vars, erase) == write_free(
            model,
            k,
            free_vars,
            erase,
        ).update(var, value),
    decreases free_vars.len(),
{
    if free_vars.len() > 0 {
        let v = free_vars.last();
        let x = if erase {
            None
        } else if k % 2 == 1 {
            Some(v.flipped())
        } else {
            Some(v)
        };
        let rest = free_vars.drop_last();
        assert forall|i: int| 0 <= i < rest.len() implies (#[trigger] rest[i]).var() != var
            && rest[i].var() < model.len() by {
            assert(rest[i] == free_vars[i]);
        }
        assert(model.update(var, value).update(v.var() as int, x) =~= model.update(
            v.var() as int,
            x,
        ).update(var, value));
        lemma_write_free_commutes(model.update(v.var() as int, x), k / 2, rest, erase, var, value);
    }
}

/// Stepping the polarities of free variables leaves the literals of the
/// other variables as they are.
pub proof fn lemma_advance_free_frame(model: Seq<Option<Literal>>, free_vars: Seq<Literal>, var: int)
    requires
        vars_below(free_vars, model.len()),
        0 <= var < model.len(),
        forall|i: int| 0 <= i < free_vars.len() ==> (#[trigger] free_vars[i]).var() != var,
    ensures
        advance_free(model, free_vars).0.len() == model.len(),
        advance_free(model, free_vars).0[var] == model[var],
    decreases free_vars.len(),
{
    if free_vars.len() > 0 {
        let v = free_vars.last();
        let rest = free_vars.drop_last();
        assert forall|i: int| 0 <= i < rest.len() implies (#[trigger] rest[i]).var() != var
            && rest[i].var() < model.len() by {
            assert(rest[i] == free_vars[i]);
        }
        assert(free_vars[free_vars.len() - 1].var() != var);
        lemma_advance_free_frame(
            model.update(v.var() as int, Some(Literal::of(v.var(), false))),
            rest,
            var,
        );
    }
}

/// Whether the `len` lowest bits of `k` are set.
pub open spec fn all_ones(k: nat, len: nat) -> bool
    decreases len,
{
    len == 0 || (k % 2 == 1 && all_ones(k / 2, (len - 1) as nat))
}

/// Adding one to a number carries over its `len` lowest bits exactly where
/// they are all set.
pub proof fn lemma_all_ones_carry(k: nat, len: nat)
    ensures
        all_ones(k, len) ==> (k + 1) / pow2(len) == k / pow2(len) + 1,
        !all_ones(k, len) ==> (k + 1) / pow2(len) == k / pow2(len),
    decreases len,
{
    if len == 0 {
        assert(pow2(0) == 1) by {
            vstd::arithmetic::power2::lemma2_to64();
        }
    } else {
        let rest = (len - 1) as nat;
        lemma_pow2_unfold(len);
        lemma_pow2_pos(rest);
        vstd::arithmetic::div_mod::lemma_div_denominator(k as int, 2, pow2(rest) as int);
        vstd::arithmetic::div_mod::lemma_div_denominator((k + 1) as int, 2, pow2(rest) as int);
        assert(2 * pow2(rest) == pow2(len));
        if k % 2 == 1 {
            assert((k + 1) / 2 == k / 2 + 1);
            lemma_all_ones_carry(k / 2, rest);
        } else {
            assert((k + 1) / 2 == k / 2);
        }
    }
}

/// A model in which the free variables of a canonical list have the
/// polarities of the index `k` has, once these polarities are stepped, those
/// of the index `k + 1`; there is no next combination where the polarities
/// were all positive.
pub proof fn lemma_advance_is_increment(model: Seq<Option<Literal>>, free_vars: Seq<Literal>, k: nat)
    requires
        canonical(free_vars, model.len()),
        write_free(model, k, free_vars, false) == model,
    ensures
        advance_free(model, free_vars) == (
            write_free(model, k + 1, free_vars, false),
            !all_ones(k, free_vars.len()),
        ),
    decreases free_vars.len(),
{
    let len = free_vars.len();
    if len > 0 {
        let v = free_vars.last();
        let rest = free_vars.drop_last();
        let var = v.var() as int;
        lemma_canonical_rest(free_vars, model.len());
        v.lemma_of_self();
        Literal::lemma_of(v.var(), true);
        Literal::lemma_of(v.var(), false);
        assert(v == Literal::of(v.var(), false));
        assert(v.flipped() == Literal::of(v.var(), true));
        assert(Literal::of(v.var(), true) != Literal::of(v.var(), false));
        let x = if k % 2 == 1 {
            Some(v.flipped())
        } else {
            Some(v)
        };
        assert(vars_below(rest, model.len()));
        lemma_write_free_frame(model.update(var, x), k / 2, rest, false, var);
        assert(model[var] == x);
        assert(model.update(var, x) =~= model);
        assert(write_free(model, k / 2, rest, false) == model);
        if k % 2 == 1 {
            let lowered = model.update(var, Some(v));
            lemma_write_free_commutes(model, k / 2, rest, false, var, Some(v));
            assert(write_free(lowered, k / 2, rest, false) == lowered);
            lemma_advance_is_increment(lowered, rest, k / 2);
            assert((k + 1) % 2 == 0);
            assert((k + 1) / 2 == k / 2 + 1);
            lemma_write_free_commutes(model, k / 2 + 1, rest, false, var, Some(v));
            assert(write_free(model, k + 1, free_vars, false) == write_free(
                model.update(var, Some(v)),
                (k + 1) / 2,
                rest,
                false,
            ));
        } else {
            assert((k + 1) % 2 == 1);
            assert((k + 1) / 2 == k / 2);
            lemma_write_free_commutes(model, k / 2, rest, false, var, Some(v.flipped()));
            assert(write_free(model, k + 1, free_vars, false) == write_free(
                model.update(var, Some(v.flipped())),
                (k + 1) / 2,
                rest,
                false,
            ));
        }
    }
}

} // verus!
