//! Sums of the values of a function over the first numbers.

use vstd::prelude::*;

verus! {

/// The sum of the values of `g` at the numbers below `n`.
pub open spec fn sum_to(n: nat, g: spec_fn(nat) -> nat) -> nat
    decreases n,
{
    if n == 0 {
        0
    } else {
        sum_to((n - 1) as nat, g) + g((n - 1) as nat)
    }
}

/// Two functions that agree below `n` have the same sum.
pub proof fn lemma_sum_same(n: nat, g: spec_fn(nat) -> nat, h: spec_fn(nat) -> nat)
    requires
        forall|r: nat| r < n ==> #[trigger] g(r) == h(r),
    ensures
        sum_to(n, g) == sum_to(n, h),
    decreases n,
{
    if n > 0 {
        lemma_sum_same((n - 1) as nat, g, h);
        assert(g((n - 1) as nat) == h((n - 1) as nat));
    }
}

/// The sum of the values of a function taken `c` times is `c` times the
/// sum of the values.
pub proof fn lemma_sum_scaled(n: nat, c: nat, g: spec_fn(nat) -> nat, h: spec_fn(nat) -> nat)
    requires
        forall|r: nat| r < n ==> #[trigger] h(r) == c * g(r),
    ensures
        sum_to(n, h) == c * sum_to(n, g),
    decreases n,
{
    if n > 0 {
        lemma_sum_scaled((n - 1) as nat, c, g, h);
        let last = (n - 1) as nat;
        assert(h(last) == c * g(last));
        assert(c * sum_to(last, g) + c * g(last) == c * (sum_to(last, g) + g(last)))
            by (nonlinear_arith);
    } else {
        assert(c * sum_to(n, g) == 0) by (nonlinear_arith)
            requires
                sum_to(n, g) == 0,
        ;
    }
}

/// A sum over the numbers below `a + b` is the sum over those below `a`
/// and the sum over the `b` numbers from `a` on.
pub proof fn lemma_sum_split(a: nat, b: nat, g: spec_fn(nat) -> nat, h: spec_fn(nat) -> nat)
    requires
        forall|r: nat| r < b ==> #[trigger] h(r) == g(a + r),
    ensures
        sum_to(a + b, g) == sum_to(a, g) + sum_to(b, h),
    decreases b,
{
    if b > 0 {
        lemma_sum_split(a, (b - 1) as nat, g, h);
        let last = (b - 1) as nat;
        assert(h(last) == g(a + last));
        assert((a + b - 1) as nat == a + last);
    }
}

/// The sum, over the numbers below `a * c`, of the product of a value for
/// the quotient by `c` and a value for the remainder is the product of the
/// two sums.
pub proof fn lemma_sum_product(
    a: nat,
    c: nat,
    f: spec_fn(nat) -> nat,
    g: spec_fn(nat) -> nat,
    h: spec_fn(nat) -> nat,
)
    requires
        c > 0,
        forall|r: nat| r < a * c ==> #[trigger] h(r) == f(r / c) * g(r % c),
    ensures
        sum_to(a * c, h) == sum_to(a, f) * sum_to(c, g),
    decreases a,
{
    if a == 0 {
        assert(a * c == 0);
        assert(sum_to(a, f) * sum_to(c, g) == 0) by (nonlinear_arith)
            requires
                sum_to(a, f) == 0,
        ;
    } else {
        let before = (a - 1) as nat;
        assert(a * c == before * c + c) by (nonlinear_arith)
            requires
                a == before + 1,
        ;
        assert forall|r: nat| r < before * c implies #[trigger] h(r) == f(r / c) * g(r % c) by {}
        lemma_sum_product(before, c, f, g, h);
        let row = |d: nat| h(before * c + d);
        let scaled = |d: nat| f(before) * g(d);
        assert forall|d: nat| d < c implies #[trigger] row(d) == scaled(d) by {
            let r = before * c + d;
            vstd::arithmetic::div_mod::lemma_fundamental_div_mod_converse(
                r as int,
                c as int,
                before as int,
                d as int,
            );
            assert(h(r) == f(r / c) * g(r % c));
        }
        lemma_sum_same(c, row, scaled);
        lemma_sum_scaled(c, f(before), g, scaled);
        lemma_sum_split(before * c, c, h, row);
        assert(sum_to(before, f) * sum_to(c, g) + f(before) * sum_to(c, g) == (sum_to(before, f)
            + f(before)) * sum_to(c, g)) by (nonlinear_arith);
    }
}

} // verus!
