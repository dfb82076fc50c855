//! The constant-product pricing rule and the share formulas, as mathematics
//! and as checked 256-bit computations.

use crate::wide::{casted_mul, is_floor_sqrt, lemma_product_fits, narrow_limit, Wide};
use vstd::arithmetic::div_mod::{lemma_fundamental_div_mod, lemma_mod_bound};
use vstd::prelude::*;

verus! {

/// What the output side keeps when `amount_in` is added to the input side:
/// the old product of the reserves divided by the new input reserve, rounded
/// down.
pub open spec fn reserve_kept(reserve_in: nat, reserve_out: nat, amount_in: nat) -> nat
    recommends
        reserve_in + amount_in > 0,
{
    (reserve_in * reserve_out) / (reserve_in + amount_in)
}

/// What a swap of `amount_in` pays out: the output reserve less what it
/// keeps, clamped at zero.
pub open spec fn amount_out(reserve_in: nat, reserve_out: nat, amount_in: nat) -> nat
    recommends
        reserve_in + amount_in > 0,
{
    let kept = reserve_kept(reserve_in, reserve_out, amount_in);
    if kept <= reserve_out {
        (reserve_out - kept) as nat
    } else {
        0
    }
}

/// The shares that a deposit into one side of a pool is worth: the deposit's
/// part of the reserve, taken of the shares issued so far, rounded down.
pub open spec fn shares_for(deposit: nat, total_shares: nat, reserve: nat) -> nat
    recommends
        reserve > 0,
{
    (deposit * total_shares) / reserve
}

/// The quotient `x / d` is the one number `q` with `d * q <= x < d * (q + 1)`.
pub proof fn lemma_quotient_bounds(x: nat, d: nat)
    requires
        d > 0,
    ensures
        d * (x / d) <= x < d * (x / d + 1),
        x == d * (x / d) + x % d,
        x % d < d,
{
    lemma_fundamental_div_mod(x as int, d as int);
    lemma_mod_bound(x as int, d as int);
    let q = x / d;
    assert(d * (q + 1) == d * q + d) by (nonlinear_arith);
}

/// A swap never keeps more than the output reserve held, so the clamp in
/// [`amount_out`] is never the deciding branch.
pub proof fn lemma_kept_at_most_reserve(reserve_in: nat, reserve_out: nat, amount_in: nat)
    requires
        reserve_in + amount_in > 0,
    ensures
        reserve_kept(reserve_in, reserve_out, amount_in) <= reserve_out,
        amount_out(reserve_in, reserve_out, amount_in) + reserve_kept(
            reserve_in,
            reserve_out,
            amount_in,
        ) == reserve_out,
{
    let d = reserve_in + amount_in;
    let x = reserve_in * reserve_out;
    let q = x / d;
    lemma_quotient_bounds(x, d);
    assert(q <= reserve_out) by (nonlinear_arith)
        requires
            d * q <= x,
            x == reserve_in * reserve_out,
            d == reserve_in + amount_in,
            d > 0,
    ;
}

/// A swap pays out less than the whole output reserve exactly when the old
/// product of the reserves is at least the new input reserve. A pool so
/// small that the product is below it is drained on the output side.
pub proof fn lemma_output_below_reserve(reserve_in: nat, reserve_out: nat, amount_in: nat)
    requires
        reserve_in + amount_in > 0,
    ensures
        amount_out(reserve_in, reserve_out, amount_in) < reserve_out <==> reserve_in * reserve_out
            >= reserve_in + amount_in,
{
    let d = reserve_in + amount_in;
    let x = reserve_in * reserve_out;
    let q = x / d;
    lemma_quotient_bounds(x, d);
    lemma_kept_at_most_reserve(reserve_in, reserve_out, amount_in);
    assert(q >= 1 <==> x >= d) by (nonlinear_arith)
        requires
            d * q <= x < d * (q + 1),
            d > 0,
    ;
}

/// A swap of nothing pays out nothing and keeps the whole output reserve,
/// wherever the input side holds anything at all.
pub proof fn lemma_nothing_in_nothing_out(reserve_in: nat, reserve_out: nat)
    requires
        reserve_in > 0,
    ensures
        amount_out(reserve_in, reserve_out, 0) == 0,
        reserve_kept(reserve_in, reserve_out, 0) == reserve_out,
{
    let x = reserve_in * reserve_out;
    let q = x / reserve_in;
    lemma_quotient_bounds(x, reserve_in);
    assert(q == reserve_out) by (nonlinear_arith)
        requires
            reserve_in * q <= x < reserve_in * (q + 1),
            x == reserve_in * reserve_out,
            reserve_in > 0,
    ;
}

/// The product of the two reserves after a swap, against the product before:
/// rounding down what the output side keeps can only lower it, and by less
/// than the new input reserve.
pub proof fn lemma_product_after_swap(reserve_in: nat, reserve_out: nat, amount_in: nat)
    requires
        reserve_in + amount_in > 0,
    ensures
        (reserve_in + amount_in) * (reserve_out - amount_out(reserve_in, reserve_out, amount_in))
            <= reserve_in * reserve_out,
        reserve_in * reserve_out < (reserve_in + amount_in) * (reserve_out - amount_out(
            reserve_in,
            reserve_out,
            amount_in,
        )) + (reserve_in + amount_in),
{
    let d = reserve_in + amount_in;
    let x = reserve_in * reserve_out;
    let q = x / d;
    lemma_quotient_bounds(x, d);
    lemma_kept_at_most_reserve(reserve_in, reserve_out, amount_in);
    assert(reserve_out - amount_out(reserve_in, reserve_out, amount_in) == q);
    assert(d * (q + 1) == d * q + d) by (nonlinear_arith);
}

/// Where the new input reserve divides the old product of the reserves, a
/// swap keeps the product: it is not less after the swap than before.
pub proof fn lemma_product_kept_when_exact(reserve_in: nat, reserve_out: nat, amount_in: nat)
    requires
        reserve_in + amount_in > 0,
        (reserve_in * reserve_out) % (reserve_in + amount_in) == 0,
    ensures
        (reserve_in + amount_in) * (reserve_out - amount_out(reserve_in, reserve_out, amount_in))
            >= reserve_in * reserve_out,
{
    let d = reserve_in + amount_in;
    let x = reserve_in * reserve_out;
    lemma_quotient_bounds(x, d);
    lemma_kept_at_most_reserve(reserve_in, reserve_out, amount_in);
    assert(reserve_out - amount_out(reserve_in, reserve_out, amount_in) == x / d);
}

/// A number has one integer square root.
pub proof fn lemma_floor_sqrt_unique(n: nat, m: nat, x: nat)
    requires
        is_floor_sqrt(n, x),
        is_floor_sqrt(m, x),
    ensures
        n == m,
{
    if n < m {
        assert((n + 1) * (n + 1) <= m * m) by (nonlinear_arith)
            requires
                n + 1 <= m,
        ;
    }
    if m < n {
        assert((m + 1) * (m + 1) <= n * n) by (nonlinear_arith)
            requires
                m + 1 <= n,
        ;
    }
}

/// The output of a swap, computed through 256-bit intermediates. There is
/// none where the input side would hold nothing after the swap, since the
/// rule then divides by zero.
pub fn quote_swap(reserve_in: u128, reserve_out: u128, amount_in: u128) -> (r: Option<u128>)
    ensures
        reserve_in + amount_in == 0 ==> r.is_none(),
        reserve_in + amount_in > 0 ==> r == Some(
            amount_out(reserve_in as nat, reserve_out as nat, amount_in as nat) as u128,
        ),
        reserve_in + amount_in > 0 ==> amount_out(
            reserve_in as nat,
            reserve_out as nat,
            amount_in as nat,
        ) <= reserve_out,
{
    let balance_in_before = Wide::from_u128(reserve_in);
    let balance_out_before = Wide::from_u128(reserve_out);
    proof {
        lemma_product_fits(reserve_in as nat, reserve_out as nat);
        if reserve_in + amount_in > 0 {
            lemma_kept_at_most_reserve(reserve_in as nat, reserve_out as nat, amount_in as nat);
        }
    }
    let product = match balance_in_before.checked_mul(balance_out_before) {
        Some(p) => p,
        None => { return None; },
    };
    let balance_in_after = match balance_in_before.checked_add(Wide::from_u128(amount_in)) {
        Some(s) => s,
        None => { return None; },
    };
    let kept = match product.checked_div(balance_in_after) {
        Some(q) => q,
        None => { return None; },
    };
    balance_out_before.saturating_sub(kept).to_u128()
}

/// The shares that a deposit is worth, computed through a 256-bit product.
/// There are none where the reserve is empty, or where the count needs more
/// than 128 bits.
pub fn quote_shares(deposit: u128, total_shares: u128, reserve: u128) -> (r: Option<u128>)
    ensures
        match r {
            Some(shares) => reserve > 0 && shares == shares_for(
                deposit as nat,
                total_shares as nat,
                reserve as nat,
            ),
            None => reserve == 0 || shares_for(deposit as nat, total_shares as nat, reserve as nat)
                > u128::MAX,
        },
{
    match casted_mul(deposit, total_shares).checked_div(Wide::from_u128(reserve)) {
        Some(q) => q.to_u128(),
        None => None,
    }
}

/// The shares issued when a pool is created: the integer square root of the
/// product of its two first deposits. It always fits in 128 bits.
pub fn initial_shares(balance_0: u128, balance_1: u128) -> (r: Option<u128>)
    ensures
        r.is_some(),
        is_floor_sqrt(r.unwrap() as nat, (balance_0 * balance_1) as nat),
{
    let root = casted_mul(balance_0, balance_1).integer_sqrt();
    proof {
        lemma_product_fits(balance_0 as nat, balance_1 as nat);
        let n = root@;
        let x = (balance_0 * balance_1) as nat;
        assert(n < narrow_limit()) by (nonlinear_arith)
            requires
                n * n <= x,
                x <= (narrow_limit() - 1) * (narrow_limit() - 1),
        ;
    }
    root.to_u128()
}

} // verus!
