use vstd::arithmetic::div_mod::{
    lemma_div_by_multiple, lemma_div_is_ordered, lemma_div_multiples_vanish,
    lemma_div_pos_is_pos, lemma_fundamental_div_mod, lemma_mod_division_less_than_divisor,
    lemma_multiply_divide_le, lemma_multiply_divide_lt,
};
use vstd::prelude::*;

verus! {

/// Integer square root: the greatest r with r * r <= x.
pub open spec fn spec_isqrt(x: nat) -> nat
    decreases x,
{
    if x == 0 {
        0
    } else {
        let r = spec_isqrt((x - 1) as nat);
        if (r + 1) * (r + 1) <= x {
            r + 1
        } else {
            r
        }
    }
}

/// `spec_isqrt(x)` squares to at most x, and is the greatest such number.
pub proof fn lemma_isqrt_bounds(x: nat)
    ensures
        spec_isqrt(x) * spec_isqrt(x) <= x,
        x < (spec_isqrt(x) + 1) * (spec_isqrt(x) + 1),
    decreases x,
{
    if x > 0 {
        lemma_isqrt_bounds((x - 1) as nat);
        let r = spec_isqrt((x - 1) as nat);
        if (r + 1) * (r + 1) <= x {
            assert(spec_isqrt(x) == r + 1);
            assert(x <= (r + 1) * (r + 1));
            assert((r + 1) * (r + 1) < (r + 2) * (r + 2)) by (nonlinear_arith);
        } else {
            assert(spec_isqrt(x) == r);
            assert(r * r <= x);
        }
    } else {
        assert(spec_isqrt(0) == 0);
        assert(0 * 0 <= 0nat && 0nat < (0 + 1) * (0 + 1)) by (nonlinear_arith);
    }
}

/// Any r bracketed by the square-root bounds is `spec_isqrt(x)`.
pub proof fn lemma_isqrt_unique(x: nat, r: nat)
    requires
        r * r <= x,
        x < (r + 1) * (r + 1),
    ensures
        r == spec_isqrt(x),
{
    lemma_isqrt_bounds(x);
    let s = spec_isqrt(x);
    assert(r == s) by (nonlinear_arith)
        requires
            r * r <= x,
            x < (r + 1) * (r + 1),
            s * s <= x,
            x < (s + 1) * (s + 1),
            r >= 0,
            s >= 0,
    ;
}

/// Integer square root by bisection. The result always fits in 64 bits
/// because the argument is below 2^128.
pub fn isqrt(x: u128) -> (r: u64)
    ensures
        r as nat == spec_isqrt(x as nat),
        (r as int) * (r as int) <= x as int,
        (x as int) < (r as int + 1) * (r as int + 1),
{
    let mut lo: u128 = 0;
    let mut hi: u128 = 0x1_0000_0000_0000_0000u128;
    while lo + 1 < hi
        invariant
            lo < hi <= 0x1_0000_0000_0000_0000u128,
            (lo as int) * (lo as int) <= x as int,
            (x as int) < (hi as int) * (hi as int),
        decreases hi - lo,
    {
        let mid: u128 = lo + (hi - lo) / 2;
        proof {
            assert((mid as int) * (mid as int) <= u128::MAX as int) by (nonlinear_arith)
                requires
                    0 <= (mid as int) && (mid as int) <= 0xffff_ffff_ffff_ffffu64 as int,
            ;
        }
        let sq: u128 = mid * mid;
        if sq <= x {
            lo = mid;
        } else {
            hi = mid;
        }
    }
    proof {
        lemma_isqrt_unique(x as nat, lo as nat);
    }
    lo as u64
}

/// floor(x * y / d), computed in the widened 128-bit domain so the product
/// cannot overflow.
pub fn mul_div(x: u64, y: u64, d: u64) -> (r: u128)
    requires
        d > 0,
    ensures
        r as int == (x as int * y as int) / (d as int),
{
    proof {
        assert((x as int) * (y as int) <= u128::MAX as int) by (nonlinear_arith)
            requires
                0 <= (x as int) && (x as int) <= 0xffff_ffff_ffff_ffffu64 as int,
                0 <= (y as int) && (y as int) <= 0xffff_ffff_ffff_ffffu64 as int,
        ;
        assert((x as int) * (y as int) >= 0) by (nonlinear_arith)
            requires
                x as int >= 0,
                y as int >= 0,
        ;
    }
    (x as u128) * (y as u128) / (d as u128)
}

/// The fee-discounted effective input floor(a * (1000 - f) / 1000) never
/// exceeds the input, and is strictly below it for a positive fee.
pub proof fn lemma_effective_in_bounds(a: int, f: int, eff: int)
    requires
        0 <= a,
        0 <= f < 1000,
        eff == (a * (1000 - f)) / 1000,
    ensures
        0 <= eff <= a,
        f >= 1 && a >= 1 ==> eff < a,
{
    assert(a * (1000 - f) >= 0) by (nonlinear_arith)
        requires
            a >= 0,
            f < 1000,
    ;
    lemma_div_pos_is_pos(a * (1000 - f), 1000);
    assert(a * (1000 - f) <= 1000 * a) by (nonlinear_arith)
        requires
            a >= 0,
            f >= 0,
    ;
    lemma_div_is_ordered(a * (1000 - f), 1000 * a, 1000);
    lemma_div_multiples_vanish(a, 1000);
    if f >= 1 && a >= 1 {
        assert(a * (1000 - f) < 1000 * a) by (nonlinear_arith)
            requires
                a >= 1,
                1 <= f < 1000,
        ;
        lemma_multiply_divide_lt(a * (1000 - f), 1000, a);
    }
}

/// The quoted output floor(eff * r_out / (r_in + eff)) of a funded pool is
/// non-negative and strictly below the outgoing reserve.
pub proof fn lemma_quote_bounds(r_in: int, r_out: int, eff: int, out: int)
    requires
        1 <= r_in,
        1 <= r_out,
        0 <= eff,
        out == (eff * r_out) / (r_in + eff),
    ensures
        0 <= out < r_out,
{
    let d = r_in + eff;
    assert(eff * r_out >= 0) by (nonlinear_arith)
        requires
            eff >= 0,
            r_out >= 0,
    ;
    lemma_div_pos_is_pos(eff * r_out, d);
    assert(eff * r_out < d * r_out) by (nonlinear_arith)
        requires
            r_in >= 1,
            r_out >= 1,
            eff >= 0,
            d == r_in + eff,
    ;
    lemma_multiply_divide_lt(eff * r_out, d, r_out);
}

/// Constant-product law of the pricing formula: when the full input joins
/// the incoming reserve and the quoted output leaves the outgoing one, the
/// product of the reserves never decreases; it strictly increases when a
/// fee makes the effective input strictly smaller than the full input.
pub proof fn lemma_constant_product(r_in: int, r_out: int, amount_in: int, eff: int, out: int)
    requires
        1 <= r_in,
        1 <= r_out,
        0 <= eff <= amount_in,
        out == (eff * r_out) / (r_in + eff),
    ensures
        0 <= out < r_out,
        (r_in + amount_in) * (r_out - out) >= r_in * r_out,
        eff < amount_in ==> (r_in + amount_in) * (r_out - out) > r_in * r_out,
{
    let d = r_in + eff;
    lemma_quote_bounds(r_in, r_out, eff, out);
    lemma_fundamental_div_mod(eff * r_out, d);
    lemma_mod_division_less_than_divisor(eff * r_out, d);
    assert(d * out <= eff * r_out);
    assert(out * (r_in + amount_in) <= eff * r_out + out * (amount_in - eff)) by (nonlinear_arith)
        requires
            d == r_in + eff,
            d * out <= eff * r_out,
            0 <= out,
            eff <= amount_in,
    ;
    assert(out * (amount_in - eff) <= r_out * (amount_in - eff)) by (nonlinear_arith)
        requires
            0 <= out <= r_out,
            eff <= amount_in,
    ;
    assert(eff * r_out + r_out * (amount_in - eff) == amount_in * r_out) by (nonlinear_arith);
    assert((r_in + amount_in) * (r_out - out) >= r_in * r_out) by (nonlinear_arith)
        requires
            out * (r_in + amount_in) <= amount_in * r_out,
    ;
    if eff < amount_in {
        assert(out * (amount_in - eff) < r_out * (amount_in - eff)) by (nonlinear_arith)
            requires
                0 <= out < r_out,
                eff < amount_in,
        ;
        assert(out * (r_in + amount_in) < amount_in * r_out);
        assert((r_in + amount_in) * (r_out - out) > r_in * r_out) by (nonlinear_arith)
            requires
                out * (r_in + amount_in) < amount_in * r_out,
        ;
    }
}

/// Withdrawing s of tl outstanding shares pays floor(r * s / tl) out of a
/// reserve r: never more than the reserve, strictly less while shares
/// remain outstanding, and exactly the reserve for the final shares.
pub proof fn lemma_remove_amount(r: int, s: int, tl: int)
    requires
        0 <= r,
        1 <= s <= tl,
    ensures
        0 <= (r * s) / tl <= r,
        s < tl && r >= 1 ==> (r * s) / tl < r,
        s == tl ==> (r * s) / tl == r,
{
    assert(r * s >= 0) by (nonlinear_arith)
        requires
            r >= 0,
            s >= 0,
    ;
    lemma_div_pos_is_pos(r * s, tl);
    assert(r * s <= tl * r) by (nonlinear_arith)
        requires
            s <= tl,
            r >= 0,
    ;
    lemma_multiply_divide_le(r * s, tl, r);
    if s < tl && r >= 1 {
        assert(r * s < tl * r) by (nonlinear_arith)
            requires
                s < tl,
                r >= 1,
        ;
        lemma_multiply_divide_lt(r * s, tl, r);
    }
    if s == tl {
        lemma_div_by_multiple(r, tl);
    }
}

/// A provision that minted s shares against a contribution on one side of
/// the pool never pays back more than the contribution when those shares
/// are withdrawn at once: the share price rounds in the pool's favour.
pub proof fn lemma_no_gain_side(res: int, given: int, tl: int, s: int)
    requires
        0 <= res,
        0 <= given,
        1 <= tl,
        1 <= s,
        s * res <= given * tl,
    ensures
        ((res + given) * s) / (tl + s) <= given,
{
    assert((res + given) * s <= (tl + s) * given) by (nonlinear_arith)
        requires
            s * res <= given * tl,
            0 <= res,
            0 <= given,
            1 <= s,
    ;
    lemma_multiply_divide_le((res + given) * s, tl + s, given);
}

/// The minted share count s = floor(given * tl / res) satisfies the
/// share-price bound `s * res <= given * tl`, and so does anything
/// smaller.
pub proof fn lemma_minted_share_bound(res: int, given: int, tl: int, s: int)
    requires
        1 <= res,
        0 <= given,
        0 <= tl,
        0 <= s <= (given * tl) / res,
    ensures
        s * res <= given * tl,
{
    assert(given * tl >= 0) by (nonlinear_arith)
        requires
            given >= 0,
            tl >= 0,
    ;
    lemma_fundamental_div_mod(given * tl, res);
    lemma_mod_division_less_than_divisor(given * tl, res);
    assert(res * ((given * tl) / res) <= given * tl);
    assert(s * res <= res * ((given * tl) / res)) by (nonlinear_arith)
        requires
            0 <= s <= (given * tl) / res,
            1 <= res,
    ;
}

/// The canonical-side amount a provision actually takes on side a of a
/// funded pool: the desired amount, capped by what matches the other
/// side's desire at the current reserve ratio.
pub open spec fn spec_actual_a(ra: int, rb: int, da: int, db: int) -> int {
    let bound = (db * ra) / rb;
    if da <= bound {
        da
    } else {
        bound
    }
}

/// The counterpart of `spec_actual_a` for side b.
pub open spec fn spec_actual_b(ra: int, rb: int, da: int, db: int) -> int {
    let bound = (da * rb) / ra;
    if db <= bound {
        db
    } else {
        bound
    }
}

/// Shares minted for a provision into a funded pool: the amounts valued at
/// the current share price on each side, the smaller valuation winning so
/// the pool never over-mints.
pub open spec fn spec_shares_minted(ra: int, rb: int, tl: int, aa: int, ab: int) -> int {
    let sa = (aa * tl) / ra;
    let sb = (ab * tl) / rb;
    if sa <= sb {
        sa
    } else {
        sb
    }
}

/// Payout of s of tl outstanding shares from a reserve r, rounded down so
/// the pool never pays out more than is backed.
pub open spec fn spec_remove_amount(r: int, s: int, tl: int) -> int {
    (r * s) / tl
}

/// The effective input of a swap after discounting the fee, in parts per
/// thousand.
pub open spec fn spec_effective_in(amount_in: int, fee_permille: int) -> int {
    (amount_in * (1000 - fee_permille)) / 1000
}

/// The constant-product pricing formula: the output bought from the
/// outgoing reserve by an effective input against the incoming reserve.
pub open spec fn spec_quote_amount(r_in: int, r_out: int, eff: int) -> int {
    (eff * r_out) / (r_in + eff)
}

} // verus!
