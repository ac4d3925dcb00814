use crate::engine::spec_swap_outcome;
use crate::errors::Error;
use crate::ledger::Ledger;
use crate::math::{
    lemma_constant_product, lemma_effective_in_bounds, lemma_minted_share_bound,
    lemma_no_gain_side, lemma_quote_bounds, lemma_remove_amount, spec_actual_a, spec_actual_b,
    spec_effective_in, spec_isqrt, spec_quote_amount, spec_remove_amount, spec_shares_minted,
};
use vstd::arithmetic::div_mod::lemma_div_pos_is_pos;
use crate::pool::LiquidityPool;
use vstd::prelude::*;

verus! {

/// Constant-product law: whenever the engine accepts a swap, the product
/// of the two reserves after the trade is at least the product before it;
/// with a positive fee and a positive input it is strictly greater.
pub proof fn law_swap_constant_product(
    p: LiquidityPool,
    ledger: Ledger,
    caller: u64,
    asset_in: u64,
    amount_in: u64,
    min_out: u64,
    fee_permille: u64,
    out: int,
)
    requires
        p.wf(),
        fee_permille < 1000,
        spec_swap_outcome(
            p,
            ledger,
            caller,
            asset_in,
            amount_in as int,
            min_out as int,
            fee_permille as int,
        ) == Ok::<int, Error>(out),
    ensures
        ({
            let r_in = if asset_in == p.assets.0 {
                p.reserves.0 as int
            } else {
                p.reserves.1 as int
            };
            let r_out = if asset_in == p.assets.0 {
                p.reserves.1 as int
            } else {
                p.reserves.0 as int
            };
            &&& (r_in + amount_in) * (r_out - out) >= r_in * r_out
            &&& (fee_permille >= 1 && amount_in >= 1) ==> (r_in + amount_in) * (r_out - out)
                > r_in * r_out
        }),
{
    let r_in = if asset_in == p.assets.0 {
        p.reserves.0 as int
    } else {
        p.reserves.1 as int
    };
    let r_out = if asset_in == p.assets.0 {
        p.reserves.1 as int
    } else {
        p.reserves.0 as int
    };
    let eff = spec_effective_in(amount_in as int, fee_permille as int);
    lemma_effective_in_bounds(amount_in as int, fee_permille as int, eff);
    lemma_constant_product(r_in, r_out, amount_in as int, eff, out);
}

/// No value creation on a funded pool: the shares a provision mints, when
/// withdrawn at once, pay back at most the amounts the provision took;
/// any shortfall is integer rounding in the pool's favour.
pub proof fn law_round_trip_no_gain(ra: int, rb: int, tl: int, da: int, db: int)
    requires
        ra >= 1,
        rb >= 1,
        tl >= 1,
        da >= 0,
        db >= 0,
    ensures
        ({
            let aa = spec_actual_a(ra, rb, da, db);
            let ab = spec_actual_b(ra, rb, da, db);
            let s = spec_shares_minted(ra, rb, tl, aa, ab);
            s >= 1 ==> spec_remove_amount(ra + aa, s, tl + s) <= aa && spec_remove_amount(
                rb + ab,
                s,
                tl + s,
            ) <= ab
        }),
{
    let aa = spec_actual_a(ra, rb, da, db);
    let ab = spec_actual_b(ra, rb, da, db);
    let s = spec_shares_minted(ra, rb, tl, aa, ab);
    assert(db * ra >= 0 && da * rb >= 0) by (nonlinear_arith)
        requires
            da >= 0,
            db >= 0,
            ra >= 1,
            rb >= 1,
    ;
    lemma_div_pos_is_pos(db * ra, rb);
    lemma_div_pos_is_pos(da * rb, ra);
    if s >= 1 {
        lemma_minted_share_bound(ra, aa, tl, s);
        lemma_minted_share_bound(rb, ab, tl, s);
        lemma_no_gain_side(ra, aa, tl, s);
        lemma_no_gain_side(rb, ab, tl, s);
    }
}

/// No value creation at the bootstrap: withdrawing every share minted for
/// the first provision of an empty pool pays back exactly the amounts
/// that funded it.
pub proof fn law_round_trip_bootstrap(da: int, db: int)
    requires
        da >= 0,
        db >= 0,
    ensures
        ({
            let s = spec_isqrt((da * db) as nat) as int;
            s >= 1 ==> spec_remove_amount(da, s, s) == da && spec_remove_amount(db, s, s) == db
        }),
{
    let s = spec_isqrt((da * db) as nat) as int;
    if s >= 1 {
        lemma_remove_amount(da, s, s);
        lemma_remove_amount(db, s, s);
    }
}

/// A funded pool can never be drained by a swap: the priced output is
/// strictly below the outgoing reserve, so the guard that rejects a trade
/// taking the whole reserve can only be a defence in depth.
pub proof fn law_swap_never_drains(r_in: int, r_out: int, eff: int)
    requires
        r_in >= 1,
        r_out >= 1,
        eff >= 0,
    ensures
        spec_quote_amount(r_in, r_out, eff) < r_out,
{
    lemma_quote_bounds(r_in, r_out, eff, spec_quote_amount(r_in, r_out, eff));
}

/// A quote and an executed swap price identically: a swap the engine
/// accepts pays exactly the quoted amount for the same reserves and fee.
pub proof fn law_swap_matches_quote(
    p: LiquidityPool,
    ledger: Ledger,
    caller: u64,
    asset_in: u64,
    amount_in: u64,
    min_out: u64,
    fee_permille: u64,
    out: int,
)
    requires
        spec_swap_outcome(
            p,
            ledger,
            caller,
            asset_in,
            amount_in as int,
            min_out as int,
            fee_permille as int,
        ) == Ok::<int, Error>(out),
    ensures
        ({
            let r_in = if asset_in == p.assets.0 {
                p.reserves.0 as int
            } else {
                p.reserves.1 as int
            };
            let r_out = if asset_in == p.assets.0 {
                p.reserves.1 as int
            } else {
                p.reserves.0 as int
            };
            out == spec_quote_amount(
                r_in,
                r_out,
                spec_effective_in(amount_in as int, fee_permille as int),
            )
        }),
{
}

} // verus!
