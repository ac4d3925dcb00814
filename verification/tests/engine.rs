use liquidity_pools::engine::Pallet;
use liquidity_pools::errors::Error;
use liquidity_pools::events::Event;

const ALICE: u64 = 7;
const BOB: u64 = 8;
const ASSET_A: u64 = 1;
const ASSET_B: u64 = 2;
const TOKEN: u64 = 99;

/// A zero-fee engine with one pool of the given reserves, funded by ALICE.
fn funded_pool(fee_permille: u64, ra: u64, rb: u64) -> (Pallet, u64) {
    let mut p = Pallet::new(fee_permille);
    p.create_liquidity_pool(ALICE, ASSET_A, ASSET_B, TOKEN).unwrap();
    p.deposit(ALICE, ASSET_A, ra).unwrap();
    p.deposit(ALICE, ASSET_B, rb).unwrap();
    let (_, _, shares) = p.add_liquidity(ALICE, ASSET_A, ASSET_B, ra, rb, 0, 0).unwrap();
    (p, shares)
}

#[test]
fn create_pool_and_lookup() {
    let mut p = Pallet::new(0);
    assert_eq!(p.create_liquidity_pool(ALICE, ASSET_B, ASSET_A, TOKEN), Ok((ASSET_A, ASSET_B)));
    let pool = p.lookup(ASSET_B, ASSET_A).expect("pool registered");
    assert_eq!(pool.assets, (ASSET_A, ASSET_B));
    assert_eq!(pool.reserves, (0, 0));
    assert_eq!(pool.total_liquidity, 0);
    assert_eq!(pool.liquidity_token, TOKEN);
    assert_eq!(
        p.events[0],
        Event::LiquidityPoolCreated { creator: ALICE, asset_a: ASSET_A, asset_b: ASSET_B }
    );
    assert!(p.lookup(ASSET_A, 3).is_none());
}

#[test]
fn create_duplicate_pair_fails() {
    let mut p = Pallet::new(0);
    p.create_liquidity_pool(ALICE, ASSET_A, ASSET_B, TOKEN).unwrap();
    // repeating the identical call, the pool's own token included
    assert_eq!(
        p.create_liquidity_pool(ALICE, ASSET_A, ASSET_B, TOKEN),
        Err(Error::LiquidityPoolAlreadyExists)
    );
    assert_eq!(
        p.create_liquidity_pool(ALICE, ASSET_A, ASSET_B, 98),
        Err(Error::LiquidityPoolAlreadyExists)
    );
    // the reversed order names the same canonical pair
    assert_eq!(
        p.create_liquidity_pool(BOB, ASSET_B, ASSET_A, TOKEN),
        Err(Error::LiquidityPoolAlreadyExists)
    );
    assert_eq!(
        p.create_liquidity_pool(BOB, ASSET_B, ASSET_A, 98),
        Err(Error::LiquidityPoolAlreadyExists)
    );
}

#[test]
fn create_equal_assets_fails() {
    let mut p = Pallet::new(0);
    assert_eq!(p.create_liquidity_pool(ALICE, 5, 5, TOKEN), Err(Error::InvalidAssetIn));
}

#[test]
fn create_token_clash_fails() {
    let mut p = Pallet::new(0);
    assert_eq!(
        p.create_liquidity_pool(ALICE, ASSET_A, ASSET_B, ASSET_A),
        Err(Error::InvalidAssetOut)
    );
    p.create_liquidity_pool(ALICE, ASSET_A, ASSET_B, TOKEN).unwrap();
    assert_eq!(p.create_liquidity_pool(ALICE, 3, 4, TOKEN), Err(Error::InvalidAssetOut));
}

#[test]
fn bootstrap_add_mints_geometric_mean() {
    let mut p = Pallet::new(0);
    p.create_liquidity_pool(ALICE, ASSET_A, ASSET_B, TOKEN).unwrap();
    p.deposit(ALICE, ASSET_A, 100).unwrap();
    p.deposit(ALICE, ASSET_B, 400).unwrap();
    let got = p.add_liquidity(ALICE, ASSET_A, ASSET_B, 100, 400, 0, 0).unwrap();
    // isqrt(100 * 400) = 200 initial shares
    assert_eq!(got, (100, 400, 200));
    let pool = p.lookup(ASSET_A, ASSET_B).unwrap();
    assert_eq!(pool.reserves, (100, 400));
    assert_eq!(pool.total_liquidity, 200);
    assert_eq!(p.balance_of(ALICE, TOKEN), 200);
    assert_eq!(p.balance_of(ALICE, ASSET_A), 0);
    assert_eq!(p.balance_of(ALICE, ASSET_B), 0);
}

#[test]
fn second_add_is_ratio_constrained() {
    let (mut p, _) = funded_pool(0, 100, 400);
    p.deposit(BOB, ASSET_A, 50).unwrap();
    p.deposit(BOB, ASSET_B, 50).unwrap();
    // ratio 1:4 binds side a at 50 * 100 / 400 = 12
    let got = p.add_liquidity(BOB, ASSET_A, ASSET_B, 50, 50, 0, 0).unwrap();
    assert_eq!(got, (12, 50, 24));
    let pool = p.lookup(ASSET_A, ASSET_B).unwrap();
    assert_eq!(pool.reserves, (112, 450));
    assert_eq!(pool.total_liquidity, 224);
    assert_eq!(p.balance_of(BOB, ASSET_A), 38);
    assert_eq!(p.balance_of(BOB, ASSET_B), 0);
    assert_eq!(p.balance_of(BOB, TOKEN), 24);
}

#[test]
fn add_with_reversed_argument_order() {
    let (mut p, _) = funded_pool(0, 100, 400);
    p.deposit(BOB, ASSET_A, 50).unwrap();
    p.deposit(BOB, ASSET_B, 50).unwrap();
    // naming the pair (b, a) reports the amounts in that same order
    let got = p.add_liquidity(BOB, ASSET_B, ASSET_A, 50, 50, 0, 0).unwrap();
    assert_eq!(got, (50, 12, 24));
}

#[test]
fn add_slippage_guard() {
    let (mut p, _) = funded_pool(0, 100, 400);
    p.deposit(BOB, ASSET_A, 50).unwrap();
    p.deposit(BOB, ASSET_B, 50).unwrap();
    assert_eq!(
        p.add_liquidity(BOB, ASSET_A, ASSET_B, 50, 50, 13, 0),
        Err(Error::InsufficientAmountOut)
    );
}

#[test]
fn add_zero_side_mints_nothing() {
    let mut p = Pallet::new(0);
    p.create_liquidity_pool(ALICE, ASSET_A, ASSET_B, TOKEN).unwrap();
    p.deposit(ALICE, ASSET_B, 5).unwrap();
    assert_eq!(
        p.add_liquidity(ALICE, ASSET_A, ASSET_B, 0, 5, 0, 0),
        Err(Error::InsufficientLiquidity)
    );
}

#[test]
fn add_without_balance_fails() {
    let mut p = Pallet::new(0);
    p.create_liquidity_pool(ALICE, ASSET_A, ASSET_B, TOKEN).unwrap();
    assert_eq!(
        p.add_liquidity(ALICE, ASSET_A, ASSET_B, 10, 10, 0, 0),
        Err(Error::InsufficientReserves)
    );
}

#[test]
fn add_missing_pool_fails() {
    let mut p = Pallet::new(0);
    assert_eq!(p.add_liquidity(ALICE, ASSET_A, ASSET_B, 1, 1, 0, 0), Err(Error::InvalidAssetIn));
}

#[test]
fn swap_thousand_for_ninety() {
    let (mut p, _) = funded_pool(0, 1000, 1000);
    p.deposit(BOB, ASSET_A, 100).unwrap();
    // 100 * 1000 / (1000 + 100) = 90 by integer division
    assert_eq!(p.swap_exact_in(BOB, ASSET_A, ASSET_B, ASSET_A, 100, 0), Ok(90));
    let pool = p.lookup(ASSET_A, ASSET_B).unwrap();
    assert_eq!(pool.reserves, (1100, 910));
    assert_eq!(p.balance_of(BOB, ASSET_A), 0);
    assert_eq!(p.balance_of(BOB, ASSET_B), 90);
    assert_eq!(
        p.events[p.events.len() - 1],
        Event::Swapped {
            trader: BOB,
            asset_in: ASSET_A,
            asset_out: ASSET_B,
            amount_in: 100,
            amount_out: 90
        }
    );
}

#[test]
fn swap_product_never_decreases() {
    let (mut p, _) = funded_pool(0, 1000, 1000);
    p.deposit(BOB, ASSET_A, 100).unwrap();
    p.swap_exact_in(BOB, ASSET_A, ASSET_B, ASSET_A, 100, 0).unwrap();
    let pool = p.lookup(ASSET_A, ASSET_B).unwrap();
    let product_after = pool.reserves.0 as u128 * pool.reserves.1 as u128;
    assert!(product_after >= 1000u128 * 1000u128);
}

#[test]
fn swap_with_fee_discounts_input() {
    let (mut p, _) = funded_pool(3, 1000, 1000);
    p.deposit(BOB, ASSET_A, 200).unwrap();
    // effective input 200 * 997 / 1000 = 199, so 199 * 1000 / 1199 = 165
    assert_eq!(p.swap_exact_in(BOB, ASSET_A, ASSET_B, ASSET_A, 200, 0), Ok(165));
    let pool = p.lookup(ASSET_A, ASSET_B).unwrap();
    assert_eq!(pool.reserves, (1200, 835));
    // a positive fee makes the reserve product strictly grow
    assert!(1200u128 * 835u128 > 1000u128 * 1000u128);
}

#[test]
fn swap_slippage_guard() {
    let (mut p, _) = funded_pool(0, 1000, 1000);
    p.deposit(BOB, ASSET_A, 100).unwrap();
    assert_eq!(
        p.swap_exact_in(BOB, ASSET_A, ASSET_B, ASSET_A, 100, 91),
        Err(Error::InsufficientAmountOut)
    );
}

#[test]
fn swap_empty_pool_fails() {
    let mut p = Pallet::new(0);
    p.create_liquidity_pool(ALICE, ASSET_A, ASSET_B, TOKEN).unwrap();
    assert_eq!(
        p.swap_exact_in(ALICE, ASSET_A, ASSET_B, ASSET_A, 10, 0),
        Err(Error::DivisionByZero)
    );
}

#[test]
fn swap_foreign_asset_fails() {
    let (mut p, _) = funded_pool(0, 1000, 1000);
    assert_eq!(p.swap_exact_in(ALICE, ASSET_A, ASSET_B, 3, 10, 0), Err(Error::InvalidAssetIn));
    assert_eq!(p.swap_exact_in(ALICE, ASSET_A, 4, ASSET_A, 10, 0), Err(Error::InvalidAssetIn));
}

#[test]
fn swap_without_balance_fails() {
    let (mut p, _) = funded_pool(0, 1000, 1000);
    assert_eq!(
        p.swap_exact_in(BOB, ASSET_A, ASSET_B, ASSET_A, 100, 0),
        Err(Error::InsufficientReserves)
    );
}

#[test]
fn swap_overflow_leaves_state_unchanged() {
    let (mut p, _) = funded_pool(0, u64::MAX, 1);
    p.deposit(BOB, ASSET_A, 1).unwrap();
    assert_eq!(
        p.swap_exact_in(BOB, ASSET_A, ASSET_B, ASSET_A, 1, 0),
        Err(Error::ArithmeticOverflow)
    );
    let pool = p.lookup(ASSET_A, ASSET_B).unwrap();
    assert_eq!(pool.reserves, (u64::MAX, 1));
    assert_eq!(p.balance_of(BOB, ASSET_A), 1);
    assert_eq!(p.balance_of(BOB, ASSET_B), 0);
}

#[test]
fn add_reserve_overflow_leaves_state_unchanged() {
    let (mut p, shares) = funded_pool(0, u64::MAX, 1);
    p.deposit(BOB, ASSET_A, u64::MAX).unwrap();
    p.deposit(BOB, ASSET_B, 1).unwrap();
    assert_eq!(
        p.add_liquidity(BOB, ASSET_A, ASSET_B, u64::MAX, 1, 0, 0),
        Err(Error::ReserveOverflow)
    );
    let pool = p.lookup(ASSET_A, ASSET_B).unwrap();
    assert_eq!(pool.reserves, (u64::MAX, 1));
    assert_eq!(pool.total_liquidity, shares);
    assert_eq!(p.balance_of(BOB, ASSET_A), u64::MAX);
    assert_eq!(p.balance_of(BOB, ASSET_B), 1);
    assert_eq!(p.balance_of(BOB, TOKEN), 0);
}

#[test]
fn add_share_overflow_fails() {
    let (mut p, shares) = funded_pool(0, u64::MAX, u64::MAX);
    assert_eq!(shares, u64::MAX);
    p.deposit(BOB, ASSET_A, 1).unwrap();
    p.deposit(BOB, ASSET_B, 1).unwrap();
    assert_eq!(
        p.add_liquidity(BOB, ASSET_A, ASSET_B, 1, 1, 0, 0),
        Err(Error::LiquidityOverflow)
    );
    let pool = p.lookup(ASSET_A, ASSET_B).unwrap();
    assert_eq!(pool.reserves, (u64::MAX, u64::MAX));
}

#[test]
fn remove_all_returns_everything() {
    let (mut p, shares) = funded_pool(0, 100, 400);
    assert_eq!(shares, 200);
    assert_eq!(p.remove_liquidity(ALICE, ASSET_A, ASSET_B, 200, 0, 0), Ok((100, 400)));
    let pool = p.lookup(ASSET_A, ASSET_B).unwrap();
    assert_eq!(pool.reserves, (0, 0));
    assert_eq!(pool.total_liquidity, 0);
    assert_eq!(p.balance_of(ALICE, ASSET_A), 100);
    assert_eq!(p.balance_of(ALICE, ASSET_B), 400);
    assert_eq!(p.balance_of(ALICE, TOKEN), 0);
}

#[test]
fn round_trip_returns_no_more_than_contributed() {
    let (mut p, _) = funded_pool(0, 100, 400);
    p.deposit(BOB, ASSET_A, 50).unwrap();
    p.deposit(BOB, ASSET_B, 50).unwrap();
    let (taken_a, taken_b, minted) =
        p.add_liquidity(BOB, ASSET_A, ASSET_B, 50, 50, 0, 0).unwrap();
    let (back_a, back_b) =
        p.remove_liquidity(BOB, ASSET_A, ASSET_B, minted, 0, 0).unwrap();
    assert!(back_a <= taken_a);
    assert!(back_b <= taken_b);
    // the rounding shortfall on this pool: (112 * 24 / 224, 450 * 24 / 224)
    assert_eq!((back_a, back_b), (12, 48));
}

#[test]
fn remove_zero_or_excessive_shares_fails() {
    let (mut p, shares) = funded_pool(0, 100, 400);
    assert_eq!(
        p.remove_liquidity(ALICE, ASSET_A, ASSET_B, 0, 0, 0),
        Err(Error::InsufficientLiquidity)
    );
    assert_eq!(
        p.remove_liquidity(ALICE, ASSET_A, ASSET_B, shares + 1, 0, 0),
        Err(Error::InsufficientLiquidity)
    );
    // a caller holding no shares cannot burn any
    assert_eq!(
        p.remove_liquidity(BOB, ASSET_A, ASSET_B, 1, 0, 0),
        Err(Error::InsufficientLiquidity)
    );
}

#[test]
fn remove_slippage_guard() {
    let (mut p, shares) = funded_pool(0, 100, 400);
    assert_eq!(
        p.remove_liquidity(ALICE, ASSET_A, ASSET_B, shares, 101, 0),
        Err(Error::InsufficientAmountOut)
    );
}

#[test]
fn quote_matches_executed_swap() {
    let (mut p, _) = funded_pool(3, 1000, 1000);
    p.deposit(BOB, ASSET_A, 200).unwrap();
    let quoted = p.quote(ASSET_A, ASSET_B, ASSET_A, 200).unwrap();
    let paid = p.swap_exact_in(BOB, ASSET_A, ASSET_B, ASSET_A, 200, 0).unwrap();
    assert_eq!(quoted, paid);
    assert_eq!(quoted, 165);
}

#[test]
fn quote_on_missing_or_empty_pool() {
    let mut p = Pallet::new(0);
    assert_eq!(p.quote(ASSET_A, ASSET_B, ASSET_A, 10), Err(Error::InvalidAssetIn));
    p.create_liquidity_pool(ALICE, ASSET_A, ASSET_B, TOKEN).unwrap();
    assert_eq!(p.quote(ASSET_A, ASSET_B, ASSET_A, 10), Err(Error::DivisionByZero));
    assert_eq!(p.quote(ASSET_A, ASSET_B, 3, 10), Err(Error::InvalidAssetIn));
}

#[test]
fn deposit_overflow_fails() {
    let mut p = Pallet::new(0);
    p.deposit(ALICE, ASSET_A, u64::MAX).unwrap();
    assert_eq!(p.deposit(ALICE, ASSET_A, 1), Err(Error::ArithmeticOverflow));
    assert_eq!(p.balance_of(ALICE, ASSET_A), u64::MAX);
}

#[test]
fn events_record_liquidity_flow() {
    let (mut p, shares) = funded_pool(0, 100, 400);
    p.remove_liquidity(ALICE, ASSET_A, ASSET_B, shares, 0, 0).unwrap();
    assert_eq!(p.events.len(), 3);
    assert_eq!(
        p.events[1],
        Event::LiquidityAdded {
            provider: ALICE,
            asset_a: ASSET_A,
            asset_b: ASSET_B,
            amount_a: 100,
            amount_b: 400,
            shares: 200
        }
    );
    assert_eq!(
        p.events[2],
        Event::LiquidityRemoved {
            provider: ALICE,
            asset_a: ASSET_A,
            asset_b: ASSET_B,
            amount_a: 100,
            amount_b: 400,
            shares: 200
        }
    );
}
