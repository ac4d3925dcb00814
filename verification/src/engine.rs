use crate::errors::Error;
use crate::events::Event;
use crate::ledger::Ledger;
use crate::math::{
    isqrt, lemma_constant_product, lemma_effective_in_bounds, lemma_quote_bounds, lemma_remove_amount, mul_div,
    spec_actual_a, spec_actual_b, spec_effective_in, spec_isqrt, spec_quote_amount,
    spec_remove_amount, spec_shares_minted,
};
use crate::pool::{canonical_pair, find_pool_idx, lemma_find_pool_idx, spec_canonical, LiquidityPool};
use vstd::prelude::*;

verus! {

/// The engine: the pool registry, the balance ledger, the notifications
/// recorded so far, and the configured swap fee in parts per thousand.
pub struct Pallet {
    pub pools: Vec<LiquidityPool>,
    pub ledger: Ledger,
    pub events: Vec<Event>,
    pub fee_permille: u64,
}

/// A pair of amounts in the order the caller named the assets, re-aligned
/// to canonical order (or back again: the realignment is its own inverse).
pub open spec fn spec_oriented(asset_a: u64, asset_b: u64, xa: int, xb: int) -> (int, int) {
    if asset_a <= asset_b {
        (xa, xb)
    } else {
        (xb, xa)
    }
}

/// Everything `add_liquidity` decides for the pool at the canonical key,
/// with amounts in canonical orientation: the amounts taken from the
/// caller, the shares minted, or the one error, in the order the checks
/// run. An empty pool takes the desired amounts and mints the integer
/// square root of their product (the bootstrap share policy); a funded
/// pool takes the ratio-constrained amounts and mints the smaller of the
/// two side valuations.
pub open spec fn spec_add_outcome(
    p: LiquidityPool,
    ledger: Ledger,
    caller: u64,
    da: int,
    db: int,
    mina: int,
    minb: int,
) -> Result<(int, int, int), Error> {
    let ra = p.reserves.0 as int;
    let rb = p.reserves.1 as int;
    let tl = p.total_liquidity as int;
    let aa = if tl == 0 {
        da
    } else {
        spec_actual_a(ra, rb, da, db)
    };
    let ab = if tl == 0 {
        db
    } else {
        spec_actual_b(ra, rb, da, db)
    };
    let s = if tl == 0 {
        spec_isqrt((da * db) as nat) as int
    } else {
        spec_shares_minted(ra, rb, tl, aa, ab)
    };
    if aa < mina || ab < minb {
        Err(Error::InsufficientAmountOut)
    } else if s <= 0 {
        Err(Error::InsufficientLiquidity)
    } else if s > u64::MAX || tl + s > u64::MAX {
        Err(Error::LiquidityOverflow)
    } else if ra + aa > u64::MAX || rb + ab > u64::MAX {
        Err(Error::ReserveOverflow)
    } else if ledger.bal(caller, p.assets.0) < aa || ledger.bal(caller, p.assets.1) < ab {
        Err(Error::InsufficientReserves)
    } else if ledger.bal(caller, p.liquidity_token) + s > u64::MAX {
        Err(Error::ArithmeticOverflow)
    } else {
        Ok((aa, ab, s))
    }
}

/// Everything `remove_liquidity` decides for the pool at the canonical
/// key, with amounts in canonical orientation: the amounts paid out for
/// the burned shares, or the one error, in the order the checks run.
pub open spec fn spec_remove_outcome(
    p: LiquidityPool,
    ledger: Ledger,
    caller: u64,
    shares: int,
    mina: int,
    minb: int,
) -> Result<(int, int), Error> {
    let ra = p.reserves.0 as int;
    let rb = p.reserves.1 as int;
    let tl = p.total_liquidity as int;
    if shares <= 0 || shares > tl || ledger.bal(caller, p.liquidity_token) < shares {
        Err(Error::InsufficientLiquidity)
    } else {
        let aa = spec_remove_amount(ra, shares, tl);
        let ab = spec_remove_amount(rb, shares, tl);
        if aa < mina || ab < minb {
            Err(Error::InsufficientAmountOut)
        } else if aa > ra || ab > rb {
            Err(Error::InsufficientReserves)
        } else if ledger.bal(caller, p.assets.0) + aa > u64::MAX || ledger.bal(
            caller,
            p.assets.1,
        ) + ab > u64::MAX {
            Err(Error::ArithmeticOverflow)
        } else {
            Ok((aa, ab))
        }
    }
}

/// The pool-side asset opposite `asset_in`.
pub open spec fn spec_other_asset(p: LiquidityPool, asset_in: u64) -> u64 {
    if asset_in == p.assets.0 {
        p.assets.1
    } else {
        p.assets.0
    }
}

/// Everything `swap_exact_in` decides for the pool at the canonical key:
/// the amount bought, or the one error, in the order the checks run.
pub open spec fn spec_swap_outcome(
    p: LiquidityPool,
    ledger: Ledger,
    caller: u64,
    asset_in: u64,
    amount_in: int,
    min_out: int,
    fee_permille: int,
) -> Result<int, Error> {
    if asset_in != p.assets.0 && asset_in != p.assets.1 {
        Err(Error::InvalidAssetIn)
    } else {
        let r_in = if asset_in == p.assets.0 {
            p.reserves.0 as int
        } else {
            p.reserves.1 as int
        };
        let r_out = if asset_in == p.assets.0 {
            p.reserves.1 as int
        } else {
            p.reserves.0 as int
        };
        if r_in == 0 || r_out == 0 {
            Err(Error::DivisionByZero)
        } else {
            let eff = spec_effective_in(amount_in, fee_permille);
            let out = spec_quote_amount(r_in, r_out, eff);
            if r_in + amount_in > u64::MAX {
                Err(Error::ArithmeticOverflow)
            } else if out < min_out {
                Err(Error::InsufficientAmountOut)
            } else if out >= r_out {
                Err(Error::InsufficientReserves)
            } else if ledger.bal(caller, asset_in) < amount_in {
                Err(Error::InsufficientReserves)
            } else if ledger.bal(caller, spec_other_asset(p, asset_in)) + out > u64::MAX {
                Err(Error::ArithmeticOverflow)
            } else {
                Ok(out)
            }
        }
    }
}

impl Pallet {
    /// Well-formedness: the ledger is well-formed, the fee is a proper
    /// fraction, every pool is well-formed, and no two pools share a
    /// canonical pair or a liquidity token.
    pub open spec fn wf(self) -> bool {
        &&& self.ledger.wf()
        &&& self.fee_permille < 1000
        &&& forall|i: int| 0 <= i < self.pools@.len() ==> (#[trigger] self.pools@[i]).wf()
        &&& forall|i: int, j: int|
            0 <= i < j < self.pools@.len() ==> self.pools@[i].assets != self.pools@[j].assets
        &&& forall|i: int, j: int|
            0 <= i < j < self.pools@.len() ==> self.pools@[i].liquidity_token
                != self.pools@[j].liquidity_token
    }

    /// A fresh engine: no pools, no balances, no events, and the given swap
    /// fee in parts per thousand (a proper fraction).
    pub fn new(fee_permille: u64) -> (r: Pallet)
        requires
            fee_permille < 1000,
        ensures
            r.wf(),
            r.pools@.len() == 0,
            r.events@.len() == 0,
            r.fee_permille == fee_permille,
            forall|w: u64, a: u64| r.ledger.bal(w, a) == 0,
    {
        Pallet { pools: Vec::new(), ledger: Ledger::new(), events: Vec::new(), fee_permille }
    }

    /// Endows `who` with `amount` of `asset`: the door through which the
    /// hosting context hands callers spendable balances. Fails with
    /// `ArithmeticOverflow`, changing nothing, exactly when the balance
    /// would leave the 64-bit domain.
    pub fn deposit(&mut self, who: u64, asset: u64, amount: u64) -> (r: Result<(), Error>)
        requires
            old(self).wf(),
        ensures
            final(self).wf(),
            final(self).pools@ == old(self).pools@,
            final(self).events@ == old(self).events@,
            final(self).fee_permille == old(self).fee_permille,
            match r {
                Ok(()) => {
                    &&& old(self).ledger.bal(who, asset) + amount <= u64::MAX
                    &&& final(self).ledger.bal(who, asset) == old(self).ledger.bal(who, asset)
                        + amount
                    &&& forall|w: u64, a: u64|
                        !(w == who && a == asset) ==> final(self).ledger.bal(w, a) == old(
                            self,
                        ).ledger.bal(w, a)
                },
                Err(e) => {
                    &&& e == Error::ArithmeticOverflow
                    &&& *final(self) == *old(self)
                    &&& old(self).ledger.bal(who, asset) + amount > u64::MAX
                },
            },
    {
        self.ledger.credit(who, asset, amount)
    }

    /// The balance `who` holds of `asset`.
    pub fn balance_of(&self, who: u64, asset: u64) -> (r: u64)
        requires
            self.wf(),
        ensures
            r as int == self.ledger.bal(who, asset),
    {
        self.ledger.balance_of(who, asset)
    }

    /// Index of the pool registered for the canonical pair, if any.
    fn find_pool(&self, key: (u64, u64)) -> (r: Option<usize>)
        ensures
            match r {
                Some(i) => i < self.pools@.len() && i as int == find_pool_idx(self.pools@, key),
                None => find_pool_idx(self.pools@, key) == -1,
            },
    {
        proof {
            lemma_find_pool_idx(self.pools@, key);
        }
        let mut k: usize = 0;
        while k < self.pools.len()
            invariant
                k <= self.pools@.len(),
                forall|j: int| 0 <= j < k ==> self.pools@[j].assets != key,
            decreases self.pools@.len() - k,
        {
            let p = self.pools[k];
            if p.assets.0 == key.0 && p.assets.1 == key.1 {
                proof {
                    lemma_find_pool_idx(self.pools@, key);
                    let idx = find_pool_idx(self.pools@, key);
                    assert(self.pools@[k as int].assets == key);
                    assert(idx >= 0);
                    assert(idx >= k as int) by {
                        if idx < k as int {
                            assert(self.pools@[idx].assets != key);
                        }
                    }
                    assert(idx <= k as int) by {
                        if idx > k as int {
                            assert(self.pools@[k as int].assets != key);
                        }
                    }
                }
                return Some(k);
            }
            k = k + 1;
        }
        None
    }

    /// Whether some registered pool already uses `token` as its liquidity
    /// token.
    fn token_used(&self, token: u64) -> (r: bool)
        ensures
            r <==> exists|i: int|
                0 <= i < self.pools@.len() && self.pools@[i].liquidity_token == token,
    {
        let mut k: usize = 0;
        while k < self.pools.len()
            invariant
                k <= self.pools@.len(),
                forall|j: int| 0 <= j < k ==> self.pools@[j].liquidity_token != token,
            decreases self.pools@.len() - k,
        {
            let p = self.pools[k];
            if p.liquidity_token == token {
                return true;
            }
            k = k + 1;
        }
        false
    }

    /// The pool registered for the unordered pair, after canonicalizing.
    pub fn lookup(&self, asset_a: u64, asset_b: u64) -> (r: Option<LiquidityPool>)
        ensures
            ({
                let key = spec_canonical(asset_a, asset_b);
                let idx = find_pool_idx(self.pools@, key);
                match r {
                    Some(p) => idx >= 0 && p == self.pools@[idx],
                    None => idx == -1,
                }
            }),
    {
        let key = canonical_pair(asset_a, asset_b);
        match self.find_pool(key) {
            Some(i) => Some(self.pools[i]),
            None => None,
        }
    }

    /// Registers a pool for the unordered pair (asset_a, asset_b) with
    /// `liquidity_token` as its share token, and reports the canonical
    /// key. The pool starts empty. Fails, changing nothing, with
    /// `InvalidAssetIn` when the two assets are equal,
    /// `LiquidityPoolAlreadyExists` when the canonical pair is already
    /// registered (whatever token the call proposes), and
    /// `InvalidAssetOut` when the pair is fresh but the liquidity token
    /// names one of its assets or is already another pool's token; exactly
    /// one pool per canonical pair can ever exist.
    pub fn create_liquidity_pool(
        &mut self,
        caller: u64,
        asset_a: u64,
        asset_b: u64,
        liquidity_token: u64,
    ) -> (r: Result<(u64, u64), Error>)
        requires
            old(self).wf(),
        ensures
            final(self).wf(),
            final(self).ledger == old(self).ledger,
            final(self).fee_permille == old(self).fee_permille,
            ({
                let key = spec_canonical(asset_a, asset_b);
                let idx = find_pool_idx(old(self).pools@, key);
                let token_clash = liquidity_token == asset_a || liquidity_token == asset_b
                    || exists|i: int|
                    0 <= i < old(self).pools@.len() && old(self).pools@[i].liquidity_token
                        == liquidity_token;
                match r {
                    Ok(k) => {
                        &&& k == key
                        &&& asset_a != asset_b
                        &&& !token_clash
                        &&& idx == -1
                        &&& final(self).pools@ == old(self).pools@.push(
                            (LiquidityPool {
                                assets: key,
                                reserves: (0u64, 0u64),
                                total_liquidity: 0u64,
                                liquidity_token,
                            }),
                        )
                        &&& final(self).events@ == old(self).events@.push(
                            (Event::LiquidityPoolCreated {
                                creator: caller,
                                asset_a: key.0,
                                asset_b: key.1,
                            }),
                        )
                    },
                    Err(e) => {
                        &&& *final(self) == *old(self)
                        &&& (e == Error::InvalidAssetIn <==> asset_a == asset_b)
                        &&& (e == Error::LiquidityPoolAlreadyExists <==> (asset_a != asset_b && idx
                            >= 0))
                        &&& (e == Error::InvalidAssetOut <==> (asset_a != asset_b && idx == -1
                            && token_clash))
                        &&& (e == Error::InvalidAssetIn || e == Error::InvalidAssetOut || e
                            == Error::LiquidityPoolAlreadyExists)
                    },
                }
            }),
    {
        if asset_a == asset_b {
            return Err(Error::InvalidAssetIn);
        }
        let key = canonical_pair(asset_a, asset_b);
        match self.find_pool(key) {
            Some(_) => Err(Error::LiquidityPoolAlreadyExists),
            None => {
                if liquidity_token == asset_a || liquidity_token == asset_b || self.token_used(
                    liquidity_token,
                ) {
                    return Err(Error::InvalidAssetOut);
                }
                proof {
                    lemma_find_pool_idx(self.pools@, key);
                }
                let p = LiquidityPool {
                    assets: key,
                    reserves: (0, 0),
                    total_liquidity: 0,
                    liquidity_token,
                };
                self.pools.push(p);
                self.events.push(
                    Event::LiquidityPoolCreated { creator: caller, asset_a: key.0, asset_b: key.1 },
                );
                proof {
                    assert(forall|i: int|
                        0 <= i < old(self).pools@.len() ==> final(self).pools@[i] == old(
                            self,
                        ).pools@[i]);
                }
                Ok(key)
            },
        }
    }

    /// Provides liquidity to the pool of the unordered pair: takes amounts
    /// consistent with the pool's reserve ratio (or exactly the desired
    /// amounts into an empty pool), pays them from the caller's balances
    /// into the reserves, and mints liquidity shares to the caller. The
    /// amounts taken and the shares minted come back in the order the
    /// caller named the assets. Fails, changing nothing, with
    /// `InvalidAssetIn` when no pool exists for the pair, and otherwise
    /// exactly as `spec_add_outcome` says.
    pub fn add_liquidity(
        &mut self,
        caller: u64,
        asset_a: u64,
        asset_b: u64,
        amount_a_desired: u64,
        amount_b_desired: u64,
        min_a: u64,
        min_b: u64,
    ) -> (r: Result<(u64, u64, u64), Error>)
        requires
            old(self).wf(),
        ensures
            final(self).wf(),
            final(self).fee_permille == old(self).fee_permille,
            ({
                let key = spec_canonical(asset_a, asset_b);
                let idx = find_pool_idx(old(self).pools@, key);
                let o = spec_oriented(
                    asset_a,
                    asset_b,
                    amount_a_desired as int,
                    amount_b_desired as int,
                );
                let m = spec_oriented(asset_a, asset_b, min_a as int, min_b as int);
                if idx < 0 {
                    r == Err::<(u64, u64, u64), Error>(Error::InvalidAssetIn) && *final(self)
                        == *old(self)
                } else {
                    let p = old(self).pools@[idx];
                    let oc = spec_add_outcome(p, old(self).ledger, caller, o.0, o.1, m.0, m.1);
                    match r {
                        Ok(v) => oc matches Ok(t) && {
                            let aa = t.0;
                            let ab = t.1;
                            let s = t.2;
                            &&& v.0 as int == spec_oriented(asset_a, asset_b, aa, ab).0
                            &&& v.1 as int == spec_oriented(asset_a, asset_b, aa, ab).1
                            &&& v.2 as int == s
                            &&& final(self).pools@ == old(self).pools@.update(
                                idx,
                                (LiquidityPool {
                                    assets: p.assets,
                                    reserves: (
                                        ((p.reserves.0 + aa) as u64),
                                        ((p.reserves.1 + ab) as u64),
                                    ),
                                    total_liquidity: ((p.total_liquidity + s) as u64),
                                    liquidity_token: p.liquidity_token,
                                }),
                            )
                            &&& final(self).events@ == old(self).events@.push(
                                (Event::LiquidityAdded {
                                    provider: caller,
                                    asset_a: key.0,
                                    asset_b: key.1,
                                    amount_a: aa as u64,
                                    amount_b: ab as u64,
                                    shares: s as u64,
                                }),
                            )
                            &&& final(self).ledger.bal(caller, p.assets.0) == old(
                                self,
                            ).ledger.bal(caller, p.assets.0) - aa
                            &&& final(self).ledger.bal(caller, p.assets.1) == old(
                                self,
                            ).ledger.bal(caller, p.assets.1) - ab
                            &&& final(self).ledger.bal(caller, p.liquidity_token) == old(
                                self,
                            ).ledger.bal(caller, p.liquidity_token) + s
                            &&& forall|w: u64, x: u64|
                                !(w == caller && (x == p.assets.0 || x == p.assets.1 || x
                                    == p.liquidity_token)) ==> final(self).ledger.bal(w, x) == old(
                                    self,
                                ).ledger.bal(w, x)
                        },
                        Err(e) => oc == Err::<(int, int, int), Error>(e) && *final(self) == *old(
                            self,
                        ),
                    }
                }
            }),
    {
        let key = canonical_pair(asset_a, asset_b);
        let sorted = asset_a <= asset_b;
        let da: u64 = if sorted {
            amount_a_desired
        } else {
            amount_b_desired
        };
        let db: u64 = if sorted {
            amount_b_desired
        } else {
            amount_a_desired
        };
        let mina: u64 = if sorted {
            min_a
        } else {
            min_b
        };
        let minb: u64 = if sorted {
            min_b
        } else {
            min_a
        };
        let i: usize = match self.find_pool(key) {
            None => {
                return Err(Error::InvalidAssetIn);
            },
            Some(i) => i,
        };
        let p = self.pools[i];
        proof {
            lemma_find_pool_idx(self.pools@, key);
            assert(p.assets == key);
            assert(p.wf());
        }
        let ghost oc = spec_add_outcome(
            p,
            self.ledger,
            caller,
            da as int,
            db as int,
            mina as int,
            minb as int,
        );
        let amounts: (u64, u64, u64) = if p.total_liquidity == 0 {
            if da < mina || db < minb {
                return Err(Error::InsufficientAmountOut);
            }
            proof {
                assert((da as int) * (db as int) <= u128::MAX as int) by (nonlinear_arith)
                    requires
                        0 <= (da as int) && (da as int) <= 0xffff_ffff_ffff_ffffu64 as int,
                        0 <= (db as int) && (db as int) <= 0xffff_ffff_ffff_ffffu64 as int,
                ;
            }
            let prod: u128 = (da as u128) * (db as u128);
            let s0 = isqrt(prod);
            if s0 == 0 {
                return Err(Error::InsufficientLiquidity);
            }
            (da, db, s0)
        } else {
            let ra = p.reserves.0;
            let rb = p.reserves.1;
            let tl = p.total_liquidity;
            let bound_a = mul_div(db, ra, rb);
            let aa128: u128 = if (da as u128) <= bound_a {
                da as u128
            } else {
                bound_a
            };
            let bound_b = mul_div(da, rb, ra);
            let ab128: u128 = if (db as u128) <= bound_b {
                db as u128
            } else {
                bound_b
            };
            let aa: u64 = aa128 as u64;
            let ab: u64 = ab128 as u64;
            proof {
                assert(aa as int == spec_actual_a(ra as int, rb as int, da as int, db as int));
                assert(ab as int == spec_actual_b(ra as int, rb as int, da as int, db as int));
            }
            if aa < mina || ab < minb {
                return Err(Error::InsufficientAmountOut);
            }
            let sa = mul_div(aa, tl, ra);
            let sb = mul_div(ab, tl, rb);
            let s128: u128 = if sa <= sb {
                sa
            } else {
                sb
            };
            proof {
                assert(s128 as int == spec_shares_minted(
                    ra as int,
                    rb as int,
                    tl as int,
                    aa as int,
                    ab as int,
                ));
            }
            if s128 == 0 {
                return Err(Error::InsufficientLiquidity);
            }
            if s128 > (u64::MAX as u128) {
                return Err(Error::LiquidityOverflow);
            }
            let s: u64 = s128 as u64;
            if s > u64::MAX - tl {
                return Err(Error::LiquidityOverflow);
            }
            if aa > u64::MAX - ra || ab > u64::MAX - rb {
                return Err(Error::ReserveOverflow);
            }
            (aa, ab, s)
        };
        let aa = amounts.0;
        let ab = amounts.1;
        let s = amounts.2;
        proof {
            assert(key.0 < key.1);
        }
        let bal_a = self.ledger.balance_of(caller, key.0);
        if bal_a < aa {
            return Err(Error::InsufficientReserves);
        }
        let bal_b = self.ledger.balance_of(caller, key.1);
        if bal_b < ab {
            return Err(Error::InsufficientReserves);
        }
        let bal_t = self.ledger.balance_of(caller, p.liquidity_token);
        if s > u64::MAX - bal_t {
            return Err(Error::ArithmeticOverflow);
        }
        proof {
            assert(oc == Ok::<(int, int, int), Error>((aa as int, ab as int, s as int)));
        }
        self.ledger.withdraw(caller, key.0, aa);
        self.ledger.withdraw(caller, key.1, ab);
        self.ledger.credit_exact(caller, p.liquidity_token, s);
        let np = LiquidityPool {
            assets: p.assets,
            reserves: (p.reserves.0 + aa, p.reserves.1 + ab),
            total_liquidity: p.total_liquidity + s,
            liquidity_token: p.liquidity_token,
        };
        self.pools[i] = np;
        self.events.push(
            Event::LiquidityAdded {
                provider: caller,
                asset_a: key.0,
                asset_b: key.1,
                amount_a: aa,
                amount_b: ab,
                shares: s,
            },
        );
        proof {
            if p.total_liquidity == 0 {
                assert((aa as int) * (ab as int) >= 1 && aa >= 1 && ab >= 1) by (nonlinear_arith)
                    requires
                        1 <= s as int,
                        (s as int) * (s as int) <= (aa as int) * (ab as int),
                        0 <= aa as int,
                        0 <= ab as int,
                ;
            }
            assert(np.wf());
            assert(forall|k: int|
                0 <= k < old(self).pools@.len() && k != i ==> final(self).pools@[k] == old(
                    self,
                ).pools@[k]);
        }
        if sorted {
            Ok((aa, ab, s))
        } else {
            Ok((ab, aa, s))
        }
    }

    /// Withdraws liquidity: burns `shares` of the caller's liquidity
    /// tokens and pays out the proportional slice of each reserve, rounded
    /// down so the pool never pays more than is backed. The amounts come
    /// back in the order the caller named the assets. Fails, changing
    /// nothing, with `InvalidAssetIn` when no pool exists for the pair,
    /// and otherwise exactly as `spec_remove_outcome` says.
    pub fn remove_liquidity(
        &mut self,
        caller: u64,
        asset_a: u64,
        asset_b: u64,
        shares: u64,
        min_a: u64,
        min_b: u64,
    ) -> (r: Result<(u64, u64), Error>)
        requires
            old(self).wf(),
        ensures
            final(self).wf(),
            final(self).fee_permille == old(self).fee_permille,
            ({
                let key = spec_canonical(asset_a, asset_b);
                let idx = find_pool_idx(old(self).pools@, key);
                let m = spec_oriented(asset_a, asset_b, min_a as int, min_b as int);
                if idx < 0 {
                    r == Err::<(u64, u64), Error>(Error::InvalidAssetIn) && *final(self) == *old(
                        self,
                    )
                } else {
                    let p = old(self).pools@[idx];
                    let oc = spec_remove_outcome(
                        p,
                        old(self).ledger,
                        caller,
                        shares as int,
                        m.0,
                        m.1,
                    );
                    match r {
                        Ok(v) => oc matches Ok(t) && {
                            let aa = t.0;
                            let ab = t.1;
                            &&& v.0 as int == spec_oriented(asset_a, asset_b, aa, ab).0
                            &&& v.1 as int == spec_oriented(asset_a, asset_b, aa, ab).1
                            &&& final(self).pools@ == old(self).pools@.update(
                                idx,
                                (LiquidityPool {
                                    assets: p.assets,
                                    reserves: (
                                        ((p.reserves.0 - aa) as u64),
                                        ((p.reserves.1 - ab) as u64),
                                    ),
                                    total_liquidity: ((p.total_liquidity - shares) as u64),
                                    liquidity_token: p.liquidity_token,
                                }),
                            )
                            &&& final(self).events@ == old(self).events@.push(
                                (Event::LiquidityRemoved {
                                    provider: caller,
                                    asset_a: key.0,
                                    asset_b: key.1,
                                    amount_a: aa as u64,
                                    amount_b: ab as u64,
                                    shares,
                                }),
                            )
                            &&& final(self).ledger.bal(caller, p.liquidity_token) == old(
                                self,
                            ).ledger.bal(caller, p.liquidity_token) - shares
                            &&& final(self).ledger.bal(caller, p.assets.0) == old(
                                self,
                            ).ledger.bal(caller, p.assets.0) + aa
                            &&& final(self).ledger.bal(caller, p.assets.1) == old(
                                self,
                            ).ledger.bal(caller, p.assets.1) + ab
                            &&& forall|w: u64, x: u64|
                                !(w == caller && (x == p.assets.0 || x == p.assets.1 || x
                                    == p.liquidity_token)) ==> final(self).ledger.bal(w, x) == old(
                                    self,
                                ).ledger.bal(w, x)
                        },
                        Err(e) => oc == Err::<(int, int), Error>(e) && *final(self) == *old(self),
                    }
                }
            }),
    {
        let key = canonical_pair(asset_a, asset_b);
        let sorted = asset_a <= asset_b;
        let mina: u64 = if sorted {
            min_a
        } else {
            min_b
        };
        let minb: u64 = if sorted {
            min_b
        } else {
            min_a
        };
        let i: usize = match self.find_pool(key) {
            None => {
                return Err(Error::InvalidAssetIn);
            },
            Some(i) => i,
        };
        let p = self.pools[i];
        proof {
            lemma_find_pool_idx(self.pools@, key);
            assert(p.assets == key);
            assert(p.wf());
        }
        let ghost oc = spec_remove_outcome(
            p,
            self.ledger,
            caller,
            shares as int,
            mina as int,
            minb as int,
        );
        let tl = p.total_liquidity;
        if shares == 0 || shares > tl {
            return Err(Error::InsufficientLiquidity);
        }
        let bal_t = self.ledger.balance_of(caller, p.liquidity_token);
        if bal_t < shares {
            return Err(Error::InsufficientLiquidity);
        }
        let ra = p.reserves.0;
        let rb = p.reserves.1;
        let aa128 = mul_div(ra, shares, tl);
        let ab128 = mul_div(rb, shares, tl);
        proof {
            lemma_remove_amount(ra as int, shares as int, tl as int);
            lemma_remove_amount(rb as int, shares as int, tl as int);
        }
        let aa = aa128 as u64;
        let ab = ab128 as u64;
        if aa < mina || ab < minb {
            return Err(Error::InsufficientAmountOut);
        }
        if aa > ra || ab > rb {
            return Err(Error::InsufficientReserves);
        }
        let bal_a = self.ledger.balance_of(caller, key.0);
        if aa > u64::MAX - bal_a {
            return Err(Error::ArithmeticOverflow);
        }
        let bal_b = self.ledger.balance_of(caller, key.1);
        if ab > u64::MAX - bal_b {
            return Err(Error::ArithmeticOverflow);
        }
        proof {
            assert(oc == Ok::<(int, int), Error>((aa as int, ab as int)));
        }
        self.ledger.withdraw(caller, p.liquidity_token, shares);
        self.ledger.credit_exact(caller, key.0, aa);
        self.ledger.credit_exact(caller, key.1, ab);
        let np = LiquidityPool {
            assets: p.assets,
            reserves: (ra - aa, rb - ab),
            total_liquidity: tl - shares,
            liquidity_token: p.liquidity_token,
        };
        self.pools[i] = np;
        self.events.push(
            Event::LiquidityRemoved {
                provider: caller,
                asset_a: key.0,
                asset_b: key.1,
                amount_a: aa,
                amount_b: ab,
                shares,
            },
        );
        proof {
            assert(np.wf());
            assert(forall|k: int|
                0 <= k < old(self).pools@.len() && k != i ==> final(self).pools@[k] == old(
                    self,
                ).pools@[k]);
        }
        if sorted {
            Ok((aa, ab))
        } else {
            Ok((ab, aa))
        }
    }

    /// Swaps an exact amount of `asset_in` for the pool's other asset: the
    /// trade is priced by the constant-product formula over the
    /// fee-discounted input, the caller receives the output, and the full
    /// input joins the reserves. Fails, changing nothing, with
    /// `InvalidAssetIn` when no pool exists for the pair, and otherwise
    /// exactly as `spec_swap_outcome` says.
    pub fn swap_exact_in(
        &mut self,
        caller: u64,
        asset_a: u64,
        asset_b: u64,
        asset_in: u64,
        amount_in: u64,
        min_amount_out: u64,
    ) -> (r: Result<u64, Error>)
        requires
            old(self).wf(),
        ensures
            final(self).wf(),
            final(self).fee_permille == old(self).fee_permille,
            ({
                let key = spec_canonical(asset_a, asset_b);
                let idx = find_pool_idx(old(self).pools@, key);
                if idx < 0 {
                    r == Err::<u64, Error>(Error::InvalidAssetIn) && *final(self) == *old(self)
                } else {
                    let p = old(self).pools@[idx];
                    let oc = spec_swap_outcome(
                        p,
                        old(self).ledger,
                        caller,
                        asset_in,
                        amount_in as int,
                        min_amount_out as int,
                        old(self).fee_permille as int,
                    );
                    match r {
                        Ok(v) => oc matches Ok(out) && {
                            let aout = spec_other_asset(p, asset_in);
                            let np = final(self).pools@[idx];
                            &&& v as int == out
                            &&& (np.reserves.0 as int) * (np.reserves.1 as int) >= (
                            p.reserves.0 as int) * (p.reserves.1 as int)
                            &&& (old(self).fee_permille >= 1 && amount_in >= 1) ==> (
                            np.reserves.0 as int) * (np.reserves.1 as int) > (p.reserves.0 as int)
                                * (p.reserves.1 as int)
                            &&& final(self).pools@ == old(self).pools@.update(
                                idx,
                                (LiquidityPool {
                                    assets: p.assets,
                                    reserves: (
                                        if asset_in == p.assets.0 {
                                            (
                                                ((p.reserves.0 + amount_in) as u64),
                                                ((p.reserves.1 - out) as u64),
                                            )
                                        } else {
                                            (
                                                ((p.reserves.0 - out) as u64),
                                                ((p.reserves.1 + amount_in) as u64),
                                            )
                                        }
                                    ),
                                    total_liquidity: p.total_liquidity,
                                    liquidity_token: p.liquidity_token,
                                }),
                            )
                            &&& final(self).events@ == old(self).events@.push(
                                (Event::Swapped {
                                    trader: caller,
                                    asset_in,
                                    asset_out: aout,
                                    amount_in,
                                    amount_out: out as u64,
                                }),
                            )
                            &&& final(self).ledger.bal(caller, asset_in) == old(self).ledger.bal(
                                caller,
                                asset_in,
                            ) - amount_in
                            &&& final(self).ledger.bal(caller, aout) == old(self).ledger.bal(
                                caller,
                                aout,
                            ) + out
                            &&& forall|w: u64, x: u64|
                                !(w == caller && (x == asset_in || x == aout))
                                    ==> final(self).ledger.bal(w, x) == old(self).ledger.bal(w, x)
                        },
                        Err(e) => oc == Err::<int, Error>(e) && *final(self) == *old(self),
                    }
                }
            }),
    {
        let key = canonical_pair(asset_a, asset_b);
        let i: usize = match self.find_pool(key) {
            None => {
                return Err(Error::InvalidAssetIn);
            },
            Some(i) => i,
        };
        let p = self.pools[i];
        proof {
            lemma_find_pool_idx(self.pools@, key);
            assert(p.assets == key);
            assert(p.wf());
        }
        let ghost oc = spec_swap_outcome(
            p,
            self.ledger,
            caller,
            asset_in,
            amount_in as int,
            min_amount_out as int,
            self.fee_permille as int,
        );
        if asset_in != p.assets.0 && asset_in != p.assets.1 {
            return Err(Error::InvalidAssetIn);
        }
        let r_in: u64 = if asset_in == p.assets.0 {
            p.reserves.0
        } else {
            p.reserves.1
        };
        let r_out: u64 = if asset_in == p.assets.0 {
            p.reserves.1
        } else {
            p.reserves.0
        };
        let asset_out: u64 = if asset_in == p.assets.0 {
            p.assets.1
        } else {
            p.assets.0
        };
        if r_in == 0 || r_out == 0 {
            return Err(Error::DivisionByZero);
        }
        let eff128 = mul_div(amount_in, 1000 - self.fee_permille, 1000);
        proof {
            lemma_effective_in_bounds(
                amount_in as int,
                self.fee_permille as int,
                eff128 as int,
            );
        }
        let eff = eff128 as u64;
        if amount_in > u64::MAX - r_in {
            return Err(Error::ArithmeticOverflow);
        }
        let out128 = mul_div(eff, r_out, r_in + eff);
        proof {
            lemma_quote_bounds(r_in as int, r_out as int, eff as int, out128 as int);
        }
        let out = out128 as u64;
        if out < min_amount_out {
            return Err(Error::InsufficientAmountOut);
        }
        if out >= r_out {
            return Err(Error::InsufficientReserves);
        }
        let have_in = self.ledger.balance_of(caller, asset_in);
        if have_in < amount_in {
            return Err(Error::InsufficientReserves);
        }
        let have_out = self.ledger.balance_of(caller, asset_out);
        if out > u64::MAX - have_out {
            return Err(Error::ArithmeticOverflow);
        }
        proof {
            assert(oc == Ok::<int, Error>(out as int));
        }
        self.ledger.withdraw(caller, asset_in, amount_in);
        self.ledger.credit_exact(caller, asset_out, out);
        let np = LiquidityPool {
            assets: p.assets,
            reserves: (
                if asset_in == p.assets.0 {
                    (r_in + amount_in, r_out - out)
                } else {
                    (r_out - out, r_in + amount_in)
                }
            ),
            total_liquidity: p.total_liquidity,
            liquidity_token: p.liquidity_token,
        };
        self.pools[i] = np;
        self.events.push(
            Event::Swapped {
                trader: caller,
                asset_in,
                asset_out,
                amount_in,
                amount_out: out,
            },
        );
        proof {
            lemma_constant_product(
                r_in as int,
                r_out as int,
                amount_in as int,
                eff as int,
                out as int,
            );
            assert((r_in as int + amount_in as int) * (r_out as int - out as int) == (
            r_out as int - out as int) * (r_in as int + amount_in as int)) by (nonlinear_arith);
            assert(np.wf());
            assert(forall|k: int|
                0 <= k < old(self).pools@.len() && k != i ==> final(self).pools@[k] == old(
                    self,
                ).pools@[k]);
        }
        Ok(out)
    }

    /// Prices a swap without executing it, with arithmetic identical to
    /// `swap_exact_in`: while the reserves do not move, an executed swap
    /// pays exactly the quoted amount. Fails with `InvalidAssetIn` when
    /// the pool is missing or `asset_in` is not one of its assets, and
    /// with `DivisionByZero` when the pool is unfunded.
    pub fn quote(&self, asset_a: u64, asset_b: u64, asset_in: u64, amount_in: u64) -> (r: Result<
        u64,
        Error,
    >)
        requires
            self.wf(),
        ensures
            ({
                let key = spec_canonical(asset_a, asset_b);
                let idx = find_pool_idx(self.pools@, key);
                if idx < 0 {
                    r == Err::<u64, Error>(Error::InvalidAssetIn)
                } else {
                    let p = self.pools@[idx];
                    if asset_in != p.assets.0 && asset_in != p.assets.1 {
                        r == Err::<u64, Error>(Error::InvalidAssetIn)
                    } else {
                        let r_in = if asset_in == p.assets.0 {
                            p.reserves.0 as int
                        } else {
                            p.reserves.1 as int
                        };
                        let r_out = if asset_in == p.assets.0 {
                            p.reserves.1 as int
                        } else {
                            p.reserves.0 as int
                        };
                        if r_in == 0 || r_out == 0 {
                            r == Err::<u64, Error>(Error::DivisionByZero)
                        } else {
                            let eff = spec_effective_in(
                                amount_in as int,
                                self.fee_permille as int,
                            );
                            r matches Ok(v) && v as int == spec_quote_amount(r_in, r_out, eff)
                        }
                    }
                }
            }),
    {
        let key = canonical_pair(asset_a, asset_b);
        let i: usize = match self.find_pool(key) {
            None => {
                return Err(Error::InvalidAssetIn);
            },
            Some(i) => i,
        };
        let p = self.pools[i];
        proof {
            lemma_find_pool_idx(self.pools@, key);
            assert(p.wf());
        }
        if asset_in != p.assets.0 && asset_in != p.assets.1 {
            return Err(Error::InvalidAssetIn);
        }
        let r_in: u64 = if asset_in == p.assets.0 {
            p.reserves.0
        } else {
            p.reserves.1
        };
        let r_out: u64 = if asset_in == p.assets.0 {
            p.reserves.1
        } else {
            p.reserves.0
        };
        if r_in == 0 || r_out == 0 {
            return Err(Error::DivisionByZero);
        }
        let eff128 = mul_div(amount_in, 1000 - self.fee_permille, 1000);
        proof {
            lemma_effective_in_bounds(
                amount_in as int,
                self.fee_permille as int,
                eff128 as int,
            );
        }
        let eff = eff128 as u64;
        proof {
            assert((eff as int) * (r_out as int) <= u128::MAX as int) by (nonlinear_arith)
                requires
                    0 <= (eff as int) && (eff as int) <= 0xffff_ffff_ffff_ffffu64 as int,
                    0 <= (r_out as int) && (r_out as int) <= 0xffff_ffff_ffff_ffffu64 as int,
            ;
        }
        let out128: u128 = ((eff as u128) * (r_out as u128)) / ((r_in as u128) + (eff as u128));
        proof {
            lemma_quote_bounds(r_in as int, r_out as int, eff as int, out128 as int);
        }
        Ok(out128 as u64)
    }
}

} // verus!
