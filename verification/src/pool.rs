use vstd::prelude::*;

verus! {

/// One trading pair's market state.
#[derive(Clone, Copy, Debug)]
pub struct LiquidityPool {
    /// The unordered pair, stored in canonical order: the numerically
    /// smaller asset identifier first.
    pub assets: (u64, u64),
    /// Reserve quantities, matching the canonical asset order.
    pub reserves: (u64, u64),
    /// Outstanding liquidity shares.
    pub total_liquidity: u64,
    /// The asset identifier of this pool's share token.
    pub liquidity_token: u64,
}

impl LiquidityPool {
    /// Well-formedness: the pair is canonical and distinct, the share token
    /// is not one of the traded assets, an empty pool holds no reserves, and
    /// a pool with outstanding shares backs them with both reserves positive.
    pub open spec fn wf(self) -> bool {
        &&& self.assets.0 < self.assets.1
        &&& self.liquidity_token != self.assets.0
        &&& self.liquidity_token != self.assets.1
        &&& (self.total_liquidity == 0 <==> (self.reserves.0 == 0 && self.reserves.1 == 0))
        &&& (self.total_liquidity > 0 ==> self.reserves.0 > 0 && self.reserves.1 > 0)
    }
}

/// Canonical order of an unordered pair: the smaller identifier first, so
/// that (a, b) and (b, a) name the same pool.
pub open spec fn spec_canonical(a: u64, b: u64) -> (u64, u64) {
    if a <= b {
        (a, b)
    } else {
        (b, a)
    }
}

/// Canonicalizes a pair of asset identifiers.
pub fn canonical_pair(a: u64, b: u64) -> (r: (u64, u64))
    ensures
        r == spec_canonical(a, b),
{
    if a <= b {
        (a, b)
    } else {
        (b, a)
    }
}

/// First index holding a pool for the canonical pair `key`, or -1 if none.
pub open spec fn find_pool_idx(pools: Seq<LiquidityPool>, key: (u64, u64)) -> int
    decreases pools.len(),
{
    if pools.len() == 0 {
        -1
    } else if pools[0].assets == key {
        0
    } else {
        let rest = find_pool_idx(pools.drop_first(), key);
        if rest < 0 {
            -1
        } else {
            rest + 1
        }
    }
}

/// `find_pool_idx` returns -1 exactly when no pool has the key, and
/// otherwise the first index whose pool has it.
pub proof fn lemma_find_pool_idx(pools: Seq<LiquidityPool>, key: (u64, u64))
    ensures
        find_pool_idx(pools, key) >= -1,
        find_pool_idx(pools, key) == -1 <==> (forall|j: int|
            0 <= j < pools.len() ==> pools[j].assets != key),
        find_pool_idx(pools, key) >= 0 ==> {
            let i = find_pool_idx(pools, key);
            &&& i < pools.len()
            &&& pools[i].assets == key
            &&& forall|j: int| 0 <= j < i ==> pools[j].assets != key
        },
    decreases pools.len(),
{
    if pools.len() > 0 {
        lemma_find_pool_idx(pools.drop_first(), key);
        if pools[0].assets != key {
            assert(forall|j: int| 1 <= j < pools.len() ==> pools[j] == pools.drop_first()[j - 1]);
        }
    }
}

} // verus!
