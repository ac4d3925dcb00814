use crate::errors::Error;
use vstd::prelude::*;

verus! {

/// One account's holding of one asset.
#[derive(Clone, Copy, Debug)]
pub struct LedgerEntry {
    pub account: u64,
    pub asset: u64,
    pub amount: u64,
}

/// The fungible-asset balance ledger: every account's balance of every
/// asset, held as entries with at most one entry per (account, asset) pair.
#[derive(Debug)]
pub struct Ledger {
    pub entries: Vec<LedgerEntry>,
}

/// The balance the entries give `who` in `asset`: the amount of the last
/// matching entry, or zero when none matches.
pub open spec fn bal_in(s: Seq<LedgerEntry>, who: u64, asset: u64) -> int
    decreases s.len(),
{
    if s.len() == 0 {
        0
    } else if s.last().account == who && s.last().asset == asset {
        s.last().amount as int
    } else {
        bal_in(s.drop_last(), who, asset)
    }
}

/// At most one entry per (account, asset) pair.
pub open spec fn wf_entries(s: Seq<LedgerEntry>) -> bool {
    forall|i: int, j: int|
        0 <= i < j < s.len() ==> !(s[i].account == s[j].account && s[i].asset == s[j].asset)
}

/// In a well-formed ledger, a matching entry carries the balance.
pub proof fn lemma_bal_found(s: Seq<LedgerEntry>, i: int, who: u64, asset: u64)
    requires
        wf_entries(s),
        0 <= i < s.len(),
        s[i].account == who,
        s[i].asset == asset,
    ensures
        bal_in(s, who, asset) == s[i].amount as int,
    decreases s.len(),
{
    if i < s.len() - 1 {
        assert(!(s[i].account == s[s.len() - 1].account && s[i].asset == s[s.len() - 1].asset));
        assert(forall|k: int| 0 <= k < s.len() - 1 ==> s.drop_last()[k] == s[k]);
        lemma_bal_found(s.drop_last(), i, who, asset);
    }
}

/// With no matching entry the balance is zero.
pub proof fn lemma_bal_absent(s: Seq<LedgerEntry>, who: u64, asset: u64)
    requires
        forall|j: int| 0 <= j < s.len() ==> !(s[j].account == who && s[j].asset == asset),
    ensures
        bal_in(s, who, asset) == 0,
    decreases s.len(),
{
    if s.len() > 0 {
        assert(forall|k: int| 0 <= k < s.len() - 1 ==> s.drop_last()[k] == s[k]);
        lemma_bal_absent(s.drop_last(), who, asset);
    }
}

/// Overwriting an entry in place leaves every other key's balance alone.
pub proof fn lemma_bal_update_other(s: Seq<LedgerEntry>, i: int, e: LedgerEntry, w: u64, a: u64)
    requires
        0 <= i < s.len(),
        s[i].account == e.account,
        s[i].asset == e.asset,
        !(w == e.account && a == e.asset),
    ensures
        bal_in(s.update(i, e), w, a) == bal_in(s, w, a),
    decreases s.len(),
{
    let t = s.update(i, e);
    if i == s.len() - 1 {
        assert(t.last() == e);
        assert(s.last() == s[i]);
        assert(t.drop_last() =~= s.drop_last());
    } else {
        assert(t.last() == s.last());
        assert(forall|k: int| 0 <= k < s.len() - 1 ==> s.drop_last()[k] == s[k]);
        assert(t.drop_last() =~= s.drop_last().update(i, e));
        lemma_bal_update_other(s.drop_last(), i, e, w, a);
    }
}

/// Overwriting the one entry of a key sets that key's balance to the new
/// amount.
pub proof fn lemma_bal_update_same(s: Seq<LedgerEntry>, i: int, e: LedgerEntry)
    requires
        wf_entries(s),
        0 <= i < s.len(),
        s[i].account == e.account,
        s[i].asset == e.asset,
    ensures
        bal_in(s.update(i, e), e.account, e.asset) == e.amount as int,
    decreases s.len(),
{
    let t = s.update(i, e);
    if i == s.len() - 1 {
        assert(t.last() == e);
    } else {
        assert(t.last() == s.last());
        assert(!(s[i].account == s[s.len() - 1].account && s[i].asset == s[s.len() - 1].asset));
        assert(forall|k: int| 0 <= k < s.len() - 1 ==> s.drop_last()[k] == s[k]);
        assert(t.drop_last() =~= s.drop_last().update(i, e));
        lemma_bal_update_same(s.drop_last(), i, e);
    }
}

/// Overwriting the one entry of a key changes that key's balance to the new
/// amount and no other balance.
pub proof fn lemma_bal_update(s: Seq<LedgerEntry>, i: int, e: LedgerEntry)
    requires
        wf_entries(s),
        0 <= i < s.len(),
        s[i].account == e.account,
        s[i].asset == e.asset,
    ensures
        wf_entries(s.update(i, e)),
        bal_in(s.update(i, e), e.account, e.asset) == e.amount as int,
        forall|w: u64, a: u64|
            !(w == e.account && a == e.asset) ==> bal_in(s.update(i, e), w, a) == bal_in(s, w, a),
{
    let t = s.update(i, e);
    assert(wf_entries(t)) by {
        assert(forall|k: int|
            0 <= k < s.len() ==> t[k].account == s[k].account && t[k].asset == s[k].asset);
    }
    lemma_bal_update_same(s, i, e);
    assert forall|w: u64, a: u64|
        !(w == e.account && a == e.asset) implies bal_in(s.update(i, e), w, a) == bal_in(
        s,
        w,
        a,
    ) by {
        lemma_bal_update_other(s, i, e, w, a);
    }
}

/// Appending an entry for a fresh key gives that key its amount as balance,
/// changes no other balance, and keeps the entries well-formed.
pub proof fn lemma_bal_push(s: Seq<LedgerEntry>, e: LedgerEntry)
    requires
        wf_entries(s),
        forall|j: int| 0 <= j < s.len() ==> !(s[j].account == e.account && s[j].asset == e.asset),
    ensures
        wf_entries(s.push(e)),
        bal_in(s.push(e), e.account, e.asset) == e.amount as int,
        forall|w: u64, a: u64|
            !(w == e.account && a == e.asset) ==> bal_in(s.push(e), w, a) == bal_in(s, w, a),
{
    let t = s.push(e);
    assert(forall|k: int| 0 <= k < s.len() ==> t[k] == s[k]);
    assert(t.last() == e);
    assert(t.drop_last() =~= s);
}

impl Ledger {
    /// Well-formedness: at most one entry per (account, asset) pair.
    pub open spec fn wf(self) -> bool {
        wf_entries(self.entries@)
    }

    /// The balance of `who` in `asset`, as the ledger's mathematical model.
    pub open spec fn bal(self, who: u64, asset: u64) -> int {
        bal_in(self.entries@, who, asset)
    }

    /// An empty ledger: every balance is zero.
    pub fn new() -> (r: Ledger)
        ensures
            r.wf(),
            forall|w: u64, a: u64| r.bal(w, a) == 0,
    {
        let l = Ledger { entries: Vec::new() };
        proof {
            assert(forall|w: u64, a: u64| bal_in(l.entries@, w, a) == 0);
        }
        l
    }

    /// Index of the entry for (who, asset), if one exists.
    fn find_idx(&self, who: u64, asset: u64) -> (r: Option<usize>)
        ensures
            match r {
                Some(i) => i < self.entries@.len() && self.entries@[i as int].account == who
                    && self.entries@[i as int].asset == asset,
                None => forall|j: int|
                    0 <= j < self.entries@.len() ==> !(self.entries@[j].account == who
                        && self.entries@[j].asset == asset),
            },
    {
        let mut k: usize = 0;
        while k < self.entries.len()
            invariant
                k <= self.entries@.len(),
                forall|j: int|
                    0 <= j < k ==> !(self.entries@[j].account == who && self.entries@[j].asset
                        == asset),
            decreases self.entries@.len() - k,
        {
            let e = self.entries[k];
            if e.account == who && e.asset == asset {
                return Some(k);
            }
            k = k + 1;
        }
        None
    }

    /// The balance `who` holds of `asset`.
    pub fn balance_of(&self, who: u64, asset: u64) -> (r: u64)
        requires
            self.wf(),
        ensures
            r as int == self.bal(who, asset),
    {
        match self.find_idx(who, asset) {
            Some(i) => {
                proof {
                    lemma_bal_found(self.entries@, i as int, who, asset);
                }
                self.entries[i].amount
            },
            None => {
                proof {
                    lemma_bal_absent(self.entries@, who, asset);
                }
                0
            },
        }
    }

    /// Credits `amount` to `who`'s balance of `asset`. Fails with
    /// `ArithmeticOverflow`, changing nothing, exactly when the balance
    /// would leave the 64-bit domain.
    pub fn credit(&mut self, who: u64, asset: u64, amount: u64) -> (r: Result<(), Error>)
        requires
            old(self).wf(),
        ensures
            final(self).wf(),
            match r {
                Ok(()) => {
                    &&& old(self).bal(who, asset) + amount <= u64::MAX
                    &&& final(self).bal(who, asset) == old(self).bal(who, asset) + amount
                    &&& forall|w: u64, a: u64|
                        !(w == who && a == asset) ==> final(self).bal(w, a) == old(self).bal(w, a)
                },
                Err(e) => {
                    &&& e == Error::ArithmeticOverflow
                    &&& *final(self) == *old(self)
                    &&& old(self).bal(who, asset) + amount > u64::MAX
                },
            },
    {
        match self.find_idx(who, asset) {
            Some(i) => {
                proof {
                    lemma_bal_found(self.entries@, i as int, who, asset);
                }
                let cur = self.entries[i].amount;
                if amount > u64::MAX - cur {
                    return Err(Error::ArithmeticOverflow);
                }
                let e = LedgerEntry { account: who, asset, amount: cur + amount };
                proof {
                    lemma_bal_update(self.entries@, i as int, e);
                }
                self.entries[i] = e;
                Ok(())
            },
            None => {
                proof {
                    lemma_bal_absent(self.entries@, who, asset);
                }
                let e = LedgerEntry { account: who, asset, amount };
                proof {
                    lemma_bal_push(self.entries@, e);
                }
                self.entries.push(e);
                Ok(())
            },
        }
    }

    /// Credits `amount` to `who`'s balance of `asset`; the caller has
    /// already checked that the balance has room for it.
    pub fn credit_exact(&mut self, who: u64, asset: u64, amount: u64)
        requires
            old(self).wf(),
            old(self).bal(who, asset) + amount <= u64::MAX,
        ensures
            final(self).wf(),
            final(self).bal(who, asset) == old(self).bal(who, asset) + amount,
            forall|w: u64, a: u64|
                !(w == who && a == asset) ==> final(self).bal(w, a) == old(self).bal(w, a),
    {
        match self.find_idx(who, asset) {
            Some(i) => {
                proof {
                    lemma_bal_found(self.entries@, i as int, who, asset);
                }
                let cur = self.entries[i].amount;
                let e = LedgerEntry { account: who, asset, amount: cur + amount };
                proof {
                    lemma_bal_update(self.entries@, i as int, e);
                }
                self.entries[i] = e;
            },
            None => {
                proof {
                    lemma_bal_absent(self.entries@, who, asset);
                }
                let e = LedgerEntry { account: who, asset, amount };
                proof {
                    lemma_bal_push(self.entries@, e);
                }
                self.entries.push(e);
            },
        }
    }

    /// Debits `amount` from `who`'s balance of `asset`; the caller has
    /// already checked that the balance covers it.
    pub fn withdraw(&mut self, who: u64, asset: u64, amount: u64)
        requires
            old(self).wf(),
            old(self).bal(who, asset) >= amount,
        ensures
            final(self).wf(),
            final(self).bal(who, asset) == old(self).bal(who, asset) - amount,
            forall|w: u64, a: u64|
                !(w == who && a == asset) ==> final(self).bal(w, a) == old(self).bal(w, a),
    {
        match self.find_idx(who, asset) {
            Some(i) => {
                proof {
                    lemma_bal_found(self.entries@, i as int, who, asset);
                }
                let cur = self.entries[i].amount;
                let e = LedgerEntry { account: who, asset, amount: cur - amount };
                proof {
                    lemma_bal_update(self.entries@, i as int, e);
                }
                self.entries[i] = e;
            },
            None => {
                proof {
                    lemma_bal_absent(self.entries@, who, asset);
                }
            },
        }
    }
}

} // verus!
