//! The custody ledger: per (account, token) available and locked balances.
//!
//! Every mutating operation has an exact contract over the spec-level balance
//! table, states precisely when it fails, and mutates nothing on failure.
//! `lock`, `unlock` and `settle` are proved to conserve each token's total
//! (available + locked summed over all accounts): no value is created or
//! destroyed by reserving or settling funds. Only `credit` raises a token's
//! total and only `withdraw` lowers it.

use vstd::prelude::*;

use crate::types::DexError;

verus! {

/// One row of the balance table.
#[derive(Clone, Copy, PartialEq, Eq, Structural, Debug)]
pub struct BalanceEntry {
    pub account: u64,
    pub token: u64,
    pub available: u64,
    pub locked: u64,
}

/// The balance table. Rows are keyed by (account, token); `wf` says the keys
/// are unique and every token's total fits in a `u64`.
pub struct Ledger {
    pub entries: Vec<BalanceEntry>,
}

/// Available balance of (a, t) in a row sequence; 0 when no row matches.
pub open spec fn avail_in(s: Seq<BalanceEntry>, a: u64, t: u64) -> u64
    decreases s.len(),
{
    if s.len() == 0 {
        0
    } else if s.last().account == a && s.last().token == t {
        s.last().available
    } else {
        avail_in(s.drop_last(), a, t)
    }
}

/// Locked balance of (a, t) in a row sequence; 0 when no row matches.
pub open spec fn locked_in(s: Seq<BalanceEntry>, a: u64, t: u64) -> u64
    decreases s.len(),
{
    if s.len() == 0 {
        0
    } else if s.last().account == a && s.last().token == t {
        s.last().locked
    } else {
        locked_in(s.drop_last(), a, t)
    }
}

/// What one row contributes to token t's total.
pub open spec fn entry_total(e: BalanceEntry, t: u64) -> int {
    if e.token == t {
        e.available + e.locked
    } else {
        0
    }
}

/// Token t's total: available + locked summed over all accounts.
pub open spec fn total_in(s: Seq<BalanceEntry>, t: u64) -> int
    decreases s.len(),
{
    if s.len() == 0 {
        0
    } else {
        total_in(s.drop_last(), t) + entry_total(s.last(), t)
    }
}

/// Row keys are pairwise distinct.
pub open spec fn keys_unique(s: Seq<BalanceEntry>) -> bool {
    forall|i: int, j: int|
        0 <= i < j < s.len() ==> !(#[trigger] s[i].account == #[trigger] s[j].account
            && s[i].token == s[j].token)
}

impl Ledger {
    /// Available balance of (a, t); 0 for an absent row.
    pub open spec fn avail(self, a: u64, t: u64) -> u64 {
        avail_in(self.entries@, a, t)
    }

    /// Locked balance of (a, t); 0 for an absent row.
    pub open spec fn locked(self, a: u64, t: u64) -> u64 {
        locked_in(self.entries@, a, t)
    }

    /// Token t's total holdings across all accounts.
    pub open spec fn total(self, t: u64) -> int {
        total_in(self.entries@, t)
    }

    /// Unique keys, and every token total fits the working width. The bound
    /// is what makes settlement provably overflow-free.
    pub open spec fn wf(self) -> bool {
        &&& keys_unique(self.entries@)
        &&& forall|t: u64| #[trigger] total_in(self.entries@, t) <= u64::MAX
    }

    /// An empty ledger: every balance 0.
    pub fn new() -> (r: Ledger)
        ensures
            r.wf(),
            forall|a: u64, t: u64| #[trigger] r.avail(a, t) == 0 && r.locked(a, t) == 0,
            forall|t: u64| #[trigger] r.total(t) == 0,
    {
        Ledger { entries: Vec::new() }
    }
}

/// Token totals are sums of non-negative row contributions.
pub proof fn lemma_total_nonneg(s: Seq<BalanceEntry>, t: u64)
    ensures
        total_in(s, t) >= 0,
    decreases s.len(),
{
    if s.len() > 0 {
        lemma_total_nonneg(s.drop_last(), t);
    }
}

/// A prefix's token total never exceeds the whole sequence's.
pub proof fn lemma_total_take_le(s: Seq<BalanceEntry>, i: int, t: u64)
    requires
        0 <= i <= s.len(),
    ensures
        total_in(s.take(i), t) <= total_in(s, t),
    decreases s.len() - i,
{
    if i == s.len() {
        assert(s.take(i) =~= s);
    } else {
        let nxt = s.take(i + 1);
        assert(nxt.drop_last() =~= s.take(i));
        assert(nxt.last() == s[i]);
        lemma_total_take_le(s, i + 1, t);
    }
}

/// A row whose key matches carries exactly the looked-up balances, given
/// unique keys.
pub proof fn lemma_bal_at_index(s: Seq<BalanceEntry>, i: int)
    requires
        keys_unique(s),
        0 <= i < s.len(),
    ensures
        avail_in(s, s[i].account, s[i].token) == s[i].available,
        locked_in(s, s[i].account, s[i].token) == s[i].locked,
    decreases s.len(),
{
    if i < s.len() - 1 {
        assert(keys_unique(s.drop_last()));
        assert(s.drop_last()[i] == s[i]);
        lemma_bal_at_index(s.drop_last(), i);
    }
}

/// If no row matches (a, t), both balances are 0.
pub proof fn lemma_bal_absent(s: Seq<BalanceEntry>, a: u64, t: u64)
    requires
        forall|i: int| 0 <= i < s.len() ==> !(#[trigger] s[i].account == a && s[i].token == t),
    ensures
        avail_in(s, a, t) == 0,
        locked_in(s, a, t) == 0,
    decreases s.len(),
{
    if s.len() > 0 {
        assert(forall|i: int|
            0 <= i < s.drop_last().len() ==> !(#[trigger] s.drop_last()[i].account == a
                && s.drop_last()[i].token == t)) by {
            assert(forall|i: int|
                0 <= i < s.drop_last().len() ==> #[trigger] s.drop_last()[i] == s[i]);
        }
        lemma_bal_absent(s.drop_last(), a, t);
    }
}

/// Replacing row i (key kept) rewrites exactly that key's balances.
pub proof fn lemma_bal_update(s: Seq<BalanceEntry>, i: int, e: BalanceEntry)
    requires
        keys_unique(s),
        0 <= i < s.len(),
        e.account == s[i].account,
        e.token == s[i].token,
    ensures
        keys_unique(s.update(i, e)),
        avail_in(s.update(i, e), e.account, e.token) == e.available,
        locked_in(s.update(i, e), e.account, e.token) == e.locked,
        forall|a: u64, t: u64|
            !(a == e.account && t == e.token) ==> #[trigger] avail_in(s.update(i, e), a, t)
                == avail_in(s, a, t),
        forall|a: u64, t: u64|
            !(a == e.account && t == e.token) ==> #[trigger] locked_in(s.update(i, e), a, t)
                == locked_in(s, a, t),
        forall|t: u64| #[trigger] total_in(s.update(i, e), t) == total_in(s, t) - entry_total(
            s[i], t) + entry_total(e, t),
    decreases s.len(),
{
    let su = s.update(i, e);
    assert(keys_unique(su));
    if i == s.len() - 1 {
        assert(su.drop_last() =~= s.drop_last());
        assert(su.last() == e);
        lemma_bal_at_index(s, i);
    } else {
        assert(su.drop_last() =~= s.drop_last().update(i, e));
        assert(su.last() == s.last());
        assert(keys_unique(s.drop_last()));
        assert(s.drop_last()[i] == s[i]);
        lemma_bal_update(s.drop_last(), i, e);
    }
    assert forall|a: u64, t: u64| !(a == e.account && t == e.token) implies #[trigger] avail_in(
        s.update(i, e),
        a,
        t,
    ) == avail_in(s, a, t) by {
        if su.last().account == a && su.last().token == t {
        } else {
            assert(avail_in(su, a, t) == avail_in(su.drop_last(), a, t));
            assert(avail_in(s, a, t) == avail_in(s.drop_last(), a, t));
        }
    }
    assert forall|a: u64, t: u64| !(a == e.account && t == e.token) implies #[trigger] locked_in(
        s.update(i, e),
        a,
        t,
    ) == locked_in(s, a, t) by {
        if su.last().account == a && su.last().token == t {
        } else {
            assert(locked_in(su, a, t) == locked_in(su.drop_last(), a, t));
            assert(locked_in(s, a, t) == locked_in(s.drop_last(), a, t));
        }
    }
    assert forall|t: u64| #[trigger] total_in(s.update(i, e), t) == total_in(s, t) - entry_total(
        s[i],
        t,
    ) + entry_total(e, t) by {
        assert(total_in(su, t) == total_in(su.drop_last(), t) + entry_total(su.last(), t));
        assert(total_in(s, t) == total_in(s.drop_last(), t) + entry_total(s.last(), t));
    }
}

/// Appending a fresh key adds its balances and leaves every other key as it
/// was.
pub proof fn lemma_bal_push(s: Seq<BalanceEntry>, e: BalanceEntry)
    requires
        forall|i: int|
            0 <= i < s.len() ==> !(#[trigger] s[i].account == e.account && s[i].token == e.token),
        keys_unique(s),
    ensures
        keys_unique(s.push(e)),
        avail_in(s.push(e), e.account, e.token) == e.available,
        locked_in(s.push(e), e.account, e.token) == e.locked,
        forall|a: u64, t: u64|
            !(a == e.account && t == e.token) ==> #[trigger] avail_in(s.push(e), a, t) == avail_in(
                s, a, t),
        forall|a: u64, t: u64|
            !(a == e.account && t == e.token) ==> #[trigger] locked_in(s.push(e), a, t)
                == locked_in(s, a, t),
        forall|t: u64| #[trigger] total_in(s.push(e), t) == total_in(s, t) + entry_total(e, t),
{
    let sp = s.push(e);
    assert(sp.drop_last() =~= s);
    assert(sp.last() == e);
    assert(forall|i: int, j: int|
        0 <= i < j < sp.len() ==> !(#[trigger] sp[i].account == #[trigger] sp[j].account
            && sp[i].token == sp[j].token)) by {
        assert(forall|i: int| 0 <= i < s.len() ==> #[trigger] sp[i] == s[i]);
    }
}

/// One key's holdings never exceed the token total.
pub proof fn lemma_bal_le_total(s: Seq<BalanceEntry>, a: u64, t: u64)
    requires
        keys_unique(s),
    ensures
        avail_in(s, a, t) + locked_in(s, a, t) <= total_in(s, t),
    decreases s.len(),
{
    if s.len() > 0 {
        assert(keys_unique(s.drop_last()));
        lemma_bal_le_total(s.drop_last(), a, t);
        lemma_total_nonneg(s.drop_last(), t);
        if s.last().account == a && s.last().token == t {
            // the matching row is the last one; no earlier row matches
            assert(forall|i: int|
                0 <= i < s.drop_last().len() ==> !(#[trigger] s.drop_last()[i].account == a
                    && s.drop_last()[i].token == t)) by {
                assert(forall|i: int|
                    0 <= i < s.drop_last().len() ==> #[trigger] s.drop_last()[i] == s[i]);
            }
            lemma_bal_absent(s.drop_last(), a, t);
        }
    }
}

/// The available part of one key plus the locked part of another (same token)
/// still fit under the token total: what settlement needs to rule overflow
/// out.
pub proof fn lemma_two_parts_le_total(s: Seq<BalanceEntry>, a1: u64, a2: u64, t: u64)
    requires
        keys_unique(s),
    ensures
        a1 != a2 ==> avail_in(s, a1, t) + locked_in(s, a2, t) <= total_in(s, t),
        a1 == a2 ==> avail_in(s, a1, t) + locked_in(s, a2, t) <= total_in(s, t),
    decreases s.len(),
{
    if a1 == a2 {
        lemma_bal_le_total(s, a1, t);
    } else if s.len() > 0 {
        assert(keys_unique(s.drop_last()));
        lemma_two_parts_le_total(s.drop_last(), a1, a2, t);
        lemma_total_nonneg(s.drop_last(), t);
        let last = s.last();
        if last.token == t && (last.account == a1 || last.account == a2) {
            // the other key's balance is found strictly earlier
            if last.account == a1 {
                lemma_bal_le_total(s.drop_last(), a2, t);
            } else {
                lemma_bal_le_total(s.drop_last(), a1, t);
            }
        }
    }
}

impl Ledger {
    /// Index of the row for (a, t), if any; `None` means the key is absent
    /// everywhere.
    fn find(&self, a: u64, t: u64) -> (r: Option<usize>)
        ensures
            match r {
                Some(i) => i < self.entries@.len() && self.entries@[i as int].account == a
                    && self.entries@[i as int].token == t,
                None => forall|i: int|
                    0 <= i < self.entries@.len() ==> !(#[trigger] self.entries@[i].account == a
                        && self.entries@[i].token == t),
            },
    {
        let n = self.entries.len();
        let mut i: usize = 0;
        while i < n
            invariant
                n == self.entries@.len(),
                i <= n,
                forall|j: int|
                    0 <= j < i ==> !(#[trigger] self.entries@[j].account == a
                        && self.entries@[j].token == t),
            decreases n - i,
        {
            let e = self.entries[i];
            if e.account == a && e.token == t {
                return Some(i);
            }
            i = i + 1;
        }
        None
    }

    /// Token t's total, computed exactly. The well-formedness bound keeps the
    /// running sum inside a u128.
    pub fn total_exec(&self, t: u64) -> (r: u128)
        requires
            self.wf(),
        ensures
            r == total_in(self.entries@, t),
            r <= u64::MAX,
    {
        let n = self.entries.len();
        let mut i: usize = 0;
        let mut acc: u128 = 0;
        proof {
            assert(self.entries@.take(0) =~= Seq::<BalanceEntry>::empty());
        }
        while i < n
            invariant
                self.wf(),
                n == self.entries@.len(),
                i <= n,
                acc == total_in(self.entries@.take(i as int), t),
                acc <= u64::MAX,
            decreases n - i,
        {
            let e = self.entries[i];
            proof {
                let pre = self.entries@.take(i as int);
                let post = self.entries@.take(i + 1);
                assert(post.drop_last() =~= pre);
                assert(post.last() == self.entries@[i as int]);
                lemma_total_take_le(self.entries@, i + 1, t);
                assert(total_in(self.entries@, t) <= u64::MAX);
            }
            if e.token == t {
                acc = acc + e.available as u128 + e.locked as u128;
            }
            i = i + 1;
        }
        proof {
            assert(self.entries@.take(n as int) =~= self.entries@);
        }
        acc
    }

    /// Reads (available, locked) for (a, t).
    pub fn balance_of(&self, a: u64, t: u64) -> (r: (u64, u64))
        requires
            self.wf(),
        ensures
            r.0 == self.avail(a, t),
            r.1 == self.locked(a, t),
    {
        match self.find(a, t) {
            Some(i) => {
                let e = self.entries[i];
                proof {
                    lemma_bal_at_index(self.entries@, i as int);
                }
                (e.available, e.locked)
            },
            None => {
                proof {
                    lemma_bal_absent(self.entries@, a, t);
                }
                (0, 0)
            },
        }
    }

    /// Adds `amount` to (a, t)'s available balance (a deposit). Fails
    /// `Overflow` exactly when the token's total would leave the working
    /// width; on failure nothing changes.
    pub fn credit(&mut self, a: u64, t: u64, amount: u64) -> (r: Result<(), DexError>)
        requires
            old(self).wf(),
        ensures
            final(self).wf(),
            match r {
                Ok(()) => {
                    &&& old(self).total(t) + amount <= u64::MAX
                    &&& final(self).avail(a, t) == old(self).avail(a, t) + amount
                    &&& forall|a2: u64, t2: u64|
                        !(a2 == a && t2 == t) ==> #[trigger] final(self).avail(a2, t2) == old(
                            self).avail(a2, t2)
                    &&& forall|a2: u64, t2: u64| #[trigger] final(self).locked(a2, t2) == old(
                        self).locked(a2, t2)
                    &&& final(self).total(t) == old(self).total(t) + amount
                    &&& forall|t2: u64|
                        t2 != t ==> #[trigger] final(self).total(t2) == old(self).total(t2)
                },
                Err(e) => {
                    &&& e == DexError::Overflow
                    &&& old(self).total(t) + amount > u64::MAX
                    &&& *final(self) == *old(self)
                },
            },
    {
        let tot = self.total_exec(t);
        if tot + amount as u128 > u64::MAX as u128 {
            return Err(DexError::Overflow);
        }
        proof {
            lemma_bal_le_total(self.entries@, a, t);
            lemma_total_nonneg(self.entries@, t);
        }
        match self.find(a, t) {
            Some(i) => {
                let e = self.entries[i];
                proof {
                    lemma_bal_at_index(self.entries@, i as int);
                }
                let e2 = BalanceEntry { available: e.available + amount, ..e };
                proof {
                    lemma_bal_update(self.entries@, i as int, e2);
                }
                self.entries[i] = e2;
            },
            None => {
                proof {
                    lemma_bal_absent(self.entries@, a, t);
                    lemma_bal_push(
                        self.entries@,
                        BalanceEntry { account: a, token: t, available: amount, locked: 0 },
                    );
                }
                self.entries.push(
                    BalanceEntry { account: a, token: t, available: amount, locked: 0 },
                );
            },
        }
        Ok(())
    }

    /// Removes `amount` from (a, t)'s available balance. Fails
    /// `InsufficientFunds` exactly when available < amount; on failure nothing
    /// changes.
    pub fn withdraw(&mut self, a: u64, t: u64, amount: u64) -> (r: Result<(), DexError>)
        requires
            old(self).wf(),
        ensures
            final(self).wf(),
            match r {
                Ok(()) => {
                    &&& old(self).avail(a, t) >= amount
                    &&& final(self).avail(a, t) == old(self).avail(a, t) - amount
                    &&& forall|a2: u64, t2: u64|
                        !(a2 == a && t2 == t) ==> #[trigger] final(self).avail(a2, t2) == old(
                            self).avail(a2, t2)
                    &&& forall|a2: u64, t2: u64| #[trigger] final(self).locked(a2, t2) == old(
                        self).locked(a2, t2)
                    &&& final(self).total(t) == old(self).total(t) - amount
                    &&& forall|t2: u64|
                        t2 != t ==> #[trigger] final(self).total(t2) == old(self).total(t2)
                },
                Err(e) => {
                    &&& e == DexError::InsufficientFunds
                    &&& old(self).avail(a, t) < amount
                    &&& *final(self) == *old(self)
                },
            },
    {
        match self.find(a, t) {
            Some(i) => {
                let e = self.entries[i];
                proof {
                    lemma_bal_at_index(self.entries@, i as int);
                }
                if e.available < amount {
                    return Err(DexError::InsufficientFunds);
                }
                let e2 = BalanceEntry { available: e.available - amount, ..e };
                proof {
                    lemma_bal_update(self.entries@, i as int, e2);
                }
                self.entries[i] = e2;
                Ok(())
            },
            None => {
                proof {
                    lemma_bal_absent(self.entries@, a, t);
                }
                if amount == 0 {
                    // a zero withdrawal is a successful no-op even without a row
                    Ok(())
                } else {
                    Err(DexError::InsufficientFunds)
                }
            },
        }
    }

    /// Moves `amount` of (a, t) from available to locked, reserving it
    /// against an order. Fails `InsufficientFunds` exactly when available <
    /// amount; on failure nothing changes. Conserves every token total.
    pub fn lock(&mut self, a: u64, t: u64, amount: u64) -> (r: Result<(), DexError>)
        requires
            old(self).wf(),
        ensures
            final(self).wf(),
            forall|t2: u64| #[trigger] final(self).total(t2) == old(self).total(t2),
            match r {
                Ok(()) => {
                    &&& old(self).avail(a, t) >= amount
                    &&& final(self).avail(a, t) == old(self).avail(a, t) - amount
                    &&& final(self).locked(a, t) == old(self).locked(a, t) + amount
                    &&& forall|a2: u64, t2: u64|
                        !(a2 == a && t2 == t) ==> #[trigger] final(self).avail(a2, t2) == old(
                            self).avail(a2, t2)
                    &&& forall|a2: u64, t2: u64|
                        !(a2 == a && t2 == t) ==> #[trigger] final(self).locked(a2, t2) == old(
                            self).locked(a2, t2)
                },
                Err(e) => {
                    &&& e == DexError::InsufficientFunds
                    &&& old(self).avail(a, t) < amount
                    &&& *final(self) == *old(self)
                },
            },
    {
        match self.find(a, t) {
            Some(i) => {
                let e = self.entries[i];
                proof {
                    lemma_bal_at_index(self.entries@, i as int);
                    lemma_bal_le_total(self.entries@, a, t);
                    lemma_total_nonneg(self.entries@, t);
                }
                if e.available < amount {
                    return Err(DexError::InsufficientFunds);
                }
                let e2 = BalanceEntry {
                    available: e.available - amount,
                    locked: e.locked + amount,
                    ..e
                };
                proof {
                    lemma_bal_update(self.entries@, i as int, e2);
                }
                self.entries[i] = e2;
                Ok(())
            },
            None => {
                proof {
                    lemma_bal_absent(self.entries@, a, t);
                }
                if amount == 0 {
                    Ok(())
                } else {
                    Err(DexError::InsufficientFunds)
                }
            },
        }
    }

    /// Moves `amount` of (a, t) from locked back to available (an order's
    /// reservation released). Fails `InsufficientFunds` exactly when locked <
    /// amount; on failure nothing changes. Conserves every token total.
    pub fn unlock(&mut self, a: u64, t: u64, amount: u64) -> (r: Result<(), DexError>)
        requires
            old(self).wf(),
        ensures
            final(self).wf(),
            forall|t2: u64| #[trigger] final(self).total(t2) == old(self).total(t2),
            match r {
                Ok(()) => {
                    &&& old(self).locked(a, t) >= amount
                    &&& final(self).avail(a, t) == old(self).avail(a, t) + amount
                    &&& final(self).locked(a, t) == old(self).locked(a, t) - amount
                    &&& forall|a2: u64, t2: u64|
                        !(a2 == a && t2 == t) ==> #[trigger] final(self).avail(a2, t2) == old(
                            self).avail(a2, t2)
                    &&& forall|a2: u64, t2: u64|
                        !(a2 == a && t2 == t) ==> #[trigger] final(self).locked(a2, t2) == old(
                            self).locked(a2, t2)
                },
                Err(e) => {
                    &&& e == DexError::InsufficientFunds
                    &&& old(self).locked(a, t) < amount
                    &&& *final(self) == *old(self)
                },
            },
    {
        match self.find(a, t) {
            Some(i) => {
                let e = self.entries[i];
                proof {
                    lemma_bal_at_index(self.entries@, i as int);
                    lemma_bal_le_total(self.entries@, a, t);
                    lemma_total_nonneg(self.entries@, t);
                }
                if e.locked < amount {
                    return Err(DexError::InsufficientFunds);
                }
                let e2 = BalanceEntry {
                    available: e.available + amount,
                    locked: e.locked - amount,
                    ..e
                };
                proof {
                    lemma_bal_update(self.entries@, i as int, e2);
                }
                self.entries[i] = e2;
                Ok(())
            },
            None => {
                proof {
                    lemma_bal_absent(self.entries@, a, t);
                }
                if amount == 0 {
                    Ok(())
                } else {
                    Err(DexError::InsufficientFunds)
                }
            },
        }
    }

    /// Settles one fill where the incoming order buys: the taker's reserved
    /// quote pays the maker (`pay`) and the price improvement returns to the
    /// taker (`refund`), while the maker's reserved base (`deliver`) goes to
    /// the taker — one atomic settlement step. The coverage bounds also
    /// handle a market of a token against itself and a self-trade. Conserves
    /// every token total.
    pub(crate) fn settle_buy_fill(
        &mut self,
        taker: u64,
        maker: u64,
        base: u64,
        quote: u64,
        pay: u64,
        refund: u64,
        deliver: u64,
    )
        requires
            old(self).wf(),
            old(self).locked(taker, quote) as int >= pay + refund + (if taker == maker && quote
                == base {
                deliver as int
            } else {
                0
            }),
            old(self).locked(maker, base) as int >= deliver + (if taker == maker && quote == base {
                pay + refund
            } else {
                0
            }),
        ensures
            final(self).wf(),
            forall|t2: u64| #[trigger] final(self).total(t2) == old(self).total(t2),
            forall|a2: u64, t2: u64| #[trigger] final(self).locked(a2, t2) as int == old(
                self).locked(a2, t2) - (if a2 == taker && t2 == quote {
                pay + refund
            } else {
                0
            }) - (if a2 == maker && t2 == base {
                deliver as int
            } else {
                0
            }),
            forall|a2: u64, t2: u64| #[trigger] final(self).avail(a2, t2) as int == old(
                self).avail(a2, t2) + (if a2 == taker && t2 == quote {
                refund as int
            } else {
                0
            }) + (if a2 == maker && t2 == quote {
                pay as int
            } else {
                0
            }) + (if a2 == taker && t2 == base {
                deliver as int
            } else {
                0
            }),
    {
        let r1 = self.settle(taker, maker, quote, pay);
        proof {
            assert(r1 is Ok);
        }
        let r2 = self.unlock(taker, quote, refund);
        proof {
            assert(r2 is Ok);
        }
        let r3 = self.settle(maker, taker, base, deliver);
        proof {
            assert(r3 is Ok);
        }
    }

    /// Settles one fill where the incoming order sells: the taker's reserved
    /// base (`deliver`) goes to the maker, and the maker's reserved quote
    /// pays the taker (`pay`) — one atomic settlement step. Conserves every
    /// token total.
    pub(crate) fn settle_sell_fill(
        &mut self,
        taker: u64,
        maker: u64,
        base: u64,
        quote: u64,
        pay: u64,
        deliver: u64,
    )
        requires
            old(self).wf(),
            old(self).locked(taker, base) as int >= deliver + (if taker == maker && quote == base {
                pay as int
            } else {
                0
            }),
            old(self).locked(maker, quote) as int >= pay + (if taker == maker && quote == base {
                deliver as int
            } else {
                0
            }),
        ensures
            final(self).wf(),
            forall|t2: u64| #[trigger] final(self).total(t2) == old(self).total(t2),
            forall|a2: u64, t2: u64| #[trigger] final(self).locked(a2, t2) as int == old(
                self).locked(a2, t2) - (if a2 == taker && t2 == base {
                deliver as int
            } else {
                0
            }) - (if a2 == maker && t2 == quote {
                pay as int
            } else {
                0
            }),
            forall|a2: u64, t2: u64| #[trigger] final(self).avail(a2, t2) as int == old(
                self).avail(a2, t2) + (if a2 == maker && t2 == base {
                deliver as int
            } else {
                0
            }) + (if a2 == taker && t2 == quote {
                pay as int
            } else {
                0
            }),
    {
        let r1 = self.settle(taker, maker, base, deliver);
        proof {
            assert(r1 is Ok);
        }
        let r2 = self.settle(maker, taker, quote, pay);
        proof {
            assert(r2 is Ok);
        }
    }

    /// Moves `amount` of token t from `from`'s locked balance to `to`'s
    /// available balance: the settlement step of a fill. Fails
    /// `InsufficientFunds` exactly when `from`'s locked < amount; on failure
    /// nothing changes. Conserves every token total; the receiving balance is
    /// proved to stay inside the working width.
    pub fn settle(&mut self, from: u64, to: u64, t: u64, amount: u64) -> (r: Result<
        (),
        DexError,
    >)
        requires
            old(self).wf(),
        ensures
            final(self).wf(),
            forall|t2: u64| #[trigger] final(self).total(t2) == old(self).total(t2),
            match r {
                Ok(()) => {
                    &&& old(self).locked(from, t) >= amount
                    &&& forall|a2: u64, t2: u64| #[trigger] final(self).locked(a2, t2) == old(
                        self).locked(a2, t2) - (if a2 == from && t2 == t {
                        amount as int
                    } else {
                        0
                    })
                    &&& forall|a2: u64, t2: u64| #[trigger] final(self).avail(a2, t2) == old(
                        self).avail(a2, t2) + (if a2 == to && t2 == t {
                        amount as int
                    } else {
                        0
                    })
                },
                Err(e) => {
                    &&& e == DexError::InsufficientFunds
                    &&& old(self).locked(from, t) < amount
                    &&& *final(self) == *old(self)
                },
            },
    {
        if from == to {
            // reservation released into the same key: one row changes
            let r = self.unlock(from, t, amount);
            match r {
                Ok(()) => Ok(()),
                Err(e) => Err(e),
            }
        } else {
            match self.find(from, t) {
                Some(i) => {
                    let e = self.entries[i];
                    proof {
                        lemma_bal_at_index(self.entries@, i as int);
                    }
                    if e.locked < amount {
                        return Err(DexError::InsufficientFunds);
                    }
                    proof {
                        lemma_two_parts_le_total(self.entries@, to, from, t);
                        lemma_total_nonneg(self.entries@, t);
                    }
                    let e2 = BalanceEntry { locked: e.locked - amount, ..e };
                    proof {
                        lemma_bal_update(self.entries@, i as int, e2);
                    }
                    self.entries[i] = e2;
                    // now raise `to`'s available; its row may not exist yet
                    match self.find(to, t) {
                        Some(j) => {
                            let f = self.entries[j];
                            proof {
                                lemma_bal_at_index(self.entries@, j as int);
                            }
                            let f2 = BalanceEntry { available: f.available + amount, ..f };
                            proof {
                                lemma_bal_update(self.entries@, j as int, f2);
                            }
                            self.entries[j] = f2;
                        },
                        None => {
                            proof {
                                lemma_bal_absent(self.entries@, to, t);
                                lemma_bal_push(
                                    self.entries@,
                                    BalanceEntry {
                                        account: to,
                                        token: t,
                                        available: amount,
                                        locked: 0,
                                    },
                                );
                            }
                            self.entries.push(
                                BalanceEntry { account: to, token: t, available: amount, locked: 0 },
                            );
                        },
                    }
                    Ok(())
                },
                None => {
                    proof {
                        lemma_bal_absent(self.entries@, from, t);
                    }
                    if amount == 0 {
                        Ok(())
                    } else {
                        Err(DexError::InsufficientFunds)
                    }
                },
            }
        }
    }
}

} // verus!
