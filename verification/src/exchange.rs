//! The exchange state: the custody ledger, the trading-pair registry, the
//! order arena (live and terminal records), and the append-only fill history.
//!
//! The central well-formedness predicate `Exchange::wf` carries the custody
//! invariant: for every (account, token), the ledger's locked balance equals
//! the summed lock obligations of the open orders. Every public operation
//! requires and re-establishes `wf`, and mutates nothing when it fails.

use vstd::prelude::*;

use crate::ledger::Ledger;
use crate::types::{
    is_open, is_terminal, lock_token, obligation, order_inv, sum_obligations, DexError, Fill,
    Order, OrderKind, OrderStatus, Side, TradingPair,
};
use crate::types::{lemma_sum_obligations_ge_elem, lemma_sum_obligations_update};

verus! {

/// The registered pair for (base, quote) in a pair sequence, if any.
pub open spec fn pair_in(s: Seq<TradingPair>, base: u64, quote: u64) -> Option<TradingPair>
    decreases s.len(),
{
    if s.len() == 0 {
        None
    } else if s.last().base == base && s.last().quote == quote {
        Some(s.last())
    } else {
        pair_in(s.drop_last(), base, quote)
    }
}

/// Pair keys are pairwise distinct.
pub open spec fn pairs_unique(s: Seq<TradingPair>) -> bool {
    forall|i: int, j: int|
        0 <= i < j < s.len() ==> !(#[trigger] s[i].base == #[trigger] s[j].base && s[i].quote
            == s[j].quote)
}

/// What every registered pair satisfies.
pub open spec fn pair_inv(p: TradingPair) -> bool {
    &&& 1 <= p.min_order_size
    &&& 1 <= p.price_precision
}

/// What every fill record at history index `i` satisfies, against the order
/// arena: ids are real, the maker is a limit order, and the recorded price is
/// the maker's price (the maker's price is always honored).
pub open spec fn fill_inv(f: Fill, i: int, orders: Seq<Order>) -> bool {
    &&& f.seq == i
    &&& f.maker_order_id < orders.len()
    &&& f.taker_order_id < orders.len()
    &&& 1 <= f.amount
    &&& orders[f.maker_order_id as int].kind == OrderKind::Limit
    &&& f.price == orders[f.maker_order_id as int].price
}

/// The whole exchange.
pub struct Exchange {
    pub ledger: Ledger,
    pub pairs: Vec<TradingPair>,
    pub orders: Vec<Order>,
    pub fills: Vec<Fill>,
}

/// A matching pair at index i pins the spec lookup, given unique keys.
pub proof fn lemma_pair_at_index(s: Seq<TradingPair>, i: int)
    requires
        pairs_unique(s),
        0 <= i < s.len(),
    ensures
        pair_in(s, s[i].base, s[i].quote) == Some(s[i]),
    decreases s.len(),
{
    if i < s.len() - 1 {
        assert(pairs_unique(s.drop_last()));
        assert(s.drop_last()[i] == s[i]);
        lemma_pair_at_index(s.drop_last(), i);
    }
}

/// If no index matches, the spec lookup is `None`.
pub proof fn lemma_pair_absent(s: Seq<TradingPair>, base: u64, quote: u64)
    requires
        forall|i: int| 0 <= i < s.len() ==> !(#[trigger] s[i].base == base && s[i].quote == quote),
    ensures
        pair_in(s, base, quote) is None,
    decreases s.len(),
{
    if s.len() > 0 {
        assert(forall|i: int|
            0 <= i < s.drop_last().len() ==> #[trigger] s.drop_last()[i] == s[i]);
        lemma_pair_absent(s.drop_last(), base, quote);
    }
}

/// Appending a fresh pair key adds it and keeps every other lookup.
pub proof fn lemma_pair_push(s: Seq<TradingPair>, p: TradingPair)
    requires
        pairs_unique(s),
        forall|i: int|
            0 <= i < s.len() ==> !(#[trigger] s[i].base == p.base && s[i].quote == p.quote),
    ensures
        pairs_unique(s.push(p)),
        pair_in(s.push(p), p.base, p.quote) == Some(p),
        forall|b: u64, q: u64|
            !(b == p.base && q == p.quote) ==> #[trigger] pair_in(s.push(p), b, q) == pair_in(
                s, b, q),
{
    let sp = s.push(p);
    assert(sp.drop_last() =~= s);
    assert(sp.last() == p);
    assert(forall|i: int| 0 <= i < s.len() ==> #[trigger] sp[i] == s[i]);
}

/// Replacing the pair at index i (key kept) rewrites exactly that lookup.
pub proof fn lemma_pair_update(s: Seq<TradingPair>, i: int, p: TradingPair)
    requires
        pairs_unique(s),
        0 <= i < s.len(),
        p.base == s[i].base,
        p.quote == s[i].quote,
    ensures
        pairs_unique(s.update(i, p)),
        pair_in(s.update(i, p), p.base, p.quote) == Some(p),
        forall|b: u64, q: u64|
            !(b == p.base && q == p.quote) ==> #[trigger] pair_in(s.update(i, p), b, q) == pair_in(
                s, b, q),
    decreases s.len(),
{
    let su = s.update(i, p);
    assert(pairs_unique(su));
    if i == s.len() - 1 {
        assert(su.drop_last() =~= s.drop_last());
        assert(su.last() == p);
        lemma_pair_at_index(s, i);
    } else {
        assert(su.drop_last() =~= s.drop_last().update(i, p));
        assert(su.last() == s.last());
        assert(pairs_unique(s.drop_last()));
        assert(s.drop_last()[i] == s[i]);
        lemma_pair_update(s.drop_last(), i, p);
    }
    assert forall|b: u64, q: u64| !(b == p.base && q == p.quote) implies #[trigger] pair_in(
        s.update(i, p),
        b,
        q,
    ) == pair_in(s, b, q) by {
        if su.last().base == b && su.last().quote == q {
        } else {
            assert(pair_in(su, b, q) == pair_in(su.drop_last(), b, q));
            assert(pair_in(s, b, q) == pair_in(s.drop_last(), b, q));
        }
    }
}

impl Exchange {
    /// The registered pair for (base, quote), if any.
    pub open spec fn spec_pair(self, base: u64, quote: u64) -> Option<TradingPair> {
        pair_in(self.pairs@, base, quote)
    }

    /// The custody invariant: every locked balance is exactly the summed
    /// obligations of the open orders towards that (account, token).
    pub open spec fn custody_ok(self) -> bool {
        forall|a: u64, t: u64| #[trigger] self.ledger.locked(a, t) as int == sum_obligations(
            self.orders@, a, t)
    }

    /// Well-formedness of the whole exchange.
    pub open spec fn wf(self) -> bool {
        &&& self.ledger.wf()
        &&& pairs_unique(self.pairs@)
        &&& (forall|i: int| 0 <= i < self.pairs@.len() ==> pair_inv(#[trigger] self.pairs@[i]))
        &&& (forall|i: int| 0 <= i < self.orders@.len() ==> order_inv(#[trigger] self.orders@[i], i))
        &&& self.custody_ok()
        &&& (forall|i: int|
            0 <= i < self.fills@.len() ==> fill_inv(#[trigger] self.fills@[i], i, self.orders@))
    }

    /// A fresh, empty exchange.
    pub fn new() -> (r: Exchange)
        ensures
            r.wf(),
            r.pairs@.len() == 0,
            r.orders@.len() == 0,
            r.fills@.len() == 0,
            forall|a: u64, t: u64| #[trigger] r.ledger.avail(a, t) == 0 && r.ledger.locked(a, t)
                == 0,
    {
        let r = Exchange {
            ledger: Ledger::new(),
            pairs: Vec::new(),
            orders: Vec::new(),
            fills: Vec::new(),
        };
        proof {
            assert forall|a: u64, t: u64| #[trigger] r.ledger.locked(a, t) as int
                == sum_obligations(r.orders@, a, t) by {
                assert(r.ledger.avail(a, t) == 0);
                assert(sum_obligations(r.orders@, a, t) == 0);
            }
        }
        r
    }

    /// Index of the registered pair for (base, quote), pinned to the spec
    /// lookup.
    pub(crate) fn find_pair(&self, base: u64, quote: u64) -> (r: Option<usize>)
        requires
            pairs_unique(self.pairs@),
        ensures
            match r {
                Some(i) => i < self.pairs@.len() && self.pairs@[i as int].base == base
                    && self.pairs@[i as int].quote == quote && self.spec_pair(base, quote)
                    == Some(self.pairs@[i as int]),
                None => self.spec_pair(base, quote) is None && forall|i: int|
                    0 <= i < self.pairs@.len() ==> !(#[trigger] self.pairs@[i].base == base
                        && self.pairs@[i].quote == quote),
            },
    {
        let n = self.pairs.len();
        let mut i: usize = 0;
        while i < n
            invariant
                pairs_unique(self.pairs@),
                n == self.pairs@.len(),
                i <= n,
                forall|j: int|
                    0 <= j < i ==> !(#[trigger] self.pairs@[j].base == base && self.pairs@[j].quote
                        == quote),
            decreases n - i,
        {
            let p = self.pairs[i];
            if p.base == base && p.quote == quote {
                proof {
                    lemma_pair_at_index(self.pairs@, i as int);
                }
                return Some(i);
            }
            i = i + 1;
        }
        proof {
            lemma_pair_absent(self.pairs@, base, quote);
        }
        None
    }

    /// The registered pair for (base, quote), if any.
    pub fn get_pair(&self, base: u64, quote: u64) -> (r: Option<TradingPair>)
        requires
            self.wf(),
        ensures
            r == self.spec_pair(base, quote),
    {
        match self.find_pair(base, quote) {
            Some(i) => Some(self.pairs[i]),
            None => None,
        }
    }

    /// Registers a new market. Fails `PairExists` when (base, quote) is
    /// already registered, whatever the new parameters; otherwise fails
    /// `InvalidParameters` when the minimum order size is zero, or when the
    /// price precision is zero (a zero precision would admit no valid price).
    /// On success the pair is registered active and nothing else changes.
    pub fn add_trading_pair(
        &mut self,
        base: u64,
        quote: u64,
        min_order_size: u64,
        price_precision: u64,
    ) -> (r: Result<(), DexError>)
        requires
            old(self).wf(),
        ensures
            final(self).wf(),
            match r {
                Ok(()) => {
                    &&& min_order_size >= 1 && price_precision >= 1
                    &&& old(self).spec_pair(base, quote) is None
                    &&& final(self).spec_pair(base, quote) == Some(
                        TradingPair { base, quote, min_order_size, price_precision, active: true },
                    )
                    &&& forall|b: u64, q: u64|
                        !(b == base && q == quote) ==> #[trigger] final(self).spec_pair(b, q)
                            == old(self).spec_pair(b, q)
                    &&& final(self).ledger == old(self).ledger
                    &&& final(self).orders == old(self).orders
                    &&& final(self).fills == old(self).fills
                },
                Err(e) => {
                    &&& *final(self) == *old(self)
                    &&& (e == DexError::PairExists <==> old(self).spec_pair(base, quote) is Some)
                    &&& (e == DexError::InvalidParameters <==> (old(self).spec_pair(
                        base, quote) is None && (min_order_size == 0 || price_precision == 0)))
                    &&& (e == DexError::PairExists || e == DexError::InvalidParameters)
                },
            },
    {
        match self.find_pair(base, quote) {
            Some(_) => Err(DexError::PairExists),
            None => {
                if min_order_size == 0 || price_precision == 0 {
                    return Err(DexError::InvalidParameters);
                }
                let p = TradingPair { base, quote, min_order_size, price_precision, active: true };
                proof {
                    lemma_pair_push(self.pairs@, p);
                }
                self.pairs.push(p);
                Ok(())
            },
        }
    }

    /// Toggles a registered pair's `active` flag. Fails `PairNotFound`
    /// exactly when (base, quote) is not registered.
    pub fn set_pair_active(&mut self, base: u64, quote: u64, active: bool) -> (r: Result<
        (),
        DexError,
    >)
        requires
            old(self).wf(),
        ensures
            final(self).wf(),
            match r {
                Ok(()) => {
                    &&& old(self).spec_pair(base, quote) is Some
                    &&& final(self).spec_pair(base, quote) == Some(
                        TradingPair { active, ..old(self).spec_pair(base, quote)->Some_0 },
                    )
                    &&& forall|b: u64, q: u64|
                        !(b == base && q == quote) ==> #[trigger] final(self).spec_pair(b, q)
                            == old(self).spec_pair(b, q)
                    &&& final(self).ledger == old(self).ledger
                    &&& final(self).orders == old(self).orders
                    &&& final(self).fills == old(self).fills
                },
                Err(e) => {
                    &&& *final(self) == *old(self)
                    &&& e == DexError::PairNotFound
                    &&& old(self).spec_pair(base, quote) is None
                },
            },
    {
        match self.find_pair(base, quote) {
            Some(i) => {
                let p = self.pairs[i];
                let updated = TradingPair { active, ..p };
                proof {
                    lemma_pair_update(self.pairs@, i as int, updated);
                }
                self.pairs[i] = updated;
                Ok(())
            },
            None => Err(DexError::PairNotFound),
        }
    }

    /// Credits a deposit to (account, token)'s available balance. Fails
    /// `Overflow` exactly when the token's ledger total would leave the
    /// working width.
    pub fn deposit(&mut self, account: u64, token: u64, amount: u64) -> (r: Result<(), DexError>)
        requires
            old(self).wf(),
        ensures
            final(self).wf(),
            final(self).pairs == old(self).pairs,
            final(self).orders == old(self).orders,
            final(self).fills == old(self).fills,
            match r {
                Ok(()) => {
                    &&& old(self).ledger.total(token) + amount <= u64::MAX
                    &&& final(self).ledger.avail(account, token) == old(self).ledger.avail(
                        account, token) + amount
                    &&& forall|a2: u64, t2: u64|
                        !(a2 == account && t2 == token) ==> #[trigger] final(self).ledger.avail(
                            a2, t2) == old(self).ledger.avail(a2, t2)
                    &&& forall|a2: u64, t2: u64| #[trigger] final(self).ledger.locked(a2, t2)
                        == old(self).ledger.locked(a2, t2)
                    &&& final(self).ledger.total(token) == old(self).ledger.total(token) + amount
                    &&& forall|t2: u64|
                        t2 != token ==> #[trigger] final(self).ledger.total(t2) == old(
                            self).ledger.total(t2)
                },
                Err(e) => {
                    &&& e == DexError::Overflow
                    &&& old(self).ledger.total(token) + amount > u64::MAX
                    &&& *final(self) == *old(self)
                },
            },
    {
        let r = self.ledger.credit(account, token, amount);
        r
    }

    /// Withdraws from (account, token)'s available balance. Fails
    /// `InsufficientFunds` exactly when available < amount. Locked funds can
    /// never be withdrawn.
    pub fn withdraw(&mut self, account: u64, token: u64, amount: u64) -> (r: Result<(), DexError>)
        requires
            old(self).wf(),
        ensures
            final(self).wf(),
            final(self).pairs == old(self).pairs,
            final(self).orders == old(self).orders,
            final(self).fills == old(self).fills,
            match r {
                Ok(()) => {
                    &&& old(self).ledger.avail(account, token) >= amount
                    &&& final(self).ledger.avail(account, token) == old(self).ledger.avail(
                        account, token) - amount
                    &&& forall|a2: u64, t2: u64|
                        !(a2 == account && t2 == token) ==> #[trigger] final(self).ledger.avail(
                            a2, t2) == old(self).ledger.avail(a2, t2)
                    &&& forall|a2: u64, t2: u64| #[trigger] final(self).ledger.locked(a2, t2)
                        == old(self).ledger.locked(a2, t2)
                    &&& final(self).ledger.total(token) == old(self).ledger.total(token) - amount
                    &&& forall|t2: u64|
                        t2 != token ==> #[trigger] final(self).ledger.total(t2) == old(
                            self).ledger.total(t2)
                },
                Err(e) => {
                    &&& e == DexError::InsufficientFunds
                    &&& old(self).ledger.avail(account, token) < amount
                    &&& *final(self) == *old(self)
                },
            },
    {
        let r = self.ledger.withdraw(account, token, amount);
        r
    }

    /// (account, token)'s available balance.
    pub fn get_balance(&self, account: u64, token: u64) -> (r: u64)
        requires
            self.wf(),
        ensures
            r == self.ledger.avail(account, token),
    {
        let (a, _) = self.ledger.balance_of(account, token);
        a
    }

    /// (account, token)'s locked balance.
    pub fn locked_balance(&self, account: u64, token: u64) -> (r: u64)
        requires
            self.wf(),
        ensures
            r == self.ledger.locked(account, token),
    {
        let (_, l) = self.ledger.balance_of(account, token);
        l
    }

    /// The order record with the given id, if one was ever placed.
    pub fn get_order(&self, order_id: u64) -> (r: Option<Order>)
        ensures
            match r {
                Some(o) => order_id < self.orders@.len() && o == self.orders@[order_id as int],
                None => order_id >= self.orders@.len(),
            },
    {
        if order_id < self.orders.len() as u64 {
            Some(self.orders[order_id as usize])
        } else {
            None
        }
    }

    /// How many fills the append-only history holds.
    pub fn fill_count(&self) -> (r: u64)
        ensures
            r == self.fills@.len(),
    {
        self.fills.len() as u64
    }

    /// The fill at history position `seq`, if any.
    pub fn get_fill(&self, seq: u64) -> (r: Option<Fill>)
        ensures
            match r {
                Some(f) => seq < self.fills@.len() && f == self.fills@[seq as int],
                None => seq >= self.fills@.len(),
            },
    {
        if seq < self.fills.len() as u64 {
            Some(self.fills[seq as usize])
        } else {
            None
        }
    }

    /// Cancels an open order. Fails `NotFound` for an unknown id, `NotOwner`
    /// when the caller does not own the order, `AlreadyTerminal` when the
    /// order is already filled or cancelled — exactly in that order, mutating
    /// nothing. On success the order's exact remaining lock obligation
    /// returns to the owner's available balance and the order is terminal;
    /// every token total is conserved.
    pub fn cancel_order(&mut self, order_id: u64, caller: u64) -> (r: Result<(), DexError>)
        requires
            old(self).wf(),
        ensures
            final(self).wf(),
            final(self).pairs == old(self).pairs,
            final(self).fills == old(self).fills,
            forall|t: u64| #[trigger] final(self).ledger.total(t) == old(self).ledger.total(t),
            match r {
                Ok(()) => {
                    &&& order_id < old(self).orders@.len()
                    &&& {
                        let o = old(self).orders@[order_id as int];
                        let refund = obligation(o, o.account, lock_token(o));
                        &&& o.account == caller
                        &&& is_open(o)
                        &&& final(self).orders@ == old(self).orders@.update(
                            order_id as int,
                            Order { status: OrderStatus::Cancelled, ..o },
                        )
                        &&& final(self).ledger.locked(o.account, lock_token(o)) == old(
                            self).ledger.locked(o.account, lock_token(o)) - refund
                        &&& final(self).ledger.avail(o.account, lock_token(o)) == old(
                            self).ledger.avail(o.account, lock_token(o)) + refund
                        &&& forall|a2: u64, t2: u64|
                            !(a2 == o.account && t2 == lock_token(o)) ==> #[trigger] final(
                                self).ledger.avail(a2, t2) == old(self).ledger.avail(a2, t2)
                        &&& forall|a2: u64, t2: u64|
                            !(a2 == o.account && t2 == lock_token(o)) ==> #[trigger] final(
                                self).ledger.locked(a2, t2) == old(self).ledger.locked(a2, t2)
                    }
                },
                Err(e) => {
                    &&& *final(self) == *old(self)
                    &&& (e == DexError::NotFound <==> order_id >= old(self).orders@.len())
                    &&& (e == DexError::NotOwner <==> (order_id < old(self).orders@.len() && old(
                        self).orders@[order_id as int].account != caller))
                    &&& (e == DexError::AlreadyTerminal <==> (order_id < old(
                        self).orders@.len() && old(self).orders@[order_id as int].account == caller
                        && is_terminal(old(self).orders@[order_id as int])))
                    &&& (e == DexError::NotFound || e == DexError::NotOwner
                        || e == DexError::AlreadyTerminal)
                },
            },
    {
        if order_id >= self.orders.len() as u64 {
            return Err(DexError::NotFound);
        }
        let idx = order_id as usize;
        let o = self.orders[idx];
        if o.account != caller {
            return Err(DexError::NotOwner);
        }
        if matches!(o.status, OrderStatus::Filled | OrderStatus::Cancelled) {
            return Err(DexError::AlreadyTerminal);
        }
        proof {
            assert(order_inv(o, order_id as int));
            assert(is_open(o));
        }
        // the exact remaining reservation of this order
        let refund: u64 = if matches!(o.side, Side::Buy) {
            proof {
                assert(o.amount_remaining * o.price <= o.amount_total * o.price) by (
                nonlinear_arith)
                    requires
                        o.amount_remaining <= o.amount_total,
                        o.price >= 0,
                ;
            }
            o.amount_remaining * o.price
        } else {
            o.amount_remaining
        };
        proof {
            assert(refund == obligation(o, o.account, lock_token(o)));
            lemma_sum_obligations_ge_elem(self.orders@, order_id as int, o.account, lock_token(o));
            assert(self.ledger.locked(o.account, lock_token(o)) >= refund);
        }
        let ghost pre_ledger = self.ledger;
        let lr = self.ledger.unlock(o.account, if matches!(o.side, Side::Buy) {
            o.quote
        } else {
            o.base
        }, refund);
        proof {
            assert(lr is Ok);
        }
        let o2 = Order { status: OrderStatus::Cancelled, ..o };
        proof {
            assert forall|a2: u64, t2: u64| #[trigger] self.ledger.locked(a2, t2) as int
                == sum_obligations(self.orders@.update(order_id as int, o2), a2, t2) by {
                lemma_sum_obligations_update(self.orders@, order_id as int, o2, a2, t2);
                assert(obligation(o2, a2, t2) == 0);
                if a2 == o.account && t2 == lock_token(o) {
                    assert(obligation(o, a2, t2) == refund);
                } else {
                    assert(obligation(o, a2, t2) == 0);
                }
            }
        }
        self.orders[idx] = o2;
        proof {
            assert forall|i: int| 0 <= i < self.fills@.len() implies fill_inv(
                #[trigger] self.fills@[i],
                i,
                self.orders@,
            ) by {
                assert(fill_inv(self.fills@[i], i, old(self).orders@));
                if self.fills@[i].maker_order_id == order_id {
                    assert(self.orders@[order_id as int].price == o.price);
                }
            }
        }
        Ok(())
    }
}

} // verus!
