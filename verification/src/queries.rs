//! Read-only queries: the aggregated order-book snapshot and the per-account
//! list of active orders. Queries never mutate matching state.

use vstd::prelude::*;

use crate::exchange::Exchange;
use crate::types::{book_member, is_open, DexError, Order, Side};

verus! {

/// Price priority between two price levels on one side: bids show higher
/// prices first, asks lower prices first.
pub open spec fn price_better(side: Side, a: u64, b: u64) -> bool {
    match side {
        Side::Buy => a > b,
        Side::Sell => a < b,
    }
}

/// A strictly priority-sorted sequence of price levels.
pub open spec fn prices_sorted(side: Side, s: Seq<u64>) -> bool {
    forall|k1: int, k2: int|
        0 <= k1 < k2 < s.len() ==> price_better(side, #[trigger] s[k1], #[trigger] s[k2])
}

/// Some open order of the (base, quote) book on this side rests at price
/// `p`: every listed price level is backed by a real resting order.
pub open spec fn level_has_order(s: Seq<Order>, base: u64, quote: u64, side: Side, p: u64) -> bool {
    exists|j: int|
        0 <= j < s.len() && book_member(#[trigger] s[j], base, quote, side) && s[j].price == p
}

/// The total remaining amount resting at price `p` on one side of the
/// (base, quote) book.
pub open spec fn level_amount(s: Seq<Order>, base: u64, quote: u64, side: Side, p: u64) -> int
    decreases s.len(),
{
    if s.len() == 0 {
        0
    } else {
        level_amount(s.drop_last(), base, quote, side, p) + (if book_member(
            s.last(), base, quote, side) && s.last().price == p {
            s.last().amount_remaining as int
        } else {
            0
        })
    }
}

/// A prefix's level amount never exceeds the whole sequence's.
pub proof fn lemma_level_take_le(s: Seq<Order>, i: int, base: u64, quote: u64, side: Side, p: u64)
    requires
        0 <= i <= s.len(),
    ensures
        level_amount(s.take(i), base, quote, side, p) <= level_amount(s, base, quote, side, p),
    decreases s.len() - i,
{
    if i == s.len() {
        assert(s.take(i) =~= s);
    } else {
        let nxt = s.take(i + 1);
        assert(nxt.drop_last() =~= s.take(i));
        assert(nxt.last() == s[i]);
        lemma_level_take_le(s, i + 1, base, quote, side, p);
    }
}

/// A price with no resting order has a zero level.
pub proof fn lemma_level_absent(s: Seq<Order>, base: u64, quote: u64, side: Side, p: u64)
    requires
        forall|j: int|
            0 <= j < s.len() ==> !(book_member(#[trigger] s[j], base, quote, side) && s[j].price
                == p),
    ensures
        level_amount(s, base, quote, side, p) == 0,
    decreases s.len(),
{
    if s.len() > 0 {
        assert(forall|j: int|
            0 <= j < s.drop_last().len() ==> #[trigger] s.drop_last()[j] == s[j]);
        lemma_level_absent(s.drop_last(), base, quote, side, p);
    }
}

/// The ids of `account`'s open orders, in placement (id) order.
pub open spec fn active_ids(s: Seq<Order>, account: u64) -> Seq<u64>
    decreases s.len(),
{
    if s.len() == 0 {
        Seq::empty()
    } else if is_open(s.last()) && s.last().account == account {
        active_ids(s.drop_last(), account).push(s.last().id)
    } else {
        active_ids(s.drop_last(), account)
    }
}

/// One side's aggregated book: price levels in priority order and the total
/// resting amount at each level.
#[derive(Debug)]
pub struct BookSnapshot {
    pub bid_prices: Vec<u64>,
    pub bid_amounts: Vec<u64>,
    pub ask_prices: Vec<u64>,
    pub ask_amounts: Vec<u64>,
}

impl Exchange {
    /// The distinct price levels of one side, strictly sorted by priority:
    /// complete (every resting order's price appears) and sound (every listed
    /// price has a resting order).
    fn collect_prices(&self, base: u64, quote: u64, side: Side) -> (r: Vec<u64>)
        ensures
            prices_sorted(side, r@),
            forall|j: int|
                0 <= j < self.orders@.len() && book_member(
                    #[trigger] self.orders@[j], base, quote, side) ==> r@.contains(
                    self.orders@[j].price),
            forall|k: int|
                0 <= k < r@.len() ==> level_has_order(
                    self.orders@, base, quote, side, #[trigger] r@[k]),
    {
        let n = self.orders.len();
        let mut prices: Vec<u64> = Vec::new();
        let mut idx: usize = 0;
        while idx < n
            invariant
                n == self.orders@.len(),
                idx <= n,
                prices_sorted(side, prices@),
                forall|j: int|
                    0 <= j < idx && book_member(#[trigger] self.orders@[j], base, quote, side)
                        ==> prices@.contains(self.orders@[j].price),
                forall|k: int|
                    0 <= k < prices@.len() ==> level_has_order(
                        self.orders@, base, quote, side, #[trigger] prices@[k]),
            decreases n - idx,
        {
            let o = self.orders[idx];
            let member = (o.status == crate::types::OrderStatus::Open || o.status
                == crate::types::OrderStatus::PartiallyFilled) && o.base == base && o.quote
                == quote && o.side == side;
            if member {
                let len = prices.len();
                let mut k: usize = 0;
                let mut found = false;
                let mut stop = false;
                while k < len && !found && !stop
                    invariant
                        len == prices@.len(),
                        k <= len,
                        forall|k2: int| 0 <= k2 < k ==> price_better(side, #[trigger] prices@[k2], o.price),
                        found ==> k < len && prices@[k as int] == o.price,
                        stop ==> k < len && !price_better(side, prices@[k as int], o.price)
                            && prices@[k as int] != o.price,
                    decreases len - k, (if found || stop {
                        0int
                    } else {
                        1int
                    }),
                {
                    let q = prices[k];
                    let better = match side {
                        Side::Buy => q > o.price,
                        Side::Sell => q < o.price,
                    };
                    if q == o.price {
                        found = true;
                    } else if better {
                        k = k + 1;
                    } else {
                        stop = true;
                    }
                }
                if !found {
                    let ghost oldp = prices@;
                    proof {
                        oldp.insert_ensures(k as int, o.price);
                        // everything at or after the insertion point is
                        // strictly worse than the new price
                        assert forall|k2: int| k <= k2 < oldp.len() implies price_better(
                            side,
                            o.price,
                            #[trigger] oldp[k2],
                        ) by {
                            assert(!price_better(side, oldp[k as int], o.price) && oldp[k as int]
                                != o.price);
                            if k2 > k as int {
                                assert(price_better(side, oldp[k as int], oldp[k2]));
                            }
                        }
                    }
                    prices.insert(k, o.price);
                    proof {
                        assert(prices@ == oldp.insert(k as int, o.price));
                        assert forall|k1: int, k2: int| 0 <= k1 < k2 < prices@.len() implies
                            price_better(side, #[trigger] prices@[k1], #[trigger] prices@[k2]) by {
                            if k2 < k as int {
                                assert(prices@[k1] == oldp[k1] && prices@[k2] == oldp[k2]);
                            } else if k1 > k as int {
                                assert(prices@[k1] == oldp[k1 - 1] && prices@[k2] == oldp[k2 - 1]);
                            } else if k1 == k as int {
                                assert(prices@[k1] == o.price && prices@[k2] == oldp[k2 - 1]);
                                assert(price_better(side, o.price, oldp[k2 - 1]));
                            } else if k2 == k as int {
                                assert(prices@[k1] == oldp[k1] && prices@[k2] == o.price);
                            } else {
                                assert(prices@[k1] == oldp[k1] && prices@[k2] == oldp[k2 - 1]);
                                assert(price_better(side, oldp[k1], o.price));
                                assert(price_better(side, o.price, oldp[k2 - 1]));
                            }
                        }
                        assert forall|j: int|
                            0 <= j < idx + 1 && book_member(
                                #[trigger] self.orders@[j], base, quote, side) implies
                            prices@.contains(self.orders@[j].price) by {
                            if j == idx as int {
                                assert(prices@[k as int] == o.price);
                            } else {
                                assert(oldp.contains(self.orders@[j].price));
                                let w = choose|w: int|
                                    0 <= w < oldp.len() && oldp[w] == self.orders@[j].price;
                                if w < k as int {
                                    assert(prices@[w] == self.orders@[j].price);
                                } else {
                                    assert(prices@[w + 1] == self.orders@[j].price);
                                }
                            }
                        }
                        assert forall|k2: int| 0 <= k2 < prices@.len() implies level_has_order(
                            self.orders@,
                            base,
                            quote,
                            side,
                            #[trigger] prices@[k2],
                        ) by {
                            if k2 == k as int {
                                assert(book_member(self.orders@[idx as int], base, quote, side)
                                    && self.orders@[idx as int].price == prices@[k2]);
                            } else if k2 < k as int {
                                assert(prices@[k2] == oldp[k2]);
                                assert(level_has_order(self.orders@, base, quote, side, oldp[k2]));
                            } else {
                                assert(prices@[k2] == oldp[k2 - 1]);
                                assert(level_has_order(self.orders@, base, quote, side, oldp[k2 - 1]));
                            }
                        }
                    }
                } else {
                    proof {
                        assert(prices@.contains(o.price));
                    }
                }
            }
            idx = idx + 1;
        }
        prices
    }

    /// The exact total resting amount at price `p`; fails `Overflow` exactly
    /// when that total leaves the working width.
    fn sum_level(&self, base: u64, quote: u64, side: Side, p: u64) -> (r: Result<u64, DexError>)
        ensures
            match r {
                Ok(v) => v as int == level_amount(self.orders@, base, quote, side, p),
                Err(e) => e == DexError::Overflow && level_amount(self.orders@, base, quote, side,
                    p) > u64::MAX,
            },
    {
        let n = self.orders.len();
        let mut i: usize = 0;
        let mut acc: u128 = 0;
        proof {
            assert(self.orders@.take(0) =~= Seq::<Order>::empty());
        }
        while i < n
            invariant
                n == self.orders@.len(),
                i <= n,
                acc == level_amount(self.orders@.take(i as int), base, quote, side, p),
                acc <= u64::MAX,
            decreases n - i,
        {
            let o = self.orders[i];
            let member = (o.status == crate::types::OrderStatus::Open || o.status
                == crate::types::OrderStatus::PartiallyFilled) && o.base == base && o.quote
                == quote && o.side == side;
            proof {
                let pre = self.orders@.take(i as int);
                let post = self.orders@.take(i + 1);
                assert(post.drop_last() =~= pre);
                assert(post.last() == self.orders@[i as int]);
            }
            if member && o.price == p {
                acc = acc + o.amount_remaining as u128;
                if acc > u64::MAX as u128 {
                    proof {
                        lemma_level_take_le(self.orders@, i + 1, base, quote, side, p);
                    }
                    return Err(DexError::Overflow);
                }
            }
            i = i + 1;
        }
        proof {
            assert(self.orders@.take(n as int) =~= self.orders@);
        }
        Ok(acc as u64)
    }

    /// One side's levels and exact amounts, or `Overflow` exactly when some
    /// level's total leaves the working width.
    fn side_levels(&self, base: u64, quote: u64, side: Side) -> (r: Result<
        (Vec<u64>, Vec<u64>),
        DexError,
    >)
        ensures
            match r {
                Ok((prices, amounts)) => {
                    &&& prices_sorted(side, prices@)
                    &&& amounts@.len() == prices@.len()
                    &&& forall|j: int|
                        0 <= j < self.orders@.len() && book_member(
                            #[trigger] self.orders@[j], base, quote, side) ==> prices@.contains(
                            self.orders@[j].price)
                    &&& forall|k: int|
                        0 <= k < prices@.len() ==> level_has_order(
                            self.orders@, base, quote, side, #[trigger] prices@[k])
                    &&& forall|k: int|
                        0 <= k < prices@.len() ==> #[trigger] amounts@[k] as int == level_amount(
                            self.orders@, base, quote, side, prices@[k])
                    &&& forall|p: u64| #[trigger] level_amount(self.orders@, base, quote, side, p)
                        <= u64::MAX
                },
                Err(e) => e == DexError::Overflow && exists|p: u64| #[trigger] level_amount(
                    self.orders@, base, quote, side, p) > u64::MAX,
            },
    {
        let prices = self.collect_prices(base, quote, side);
        let mut amounts: Vec<u64> = Vec::new();
        let np = prices.len();
        let mut k: usize = 0;
        while k < np
            invariant
                np == prices@.len(),
                k <= np,
                amounts@.len() == k,
                prices_sorted(side, prices@),
                forall|j: int|
                    0 <= j < self.orders@.len() && book_member(
                        #[trigger] self.orders@[j], base, quote, side) ==> prices@.contains(
                        self.orders@[j].price),
                forall|k2: int|
                    0 <= k2 < np ==> level_has_order(
                        self.orders@, base, quote, side, #[trigger] prices@[k2]),
                forall|k2: int|
                    0 <= k2 < k ==> #[trigger] amounts@[k2] as int == level_amount(
                        self.orders@, base, quote, side, prices@[k2]),
            decreases np - k,
        {
            let p = prices[k];
            match self.sum_level(base, quote, side, p) {
                Ok(v) => {
                    amounts.push(v);
                },
                Err(e) => {
                    return Err(e);
                },
            }
            k = k + 1;
        }
        proof {
            assert forall|p: u64| #[trigger] level_amount(self.orders@, base, quote, side, p)
                <= u64::MAX by {
                if prices@.contains(p) {
                    let w = choose|w: int| 0 <= w < prices@.len() && prices@[w] == p;
                    assert(amounts@[w] as int == level_amount(self.orders@, base, quote, side, p));
                } else {
                    assert forall|j: int| 0 <= j < self.orders@.len() implies !(book_member(
                        #[trigger] self.orders@[j], base, quote, side) && self.orders@[j].price
                        == p) by {
                        if book_member(self.orders@[j], base, quote, side) && self.orders@[j].price
                            == p {
                            assert(prices@.contains(p));
                        }
                    }
                    lemma_level_absent(self.orders@, base, quote, side, p);
                }
            }
        }
        Ok((prices, amounts))
    }

    /// The aggregated book of (base, quote): bid levels (price descending)
    /// and ask levels (price ascending) with their exact resting totals.
    /// Fails `PairNotFound` exactly when the pair is unknown or inactive, and
    /// `Overflow` exactly when some level's total leaves the working width —
    /// an arm that `wf`'s custody invariant in fact makes unreachable (every
    /// resting amount is covered by a locked balance, and each token's total
    /// is bounded), kept so the contract stands on its own. Never mutates
    /// anything.
    pub fn get_order_book(&self, base: u64, quote: u64) -> (r: Result<BookSnapshot, DexError>)
        requires
            self.wf(),
        ensures
            match r {
                Ok(s) => {
                    &&& self.spec_pair(base, quote) is Some
                    &&& self.spec_pair(base, quote)->Some_0.active
                    &&& prices_sorted(Side::Buy, s.bid_prices@)
                    &&& prices_sorted(Side::Sell, s.ask_prices@)
                    &&& s.bid_amounts@.len() == s.bid_prices@.len()
                    &&& s.ask_amounts@.len() == s.ask_prices@.len()
                    &&& forall|j: int|
                        0 <= j < self.orders@.len() && book_member(
                            #[trigger] self.orders@[j], base, quote, Side::Buy)
                            ==> s.bid_prices@.contains(self.orders@[j].price)
                    &&& forall|j: int|
                        0 <= j < self.orders@.len() && book_member(
                            #[trigger] self.orders@[j], base, quote, Side::Sell)
                            ==> s.ask_prices@.contains(self.orders@[j].price)
                    &&& forall|k: int|
                        0 <= k < s.bid_prices@.len() ==> level_has_order(
                            self.orders@, base, quote, Side::Buy, #[trigger] s.bid_prices@[k])
                    &&& forall|k: int|
                        0 <= k < s.ask_prices@.len() ==> level_has_order(
                            self.orders@, base, quote, Side::Sell, #[trigger] s.ask_prices@[k])
                    &&& forall|k: int|
                        0 <= k < s.bid_prices@.len() ==> #[trigger] s.bid_amounts@[k] as int
                            == level_amount(self.orders@, base, quote, Side::Buy, s.bid_prices@[k])
                    &&& forall|k: int|
                        0 <= k < s.ask_prices@.len() ==> #[trigger] s.ask_amounts@[k] as int
                            == level_amount(self.orders@, base, quote, Side::Sell, s.ask_prices@[k])
                },
                Err(e) => {
                    let pair_ok = self.spec_pair(base, quote) is Some && self.spec_pair(
                        base, quote)->Some_0.active;
                    &&& (e == DexError::PairNotFound <==> !pair_ok)
                    &&& (e == DexError::Overflow <==> pair_ok && ((exists|p: u64| #[trigger]
                    level_amount(self.orders@, base, quote, Side::Buy, p) > u64::MAX) || (exists|
                        p: u64,
                    | #[trigger] level_amount(self.orders@, base, quote, Side::Sell, p)
                        > u64::MAX)))
                    &&& (e == DexError::PairNotFound || e == DexError::Overflow)
                },
            },
    {
        let active = match self.find_pair(base, quote) {
            Some(i) => self.pairs[i].active,
            None => false,
        };
        if !active {
            return Err(DexError::PairNotFound);
        }
        let (bid_prices, bid_amounts) = match self.side_levels(base, quote, Side::Buy) {
            Ok(v) => v,
            Err(e) => {
                return Err(e);
            },
        };
        let (ask_prices, ask_amounts) = match self.side_levels(base, quote, Side::Sell) {
            Ok(v) => v,
            Err(e) => {
                return Err(e);
            },
        };
        Ok(BookSnapshot { bid_prices, bid_amounts, ask_prices, ask_amounts })
    }

    /// The ids of `account`'s open orders, in placement order.
    pub fn get_user_orders(&self, account: u64) -> (r: Vec<u64>)
        ensures
            r@ == active_ids(self.orders@, account),
    {
        let n = self.orders.len();
        let mut r: Vec<u64> = Vec::new();
        let mut i: usize = 0;
        proof {
            assert(self.orders@.take(0) =~= Seq::<Order>::empty());
            assert(r@ =~= active_ids(self.orders@.take(0), account));
        }
        while i < n
            invariant
                n == self.orders@.len(),
                i <= n,
                r@ == active_ids(self.orders@.take(i as int), account),
            decreases n - i,
        {
            let o = self.orders[i];
            proof {
                let pre = self.orders@.take(i as int);
                let post = self.orders@.take(i + 1);
                assert(post.drop_last() =~= pre);
                assert(post.last() == self.orders@[i as int]);
            }
            if (o.status == crate::types::OrderStatus::Open || o.status
                == crate::types::OrderStatus::PartiallyFilled) && o.account == account {
                r.push(o.id);
            }
            i = i + 1;
        }
        proof {
            assert(self.orders@.take(n as int) =~= self.orders@);
        }
        r
    }
}

} // verus!
