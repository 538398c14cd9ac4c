//! Laws of the engine that span several operations, stated and proved once.
//!
//! Conservation of each token's total across `lock`, `unlock` and `settle` is
//! stated directly on those operations' contracts (`Ledger`), and carried
//! through placement and cancellation by the `Exchange` contracts. The laws
//! here cover the lifecycle of filled orders and price-time priority.

use vstd::prelude::*;

use crate::exchange::Exchange;
use crate::matching::{beats_or_is, is_best, maker_evolution, placement_ok};
use crate::types::{
    beats, book_member, is_open, order_inv, Fill, Order, OrderKind, OrderStatus, Side,
};

verus! {

/// A fully-filled limit order has nothing left: its remaining amount is 0,
/// it is a member of no book on any side, and so — by the order-book
/// snapshot's contracts, whose price levels are backed by and summed over
/// book members only — it never reappears in a snapshot.
pub proof fn lemma_filled_order_settled(ex: Exchange, i: int)
    requires
        ex.wf(),
        0 <= i < ex.orders@.len(),
        ex.orders@[i].status == OrderStatus::Filled,
        ex.orders@[i].kind == OrderKind::Limit,
    ensures
        ex.orders@[i].amount_remaining == 0,
        forall|base: u64, quote: u64, side: Side| !book_member(
            ex.orders@[i], base, quote, side),
{
    assert(order_inv(ex.orders@[i], i));
}

/// Price-time priority among equal-priced resting bids: the earlier order
/// (the lower id — ids are assigned in submission order) has priority over
/// the later one, and the later one is never the best of the book while the
/// earlier one rests. `placement_ok` keeps the fills `beats`-ordered and
/// guarantees that every consumed maker dominates everything left resting;
/// `lemma_earlier_bid_matched_first` below draws the consequence.
pub proof fn lemma_price_time_priority(s: Seq<Order>, base: u64, quote: u64, j: int, k: int)
    requires
        0 <= j < s.len(),
        0 <= k < s.len(),
        j != k,
        book_member(s[j], base, quote, Side::Buy),
        book_member(s[k], base, quote, Side::Buy),
        s[j].price == s[k].price,
        s[j].id < s[k].id,
    ensures
        beats(s[j], s[k]),
        !is_best(s, base, quote, Side::Buy, k),
{
    assert(!beats(s[k], s[j]));
}

/// Price-time priority across a whole placement: when an incoming sell
/// consumed any part of the later of two equal-priced resting bids, the
/// earlier bid (the lower id) was fully filled by that same placement —
/// the engine never skips it.
pub proof fn lemma_earlier_bid_matched_first(
    pre: Exchange,
    post: Exchange,
    account: u64,
    base: u64,
    quote: u64,
    kind: OrderKind,
    price: u64,
    amount: u64,
    id: u64,
    newf: Seq<Fill>,
    jb: int,
    kb: int,
    kf: int,
)
    requires
        pre.wf(),
        placement_ok(pre, post, account, base, quote, Side::Sell, kind, price, amount, id, newf),
        0 <= jb < pre.orders@.len(),
        0 <= kb < pre.orders@.len(),
        jb != kb,
        book_member(pre.orders@[jb], base, quote, Side::Buy),
        book_member(pre.orders@[kb], base, quote, Side::Buy),
        pre.orders@[jb].price == pre.orders@[kb].price,
        pre.orders@[jb].id < pre.orders@[kb].id,
        0 <= kf < newf.len(),
        newf[kf].maker_order_id == pre.orders@[kb].id,
    ensures
        post.orders@[jb].amount_remaining == 0,
        !book_member(post.orders@[jb], base, quote, Side::Buy),
{
    assert(order_inv(pre.orders@[jb], jb));
    assert(order_inv(pre.orders@[kb], kb));
    assert(maker_evolution(pre.orders@[jb], post.orders@[jb], newf));
    crate::matching::lemma_fills_nonneg(newf);
    assert(!book_member(post.orders@[jb], base, quote, Side::Buy)) by {
        if book_member(post.orders@[jb], base, quote, Side::Buy) {
            // the consumed later bid would have to dominate the earlier one
            assert(beats_or_is(pre.orders@[newf[kf].maker_order_id as int], post.orders@[jb]));
            assert(pre.orders@[newf[kf].maker_order_id as int] == pre.orders@[kb]);
            assert(post.orders@[jb].price == pre.orders@[jb].price && post.orders@[jb].id
                == pre.orders@[jb].id && post.orders@[jb].side == pre.orders@[jb].side);
            assert(!beats(pre.orders@[kb], post.orders@[jb]));
            assert(pre.orders@[kb].id != post.orders@[jb].id);
        }
    }
    // not a member any more, so terminal; a partial fill would have left it open
    assert(post.orders@[jb].amount_remaining == 0) by {
        assert(!is_open(post.orders@[jb]));
        if crate::matching::filled_of(newf, pre.orders@[jb].id) == 0 {
            assert(post.orders@[jb] == pre.orders@[jb]);
        } else {
            if post.orders@[jb].amount_remaining > 0 {
                assert(post.orders@[jb].status == OrderStatus::PartiallyFilled);
            }
        }
    }
}

} // verus!
