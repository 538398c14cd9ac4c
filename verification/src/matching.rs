//! The matching engine: limit and market order placement.
//!
//! An incoming order is validated, its funds are locked, and it is matched
//! against the best-priced opposite resting orders (price-time priority,
//! ties by earlier id) at the resting order's price, until it is filled, no
//! resting order crosses it any more, or — for a market buy — its spendable
//! funds are exhausted. A limit remainder rests in the book; a market
//! remainder is released and the order closed.

use vstd::arithmetic::div_mod::lemma_fundamental_div_mod;
use vstd::prelude::*;

use crate::exchange::{fill_inv, pair_in, pair_inv, Exchange};
use crate::types::{
    beats, book_member, is_open, obligation, opposite, order_inv, sum_obligations, taker_accepts,
    DexError, Fill, Order, OrderKind, OrderStatus, Side,
};
use crate::types::{
    lemma_sum_obligations_ge_elem, lemma_sum_obligations_nonneg, lemma_sum_obligations_push,
    lemma_sum_obligations_update,
};

verus! {

/// Total base amount these fills took from the maker with the given id.
pub open spec fn filled_of(fills: Seq<Fill>, maker_id: u64) -> int
    decreases fills.len(),
{
    if fills.len() == 0 {
        0
    } else {
        filled_of(fills.drop_last(), maker_id) + (if fills.last().maker_order_id == maker_id {
            fills.last().amount as int
        } else {
            0
        })
    }
}

/// Total base amount traded by these fills.
pub open spec fn base_filled(fills: Seq<Fill>) -> int
    decreases fills.len(),
{
    if fills.len() == 0 {
        0
    } else {
        base_filled(fills.drop_last()) + fills.last().amount
    }
}

/// Total quote amount paid to makers by these fills (amount x price each).
pub open spec fn quote_spent(fills: Seq<Fill>) -> int
    decreases fills.len(),
{
    if fills.len() == 0 {
        0
    } else {
        quote_spent(fills.drop_last()) + fills.last().amount * fills.last().price
    }
}

/// What one fill adds to (a, t)'s available balance, seen from the taker
/// described by the scalar arguments: the maker is paid in the token they
/// sold for, the taker receives the token bought, and a limit buy taker is
/// refunded the difference between its own price and the maker's.
pub open spec fn fill_avail_delta(
    f: Fill,
    orders: Seq<Order>,
    account: u64,
    base: u64,
    quote: u64,
    side: Side,
    kind: OrderKind,
    price: u64,
    a: u64,
    t: u64,
) -> int {
    let m = orders[f.maker_order_id as int];
    if side == Side::Buy {
        (if a == m.account && t == quote {
            f.amount * f.price
        } else {
            0
        }) + (if a == account && t == base {
            f.amount as int
        } else {
            0
        }) + (if kind == OrderKind::Limit && a == account && t == quote {
            f.amount * (price - f.price)
        } else {
            0
        })
    } else {
        (if a == account && t == quote {
            f.amount * f.price
        } else {
            0
        }) + (if a == m.account && t == base {
            f.amount as int
        } else {
            0
        })
    }
}

/// What a fill sequence adds to (a, t)'s available balance.
pub open spec fn avail_delta(
    fills: Seq<Fill>,
    orders: Seq<Order>,
    account: u64,
    base: u64,
    quote: u64,
    side: Side,
    kind: OrderKind,
    price: u64,
    a: u64,
    t: u64,
) -> int
    decreases fills.len(),
{
    if fills.len() == 0 {
        0
    } else {
        avail_delta(fills.drop_last(), orders, account, base, quote, side, kind, price, a, t)
            + fill_avail_delta(fills.last(), orders, account, base, quote, side, kind, price, a, t)
    }
}

/// Price-time priority, allowing the two to be the same order.
pub open spec fn beats_or_is(a: Order, b: Order) -> bool {
    beats(a, b) || a.id == b.id
}

/// The fills consume makers in strict price-time priority order: in
/// particular no maker is consumed by two fill records.
pub open spec fn fills_priority_ordered(fills: Seq<Fill>, orders: Seq<Order>) -> bool {
    forall|k1: int, k2: int|
        0 <= k1 < k2 < fills.len() ==> beats(
            orders[#[trigger] fills[k1].maker_order_id as int],
            orders[#[trigger] fills[k2].maker_order_id as int],
        )
}

/// A limit order request is acceptable: the pair is registered and active,
/// the amount reaches the pair's minimum, and the price is a positive
/// multiple of the pair's price precision.
pub open spec fn limit_order_valid(
    ex: Exchange,
    base: u64,
    quote: u64,
    amount: u64,
    price: u64,
) -> bool {
    match pair_in(ex.pairs@, base, quote) {
        Some(p) => p.active && amount >= p.min_order_size && 1 <= price && price
            % p.price_precision == 0,
        None => false,
    }
}

/// A market order request is acceptable: the pair is registered and active
/// and the amount reaches the pair's minimum.
pub open spec fn market_order_valid(ex: Exchange, base: u64, quote: u64, amount: u64) -> bool {
    match pair_in(ex.pairs@, base, quote) {
        Some(p) => p.active && amount >= p.min_order_size,
        None => false,
    }
}

/// The net amount that leaves the taker's available balance of the lock
/// token: a limit order's full reservation (the unfilled part stays locked
/// for the resting remainder), a market order's actually-traded value (the
/// unused reservation is released).
pub open spec fn taker_outflow(
    kind: OrderKind,
    side: Side,
    price: u64,
    amount: u64,
    newf: Seq<Fill>,
) -> int {
    if side == Side::Buy {
        if kind == OrderKind::Limit {
            amount * price
        } else {
            quote_spent(newf)
        }
    } else {
        if kind == OrderKind::Limit {
            amount as int
        } else {
            base_filled(newf)
        }
    }
}

/// Everything a successful placement guarantees, relating the exchange
/// before (`pre`) and after (`post`): the exact taker record, the exact fill
/// history extension (one record per consumed maker, in strict price-time
/// priority order), how every pre-existing order evolved, that no crossing
/// resting order was left behind, and the exact available-balance movements.
/// The locked balances are pinned by `post.wf()`'s custody invariant.
pub open spec fn placement_ok(
    pre: Exchange,
    post: Exchange,
    account: u64,
    base: u64,
    quote: u64,
    side: Side,
    kind: OrderKind,
    price: u64,
    amount: u64,
    id: u64,
    newf: Seq<Fill>,
) -> bool {
    let n0 = pre.orders@.len();
    let taker = post.orders@[id as int];
    let ltk = if side == Side::Buy {
        quote
    } else {
        base
    };
    &&& id == n0
    &&& post.orders@.len() == n0 + 1
    &&& post.pairs == pre.pairs
    &&& taker.id == id
    &&& taker.account == account
    &&& taker.base == base
    &&& taker.quote == quote
    &&& taker.side == side
    &&& taker.kind == kind
    &&& taker.price == price
    &&& taker.amount_total == amount
    &&& taker.amount_remaining as int == amount - base_filled(newf)
    &&& (kind == OrderKind::Limit ==> taker.status == (if taker.amount_remaining == 0 {
        OrderStatus::Filled
    } else if newf.len() > 0 {
        OrderStatus::PartiallyFilled
    } else {
        OrderStatus::Open
    }))
    &&& (kind == OrderKind::Market ==> taker.status == OrderStatus::Filled)
    &&& post.fills@ == pre.fills@ + newf
    &&& (forall|k: int|
        0 <= k < newf.len() ==> new_fill_ok(
            #[trigger] newf[k], k, pre, base, quote, side, kind, price))
    &&& fills_priority_ordered(newf, pre.orders@)
    &&& (forall|k: int, j: int| #![trigger newf[k], post.orders@[j]]
        0 <= k < newf.len() && 0 <= j < n0 && book_member(
            post.orders@[j], base, quote, opposite(side)) ==> beats_or_is(
            pre.orders@[newf[k].maker_order_id as int], post.orders@[j]))
    &&& (forall|j: int|
        0 <= j < n0 ==> maker_evolution(pre.orders@[j], #[trigger] post.orders@[j], newf))
    &&& (taker.amount_remaining > 0 && kind == OrderKind::Limit ==> forall|j: int|
        0 <= j < n0 && book_member(#[trigger] post.orders@[j], base, quote, opposite(side))
            ==> !taker_accepts(kind, side, price, post.orders@[j].price))
    &&& (taker.amount_remaining > 0 && kind == OrderKind::Market && side == Side::Sell
        ==> forall|j: int|
        0 <= j < n0 ==> !book_member(#[trigger] post.orders@[j], base, quote, opposite(side)))
    &&& (taker.amount_remaining > 0 && kind == OrderKind::Market && side == Side::Buy
        ==> forall|j: int|
        0 <= j < n0 && book_member(#[trigger] post.orders@[j], base, quote, opposite(side))
            ==> pre.ledger.avail(account, quote) - quote_spent(newf) < post.orders@[j].price)
    &&& (forall|t: u64| #[trigger] post.ledger.total(t) == pre.ledger.total(t))
    &&& (forall|a2: u64, t2: u64| #[trigger] post.ledger.avail(a2, t2) as int == pre.ledger.avail(
        a2, t2) - (if a2 == account && t2 == ltk {
        taker_outflow(kind, side, price, amount, newf)
    } else {
        0
    }) + avail_delta(newf, pre.orders@, account, base, quote, side, kind, price, a2, t2))
}

/// The custody invariant, allowing for an in-flight reservation of `pend`
/// at (account, ltk): what holds while an incoming order's funds are locked
/// but its record is not yet in the arena.
pub open spec fn custody_with_pending(ex: Exchange, account: u64, ltk: u64, pend: int) -> bool {
    forall|a: u64, t: u64| #[trigger] ex.ledger.locked(a, t) as int == sum_obligations(
        ex.orders@, a, t) + (if a == account && t == ltk {
        pend
    } else {
        0
    })
}

/// What every fill produced for one incoming order satisfies, stated against
/// the pre-placement exchange: the maker was a resting opposite order, the
/// trade happened at the maker's price, and the incoming order accepted that
/// price.
pub open spec fn new_fill_ok(
    f: Fill,
    k: int,
    pre: Exchange,
    base: u64,
    quote: u64,
    side: Side,
    kind: OrderKind,
    price: u64,
) -> bool {
    &&& f.taker_order_id == pre.orders@.len()
    &&& f.seq == pre.fills@.len() + k
    &&& f.maker_order_id < pre.orders@.len()
    &&& 1 <= f.amount
    &&& book_member(pre.orders@[f.maker_order_id as int], base, quote, opposite(side))
    &&& f.price == pre.orders@[f.maker_order_id as int].price
    &&& f.amount <= pre.orders@[f.maker_order_id as int].amount_remaining
    &&& taker_accepts(kind, side, price, f.price)
}

/// How a pre-existing order evolves under one incoming order's fills: only
/// the remaining amount and the status move, by exactly the filled amount.
pub open spec fn maker_evolution(pre_o: Order, post_o: Order, fills: Seq<Fill>) -> bool {
    let took = filled_of(fills, pre_o.id);
    &&& post_o.id == pre_o.id
    &&& post_o.account == pre_o.account
    &&& post_o.base == pre_o.base
    &&& post_o.quote == pre_o.quote
    &&& post_o.side == pre_o.side
    &&& post_o.kind == pre_o.kind
    &&& post_o.price == pre_o.price
    &&& post_o.amount_total == pre_o.amount_total
    &&& post_o.amount_remaining as int == pre_o.amount_remaining - took
    &&& (took == 0 ==> post_o == pre_o)
    &&& (took > 0 ==> {
        &&& is_open(pre_o)
        &&& (post_o.amount_remaining == 0 ==> post_o.status == OrderStatus::Filled)
        &&& (post_o.amount_remaining > 0 ==> post_o.status == OrderStatus::PartiallyFilled)
    })
}

/// Everything that holds at every step of the matching loop, relating the
/// pre-placement exchange `pre` to the current state `cur` after the fills
/// `newf`: the arena and history evolve exactly by the fills, the custody
/// invariant holds with the incoming order's shrinking reservation
/// (`funds_left`) pending at its lock token, and the fills stand in priority
/// order, dominating everything still resting.
pub open spec fn matching_inv(
    pre: Exchange,
    cur: Exchange,
    newf: Seq<Fill>,
    account: u64,
    base: u64,
    quote: u64,
    side: Side,
    kind: OrderKind,
    price: u64,
    amount: u64,
    funds: u64,
    remaining: u64,
    funds_left: u64,
) -> bool {
    let opp = opposite(side);
    let ltk = if side == Side::Buy {
        quote
    } else {
        base
    };
    &&& cur.ledger.wf()
    &&& cur.pairs == pre.pairs
    &&& cur.orders@.len() == pre.orders@.len()
    &&& (forall|j: int| 0 <= j < pre.orders@.len() ==> order_inv(#[trigger] cur.orders@[j], j))
    &&& (forall|j: int|
        0 <= j < pre.orders@.len() ==> maker_evolution(
            pre.orders@[j], #[trigger] cur.orders@[j], newf))
    &&& cur.fills@ == pre.fills@ + newf
    &&& (forall|i: int|
        0 <= i < pre.fills@.len() ==> fill_inv(#[trigger] cur.fills@[i], i, cur.orders@))
    &&& (forall|k: int|
        0 <= k < newf.len() ==> new_fill_ok(
            #[trigger] newf[k], k, pre, base, quote, side, kind, price))
    &&& remaining <= amount
    &&& amount - remaining == base_filled(newf)
    &&& (side == Side::Buy && kind == OrderKind::Limit ==> funds_left == remaining * price)
    &&& (side == Side::Sell ==> funds_left == remaining)
    &&& (side == Side::Buy && kind == OrderKind::Market ==> funds_left == funds - quote_spent(newf)
        && quote_spent(newf) <= funds)
    &&& custody_with_pending(cur, account, ltk, funds_left as int)
    &&& (forall|t: u64| #[trigger] cur.ledger.total(t) == pre.ledger.total(t))
    &&& (forall|a2: u64, t2: u64| #[trigger] cur.ledger.avail(a2, t2) as int == pre.ledger.avail(
        a2, t2) + avail_delta(newf, pre.orders@, account, base, quote, side, kind, price, a2, t2))
    &&& fills_priority_ordered(newf, pre.orders@)
    &&& (forall|k: int, j: int| #![trigger newf[k], cur.orders@[j]]
        0 <= k < newf.len() && 0 <= j < pre.orders@.len() && book_member(
            cur.orders@[j], base, quote, opp) ==> beats_or_is(
            pre.orders@[newf[k].maker_order_id as int], cur.orders@[j]))
    &&& (newf.len() > 0 ==> forall|j: int|
        0 <= j < pre.orders@.len() && book_member(#[trigger] cur.orders@[j], base, quote, opp)
            ==> beats_or_is(pre.orders@[newf.last().maker_order_id as int], cur.orders@[j]))
    &&& (remaining >= 1 ==> forall|k: int|
        0 <= k < newf.len() && book_member(
            cur.orders@[(#[trigger] newf[k]).maker_order_id as int], base, quote, opp)
            ==> side == Side::Buy && kind == OrderKind::Market && funds_left < cur.orders@[
        newf[k].maker_order_id as int].price)
}

/// The order at index j is the best (price-time priority) member of the
/// (base, quote) book on the given side.
pub open spec fn is_best(s: Seq<Order>, base: u64, quote: u64, side: Side, j: int) -> bool {
    &&& 0 <= j < s.len()
    &&& book_member(s[j], base, quote, side)
    &&& forall|k: int|
        0 <= k < s.len() && k != j && book_member(#[trigger] s[k], base, quote, side) ==> beats(
            s[j], s[k])
}

/// The fill folds are sums of non-negative contributions.
pub proof fn lemma_fills_nonneg(s: Seq<Fill>)
    ensures
        base_filled(s) >= 0,
        quote_spent(s) >= 0,
        forall|mid: u64| #[trigger] filled_of(s, mid) >= 0,
    decreases s.len(),
{
    if s.len() > 0 {
        lemma_fills_nonneg(s.drop_last());
        assert(s.last().amount * s.last().price >= 0) by (nonlinear_arith);
        assert forall|mid: u64| #[trigger] filled_of(s, mid) >= 0 by {
            assert(filled_of(s.drop_last(), mid) >= 0);
        }
    }
}

/// Pushing a fill extends every fold by that fill's contribution.
pub proof fn lemma_fills_push(s: Seq<Fill>, f: Fill)
    ensures
        base_filled(s.push(f)) == base_filled(s) + f.amount,
        quote_spent(s.push(f)) == quote_spent(s) + f.amount * f.price,
        forall|mid: u64| #[trigger] filled_of(s.push(f), mid) == filled_of(s, mid) + (if f.maker_order_id
            == mid {
            f.amount as int
        } else {
            0
        }),
{
    assert(s.push(f).drop_last() =~= s);
    assert(s.push(f).last() == f);
}

/// Pushing a fill extends the available-balance fold by that fill's deltas.
pub proof fn lemma_avail_delta_push(
    s: Seq<Fill>,
    f: Fill,
    orders: Seq<Order>,
    account: u64,
    base: u64,
    quote: u64,
    side: Side,
    kind: OrderKind,
    price: u64,
)
    ensures
        forall|a: u64, t: u64| #[trigger] avail_delta(
            s.push(f), orders, account, base, quote, side, kind, price, a, t) == avail_delta(
            s, orders, account, base, quote, side, kind, price, a, t) + fill_avail_delta(
            f, orders, account, base, quote, side, kind, price, a, t),
{
    assert(s.push(f).drop_last() =~= s);
    assert(s.push(f).last() == f);
}

/// One more fill keeps the fills in strict-priority bookkeeping: against the
/// maker arena before the placement (`orders0`), the extended fill sequence
/// stays priority-ordered, every consumed maker still dominates every
/// remaining book member, and the newest maker heads or leaves the book.
pub proof fn lemma_priority_after_fill(
    pre: Exchange,
    orders0: Seq<Order>,
    pre_orders: Seq<Order>,
    pre_fills: Seq<Fill>,
    base: u64,
    quote: u64,
    side: Side,
    kind: OrderKind,
    price: u64,
    j: int,
    m: Order,
    m2: Order,
    f: Fill,
    x: u64,
)
    requires
        orders0 == pre.orders@,
        pre_orders.len() == orders0.len(),
        forall|j2: int| 0 <= j2 < orders0.len() ==> #[trigger] orders0[j2].id == j2,
        forall|j2: int|
            0 <= j2 < orders0.len() ==> maker_evolution(
                orders0[j2], #[trigger] pre_orders[j2], pre_fills),
        forall|k: int|
            0 <= k < pre_fills.len() ==> new_fill_ok(
                #[trigger] pre_fills[k], k, pre, base, quote, side, kind, price),
        fills_priority_ordered(pre_fills, orders0),
        forall|k: int, j2: int| #![trigger pre_fills[k], pre_orders[j2]]
            0 <= k < pre_fills.len() && 0 <= j2 < orders0.len() && book_member(
                pre_orders[j2], base, quote, opposite(side)) ==> beats_or_is(
                orders0[pre_fills[k].maker_order_id as int], pre_orders[j2]),
        pre_fills.len() > 0 ==> forall|j2: int|
            0 <= j2 < orders0.len() && book_member(
                #[trigger] pre_orders[j2], base, quote, opposite(side)) ==> beats_or_is(
                orders0[pre_fills.last().maker_order_id as int], pre_orders[j2]),
        forall|j2: int| 0 <= j2 < orders0.len() ==> order_inv(#[trigger] pre_orders[j2], j2),
        forall|i: int|
            0 <= i < pre.fills@.len() ==> fill_inv(#[trigger] pre.fills@[i], i, pre_orders),
        0 <= j < orders0.len(),
        m == pre_orders[j],
        book_member(m, base, quote, opposite(side)),
        book_member(orders0[j], base, quote, opposite(side)),
        is_best(pre_orders, base, quote, opposite(side), j),
        forall|k: int| 0 <= k < pre_fills.len() ==> (#[trigger] pre_fills[k]).maker_order_id as int
            != j,
        taker_accepts(kind, side, price, m.price),
        1 <= x <= m.amount_remaining,
        m2 == (Order {
            amount_remaining: (m.amount_remaining - x) as u64,
            status: if m.amount_remaining == x {
                OrderStatus::Filled
            } else {
                OrderStatus::PartiallyFilled
            },
            ..m
        }),
        f == (Fill {
            maker_order_id: m.id,
            taker_order_id: pre.orders@.len() as u64,
            price: m.price,
            amount: x,
            seq: (pre.fills@.len() + pre_fills.len()) as u64,
        }),
        pre.fills@.len() + pre_fills.len() <= u64::MAX,
        pre.orders@.len() <= u64::MAX,
    ensures
        ({
            let post_fills = pre_fills.push(f);
            let post_orders = pre_orders.update(j, m2);
            &&& fills_priority_ordered(post_fills, orders0)
            &&& (forall|j2: int|
                0 <= j2 < orders0.len() ==> order_inv(#[trigger] post_orders[j2], j2))
            &&& (forall|j2: int|
                0 <= j2 < orders0.len() ==> maker_evolution(
                    orders0[j2], #[trigger] post_orders[j2], post_fills))
            &&& (forall|k: int|
                0 <= k < post_fills.len() ==> new_fill_ok(
                    #[trigger] post_fills[k], k, pre, base, quote, side, kind, price))
            &&& (forall|i: int|
                0 <= i < pre.fills@.len() ==> fill_inv(
                    #[trigger] pre.fills@[i], i, post_orders))
            &&& (forall|k2: int, j2: int| #![trigger post_fills[k2], post_orders[j2]]
                0 <= k2 < post_fills.len() && 0 <= j2 < orders0.len() && book_member(
                    post_orders[j2], base, quote, opposite(side)) ==> beats_or_is(
                    orders0[post_fills[k2].maker_order_id as int], post_orders[j2]))
            &&& (forall|j2: int|
                0 <= j2 < orders0.len() && book_member(
                    #[trigger] post_orders[j2], base, quote, opposite(side)) ==> beats_or_is(
                    orders0[post_fills.last().maker_order_id as int], post_orders[j2]))
        }),
{
    let opp = opposite(side);
    let post_fills = pre_fills.push(f);
    let post_orders = pre_orders.update(j, m2);
    assert(post_fills.last() == f);
    lemma_fills_nonneg(pre_fills);
    lemma_fills_push(pre_fills, f);
    assert forall|j2: int| 0 <= j2 < orders0.len() implies order_inv(
        #[trigger] post_orders[j2],
        j2,
    ) by {
        if j2 != j {
            assert(post_orders[j2] == pre_orders[j2]);
        }
    }
    assert forall|j2: int| 0 <= j2 < orders0.len() implies maker_evolution(
        orders0[j2],
        #[trigger] post_orders[j2],
        post_fills,
    ) by {
        assert(maker_evolution(orders0[j2], pre_orders[j2], pre_fills));
        if j2 == j {
            assert(filled_of(post_fills, m.id) == filled_of(pre_fills, m.id) + x);
        } else {
            assert(post_orders[j2] == pre_orders[j2]);
            assert(filled_of(post_fills, orders0[j2].id) == filled_of(pre_fills, orders0[j2].id));
        }
    }
    assert(new_fill_ok(f, pre_fills.len() as int, pre, base, quote, side, kind, price)) by {
        assert(maker_evolution(orders0[j], pre_orders[j], pre_fills));
    }
    assert forall|k: int| 0 <= k < post_fills.len() implies new_fill_ok(
        #[trigger] post_fills[k],
        k,
        pre,
        base,
        quote,
        side,
        kind,
        price,
    ) by {
        if k < pre_fills.len() {
            assert(post_fills[k] == pre_fills[k]);
        } else {
            assert(post_fills[k] == f);
        }
    }
    assert forall|i: int| 0 <= i < pre.fills@.len() implies fill_inv(
        #[trigger] pre.fills@[i],
        i,
        post_orders,
    ) by {
        assert(fill_inv(pre.fills@[i], i, pre_orders));
        let mid = pre.fills@[i].maker_order_id as int;
        if mid != j {
            assert(post_orders[mid] == pre_orders[mid]);
        }
    }
    // fills stay in price-time priority order
    assert forall|k1: int, k2: int|
        0 <= k1 < k2 < post_fills.len() implies beats_or_is(
        orders0[#[trigger] post_fills[k1].maker_order_id as int],
        orders0[#[trigger] post_fills[k2].maker_order_id as int],
    ) by {
        if k2 < pre_fills.len() {
            assert(post_fills[k1] == pre_fills[k1]);
            assert(post_fills[k2] == pre_fills[k2]);
        } else {
            assert(post_fills[k2] == f);
            let lk = pre_fills.len() - 1;
            let last_maker = orders0[pre_fills[lk].maker_order_id as int];
            let mk1 = orders0[post_fills[k1].maker_order_id as int];
            assert(post_fills[k1] == pre_fills[k1]);
            assert(beats_or_is(last_maker, pre_orders[j]));
            assert(beats_or_is(mk1, last_maker));
            assert(new_fill_ok(pre_fills[k1], k1, pre, base,
                quote, side, kind, price));
            assert(new_fill_ok(pre_fills[lk], lk, pre, base,
                quote, side, kind, price));
            assert(mk1.side == opp && last_maker.side == opp
                && orders0[j].side == opp);
            if mk1.id == last_maker.id {
                assert(mk1 == last_maker);
            }
            if last_maker.id == orders0[j].id {
                assert(last_maker == orders0[j]);
            }
            assert(beats_or_is(mk1, orders0[j]));
            assert(orders0[j].id == m.id);
        }
    }
    // every consumed maker, old and new, dominates what remains
    assert forall|k2: int, j2: int| #![trigger post_fills[k2], post_orders[j2]]
        0 <= k2 < post_fills.len() && 0 <= j2 < orders0.len()
        && book_member(post_orders[j2], base, quote, opp) implies
        beats_or_is(
        orders0[post_fills[k2].maker_order_id as int],
        post_orders[j2],
    ) by {
        let mk = orders0[post_fills[k2].maker_order_id as int];
        if k2 < pre_fills.len() {
            assert(post_fills[k2] == pre_fills[k2]);
            if j2 == j {
                assert(book_member(pre_orders[j2], base, quote, opp));
                assert(beats_or_is(mk, pre_orders[j2]));
                assert(post_orders[j2].price == pre_orders[j2].price
                    && post_orders[j2].id == pre_orders[j2].id
                    && post_orders[j2].side == pre_orders[j2].side);
            } else {
                assert(post_orders[j2] == pre_orders[j2]);
                assert(beats_or_is(mk, pre_orders[j2]));
            }
        } else {
            assert(post_fills[k2] == f);
            if j2 == j {
                assert(mk.id == post_orders[j2].id);
            } else {
                assert(post_orders[j2] == pre_orders[j2]);
                assert(beats(m, pre_orders[j2]));
                assert(mk.price == m.price && mk.id == m.id && mk.side
                    == m.side);
            }
        }
    }
    // the just-filled maker still heads or leaves the book
    assert forall|j2: int|
        0 <= j2 < orders0.len() && book_member(
            #[trigger] post_orders[j2], base, quote, opp) implies
        beats_or_is(
        orders0[post_fills.last().maker_order_id as int],
        post_orders[j2],
    ) by {
        assert(post_fills.last() == f);
        if j2 == j {
            assert(post_orders[j2].id == orders0[j].id);
        } else {
            assert(post_orders[j2] == pre_orders[j2]);
            assert(beats(m, pre_orders[j2]));
        }
    }
}


/// One fill's settlement keeps the ledger bookkeeping: with the maker's
/// order shrunk by the trade and the incoming order's reservation shrunk by
/// what it spent, the custody equation still holds at every key, the
/// available balances still equal the pre-placement balances plus the fills'
/// movements, and every token total is unchanged.
pub proof fn lemma_ledger_after_fill(
    pre0: crate::ledger::Ledger,
    led1: crate::ledger::Ledger,
    led2: crate::ledger::Ledger,
    orders0: Seq<Order>,
    pre_orders: Seq<Order>,
    pre_fills: Seq<Fill>,
    account: u64,
    base: u64,
    quote: u64,
    side: Side,
    kind: OrderKind,
    price: u64,
    j: int,
    m: Order,
    m2: Order,
    f: Fill,
    x: u64,
    pay: u64,
    refund: u64,
    spend: u64,
    fl_pre: u64,
    fl_post: u64,
)
    requires
        0 <= j < pre_orders.len(),
        m == pre_orders[j],
        f.maker_order_id as int == j,
        0 <= f.maker_order_id < orders0.len(),
        orders0[j].account == m.account,
        f.amount == x,
        f.price == m.price,
        1 <= x <= m.amount_remaining,
        m2.amount_remaining == m.amount_remaining - x,
        m2.account == m.account && m2.side == m.side && m2.price == m.price && m2.base == m.base
            && m2.quote == m.quote && m2.kind == m.kind,
        is_open(m2) <==> m2.amount_remaining > 0,
        book_member(m, base, quote, opposite(side)),
        forall|a2: u64, t2: u64| #[trigger] led1.locked(a2, t2) as int == sum_obligations(
            pre_orders, a2, t2) + (if a2 == account && t2 == (if side == Side::Buy {
            quote
        } else {
            base
        }) {
            fl_pre as int
        } else {
            0
        }),
        forall|a2: u64, t2: u64| #[trigger] led1.avail(a2, t2) as int == pre0.avail(a2, t2)
            + avail_delta(pre_fills, orders0, account, base, quote, side, kind, price, a2, t2),
        forall|t2: u64| #[trigger] led1.total(t2) == pre0.total(t2),
        forall|t2: u64| #[trigger] led2.total(t2) == led1.total(t2),
        side == Side::Buy ==> forall|a2: u64, t2: u64| #[trigger] led2.locked(a2, t2) as int
            == led1.locked(a2, t2) - (if a2 == account && t2 == quote {
            pay + refund
        } else {
            0
        }) - (if a2 == m.account && t2 == base {
            x as int
        } else {
            0
        }),
        side == Side::Buy ==> forall|a2: u64, t2: u64| #[trigger] led2.avail(a2, t2) as int
            == led1.avail(a2, t2) + (if a2 == account && t2 == quote {
            refund as int
        } else {
            0
        }) + (if a2 == m.account && t2 == quote {
            pay as int
        } else {
            0
        }) + (if a2 == account && t2 == base {
            x as int
        } else {
            0
        }),
        side == Side::Sell ==> forall|a2: u64, t2: u64| #[trigger] led2.locked(a2, t2) as int
            == led1.locked(a2, t2) - (if a2 == account && t2 == base {
            x as int
        } else {
            0
        }) - (if a2 == m.account && t2 == quote {
            pay as int
        } else {
            0
        }),
        side == Side::Sell ==> forall|a2: u64, t2: u64| #[trigger] led2.avail(a2, t2) as int
            == led1.avail(a2, t2) + (if a2 == m.account && t2 == base {
            x as int
        } else {
            0
        }) + (if a2 == account && t2 == quote {
            pay as int
        } else {
            0
        }),
        pay as int == x * m.price,
        side == Side::Buy && kind == OrderKind::Limit ==> spend == x * price && refund as int == x
            * (price - f.price),
        side == Side::Buy && kind == OrderKind::Market ==> refund == 0 && spend == pay,
        side == Side::Buy ==> spend == pay + refund,
        side == Side::Sell ==> spend == x,
        spend <= fl_pre,
        fl_post == fl_pre - spend,
        m.amount_remaining * m.price - m2.amount_remaining * m.price == x * m.price,
    ensures
        forall|a2: u64, t2: u64| #[trigger] led2.locked(a2, t2) as int == sum_obligations(
            pre_orders.update(j, m2), a2, t2) + (if a2 == account && t2 == (if side == Side::Buy {
            quote
        } else {
            base
        }) {
            fl_post as int
        } else {
            0
        }),
        forall|a2: u64, t2: u64| #[trigger] led2.avail(a2, t2) as int == pre0.avail(a2, t2)
            + avail_delta(
            pre_fills.push(f), orders0, account, base, quote, side, kind, price, a2, t2),
        forall|t2: u64| #[trigger] led2.total(t2) == pre0.total(t2),
{
    lemma_avail_delta_push(pre_fills, f, orders0, account, base, quote, side, kind, price);
    let ltk = if side == Side::Buy {
        quote
    } else {
        base
    };
    let mtk = if side == Side::Buy {
        base
    } else {
        quote
    };
    assert forall|a2: u64, t2: u64| #[trigger] led2.locked(a2, t2) as int == sum_obligations(
        pre_orders.update(j, m2),
        a2,
        t2,
    ) + (if a2 == account && t2 == ltk {
        fl_post as int
    } else {
        0
    }) by {
        lemma_sum_obligations_update(pre_orders, j, m2, a2, t2);
        if a2 == m.account && t2 == mtk {
            assert(obligation(m, a2, t2) - obligation(m2, a2, t2) == (if side == Side::Buy {
                x as int
            } else {
                x * m.price
            }));
        } else {
            assert(obligation(m, a2, t2) == 0);
            assert(obligation(m2, a2, t2) == 0);
        }
    }
    assert forall|a2: u64, t2: u64| #[trigger] led2.avail(a2, t2) as int == pre0.avail(a2, t2)
        + avail_delta(
        pre_fills.push(f),
        orders0,
        account,
        base,
        quote,
        side,
        kind,
        price,
        a2,
        t2,
    ) by {
        assert(orders0[f.maker_order_id as int].account == m.account);
    }
}


impl Exchange {
    /// Whether `a` has priority over `b` on `a`'s side of the book.
    fn order_beats(a: &Order, b: &Order) -> (r: bool)
        ensures
            r == beats(*a, *b),
    {
        match a.side {
            Side::Buy => a.price > b.price || (a.price == b.price && a.id < b.id),
            Side::Sell => a.price < b.price || (a.price == b.price && a.id < b.id),
        }
    }

    /// The arena index of the best (price-time priority) open order of the
    /// (base, quote) book on the given side, if the book is not empty.
    fn find_best(&self, base: u64, quote: u64, side: Side) -> (r: Option<usize>)
        requires
            forall|k: int| 0 <= k < self.orders@.len() ==> order_inv(#[trigger] self.orders@[k], k),
        ensures
            match r {
                Some(j) => j < self.orders@.len() && is_best(self.orders@, base, quote, side,
                    j as int),
                None => forall|k: int|
                    0 <= k < self.orders@.len() ==> !book_member(
                        #[trigger] self.orders@[k], base, quote, side),
            },
    {
        let n = self.orders.len();
        let mut i: usize = 0;
        let mut best: Option<usize> = None;
        while i < n
            invariant
                n == self.orders@.len(),
                i <= n,
                forall|k: int| 0 <= k < n ==> order_inv(#[trigger] self.orders@[k], k),
                match best {
                    Some(b) => b < i && book_member(self.orders@[b as int], base, quote, side)
                        && forall|k: int|
                        0 <= k < i && k != b && book_member(
                            #[trigger] self.orders@[k], base, quote, side) ==> beats(
                            self.orders@[b as int], self.orders@[k]),
                    None => forall|k: int|
                        0 <= k < i ==> !book_member(#[trigger] self.orders@[k], base, quote, side),
                },
            decreases n - i,
        {
            let o = &self.orders[i];
            let member = (o.status == OrderStatus::Open || o.status == OrderStatus::PartiallyFilled)
                && o.base == base && o.quote == quote && o.side == side;
            if member {
                match best {
                    Some(b) => {
                        let bo = &self.orders[b];
                        if Self::order_beats(o, bo) {
                            best = Some(i);
                        }
                    },
                    None => {
                        best = Some(i);
                    },
                }
            }
            i = i + 1;
        }
        best
    }


    /// Executes one fill of the incoming order against the best resting
    /// opposite order at arena index `j`, or reports that a market buy can no
    /// longer afford it. Everything `matching_inv` states is preserved; on a
    /// fill the unfilled amount strictly decreases.
    #[verifier::rlimit(100)]
    #[verifier::spinoff_prover]
    fn apply_fill(
        &mut self,
        account: u64,
        base: u64,
        quote: u64,
        side: Side,
        kind: OrderKind,
        price: u64,
        amount: u64,
        funds: u64,
        taker_id: u64,
        j: usize,
        newf: &mut Vec<Fill>,
        remaining: &mut u64,
        funds_left: &mut u64,
        Ghost(pre): Ghost<Exchange>,
    ) -> (r: bool)
        requires
            matching_inv(
                pre, *old(self), old(newf)@, account, base, quote, side, kind, price, amount,
                funds, *old(remaining), *old(funds_left),
            ),
            1 <= amount,
            kind == OrderKind::Limit ==> 1 <= price,
            side == Side::Buy && kind == OrderKind::Limit ==> amount * price <= u64::MAX && funds
                == amount * price,
            side == Side::Sell ==> funds == amount,
            taker_id == pre.orders@.len(),
            j < old(self).orders@.len(),
            is_best(old(self).orders@, base, quote, opposite(side), j as int),
            taker_accepts(kind, side, price, old(self).orders@[j as int].price),
            1 <= *old(remaining),
        ensures
            matching_inv(
                pre, *final(self), final(newf)@, account, base, quote, side, kind, price, amount,
                funds, *final(remaining), *final(funds_left),
            ),
            r ==> *final(remaining) < *old(remaining),
            !r ==> {
                &&& *final(self) == *old(self)
                &&& final(newf)@ == old(newf)@
                &&& *final(remaining) == *old(remaining)
                &&& *final(funds_left) == *old(funds_left)
                &&& side == Side::Buy && kind == OrderKind::Market
                &&& forall|j2: int|
                    0 <= j2 < pre.orders@.len() && book_member(
                        #[trigger] final(self).orders@[j2], base, quote, opposite(side))
                        ==> *final(funds_left) < final(self).orders@[j2].price
            },
    {
        let opp = if side == Side::Buy {
            Side::Sell
        } else {
            Side::Buy
        };
        let ltk = if side == Side::Buy {
            quote
        } else {
            base
        };
        let ghost orders0 = pre.orders@;
        let m = self.orders[j];
                    let ghost pre_orders = self.orders@;
                    let ghost pre_fills = newf@;
                    let ghost pre_ledger = self.ledger;
                    proof {
                        assert(is_best(self.orders@, base, quote, opp, j as int));
                        assert(book_member(m, base, quote, opp));
                        assert(order_inv(m, j as int));
                        assert(m.kind == OrderKind::Limit && 1 <= m.price && 1
                            <= m.amount_remaining);
                        lemma_fills_nonneg(pre_fills);
                        // the pre-placement history is a prefix of the current one
                        assert forall|i: int| 0 <= i < pre.fills@.len() implies fill_inv(
                            #[trigger] pre.fills@[i],
                            i,
                            pre_orders,
                        ) by {
                            assert(self.fills@[i] == pre.fills@[i]);
                            assert(fill_inv(self.fills@[i], i, self.orders@));
                        }
                        // arena ids are their indices, before and after the fills
                        assert forall|j2: int| 0 <= j2 < orders0.len() implies #[trigger] orders0[j2].id
                            == j2 by {
                            assert(maker_evolution(orders0[j2], pre_orders[j2], pre_fills));
                            assert(order_inv(pre_orders[j2], j2));
                        }
                        // the maker was already a book member before this placement
                        assert(book_member(orders0[j as int], base, quote, opp)) by {
                            assert(maker_evolution(orders0[j as int], pre_orders[j as int],
                                pre_fills));
                            if filled_of(pre_fills, orders0[j as int].id) == 0 {
                                assert(orders0[j as int] == m);
                            }
                        }
                        assert(orders0[j as int].account == m.account) by {
                            assert(maker_evolution(orders0[j as int], pre_orders[j as int],
                                pre_fills));
                        }
                    }
        let mut x: u64 = if *remaining < m.amount_remaining {
            *remaining
        } else {
            m.amount_remaining
        };
        if side == Side::Buy && kind == OrderKind::Market {
            if *funds_left < m.price {
                proof {
                    assert forall|j2: int|
                        0 <= j2 < orders0.len() && book_member(
                            #[trigger] self.orders@[j2], base, quote, opp) implies (*funds_left)
                        < self.orders@[j2].price by {
                        if j2 != j as int {
                            assert(beats(m, self.orders@[j2]));
                        }
                    }
                }
                return false;
            }
            let afford = *funds_left / m.price;
            proof {
                lemma_fundamental_div_mod(*funds_left as int, m.price as int);
                vstd::arithmetic::div_mod::lemma_div_non_zero(
                    *funds_left as int,
                    m.price as int,
                );
            }
            if afford < x {
                x = afford;
            }
            proof {
                assert(afford >= 1);
                assert(x >= 1);
            }
        }
                            proof {
                                // the trade and its payments fit in u64
                                if side == Side::Buy {
                                    if kind == OrderKind::Limit {
                                        assert(x * m.price <= amount * price && x * price <= amount
                                            * price) by (nonlinear_arith)
                                            requires
                                                x <= amount,
                                                m.price <= price,
                                                0 <= x,
                                                0 <= m.price,
                                                0 <= price,
                                        ;
                                    } else {
                                        lemma_fundamental_div_mod(
                                            (*funds_left) as int,
                                            m.price as int,
                                        );
                                        assert(x * m.price <= (*funds_left)) by (nonlinear_arith)
                                            requires
                                                x <= (*funds_left) as int / m.price as int,
                                                1 <= m.price,
                                                (*funds_left) == m.price * ((*funds_left) as int
                                                    / m.price as int) + (*funds_left) as int
                                                    % m.price as int,
                                                0 <= (*funds_left) as int % m.price as int,
                                                0 <= x,
                                        ;
                                    }
                                } else {
                                    assert(x * m.price <= m.amount_total * m.price) by (
                                    nonlinear_arith)
                                        requires
                                            x <= m.amount_total,
                                            0 <= m.price,
                                    ;
                                }
                            }
                            let xp = x * m.price;
                            proof {
                                // what this fill consumes of the reservation
                                if side == Side::Buy && kind == OrderKind::Limit {
                                    assert(x * price <= (*remaining) * price && xp <= x * price && x
                                        * price - xp == x * (price - m.price) && ((*remaining) - x)
                                        * price == (*remaining) * price - x * price) by (
                                    nonlinear_arith)
                                        requires
                                            x <= (*remaining),
                                            m.price <= price,
                                            0 <= x,
                                            0 <= m.price,
                                            0 <= price,
                                            xp == x * m.price,
                                    ;
                                }
                            }
                            let spend: u64 = if side == Side::Buy {
                                if kind == OrderKind::Limit {
                                    x * price
                                } else {
                                    xp
                                }
                            } else {
                                x
                            };
                            proof {
                                lemma_sum_obligations_nonneg(self.orders@, account, ltk);
                                assert(spend <= (*funds_left));
                                assert(self.ledger.locked(account, ltk) >= spend);
                            }
                            let refund: u64 = if side == Side::Buy {
                                spend - xp
                            } else {
                                0
                            };
                            let ghost fl_pre = *funds_left;
                            if side == Side::Buy {
                                // the maker sells: its reserved base covers the trade,
                                // the taker's reserved quote covers payment and refund
                                proof {
                                    lemma_sum_obligations_ge_elem(
                                        self.orders@,
                                        j as int,
                                        m.account,
                                        base,
                                    );
                                    assert(obligation(self.orders@[j as int], m.account, base)
                                        == m.amount_remaining as int);
                                    lemma_sum_obligations_nonneg(self.orders@, m.account, base);
                                    if account == m.account && quote == base {
                                        assert(self.ledger.locked(account, quote) as int
                                            == sum_obligations(self.orders@, account, quote)
                                            + (*funds_left));
                                    }
                                }
                                self.ledger.settle_buy_fill(
                                    account, m.account, base, quote, xp, refund, x,
                                );
                            } else {
                                // the maker buys: its reserved quote covers payment,
                                // the taker's reserved base covers the trade
                                proof {
                                    lemma_sum_obligations_ge_elem(
                                        self.orders@,
                                        j as int,
                                        m.account,
                                        quote,
                                    );
                                    assert(obligation(self.orders@[j as int], m.account, quote)
                                        == m.amount_remaining * m.price);
                                    assert(xp <= m.amount_remaining * m.price) by (nonlinear_arith)
                                        requires
                                            x <= m.amount_remaining,
                                            0 <= m.price,
                                            xp == x * m.price,
                                    ;
                                    lemma_sum_obligations_nonneg(self.orders@, m.account, quote);
                                    if account == m.account && quote == base {
                                        assert(self.ledger.locked(account, base) as int
                                            == sum_obligations(self.orders@, account, base)
                                            + (*funds_left));
                                    }
                                }
                                self.ledger.settle_sell_fill(account, m.account, base, quote, xp, x);
                            }
                            let new_rem = m.amount_remaining - x;
                            let m2 = Order {
                                amount_remaining: new_rem,
                                status: if new_rem == 0 {
                                    OrderStatus::Filled
                                } else {
                                    OrderStatus::PartiallyFilled
                                },
                                ..m
                            };
                            let f = Fill {
                                maker_order_id: m.id,
                                taker_order_id: taker_id,
                                price: m.price,
                                amount: x,
                                seq: self.fills.len() as u64,
                            };
                            proof {
                                assert(m.amount_remaining * m.price - new_rem * m.price == x
                                    * m.price) by (nonlinear_arith)
                                    requires
                                        new_rem == m.amount_remaining - x,
                                ;
                                lemma_fills_push(pre_fills, f);
                            }
                            self.orders.set(j, m2);
                            self.fills.push(f);
                            newf.push(f);
                            (*remaining) = (*remaining) - x;
                            (*funds_left) = (*funds_left) - spend;
                            proof {
                                assert(newf@ == pre_fills.push(f));
                                // no earlier fill consumed this maker: a consumed maker
                                // still resting is (by the invariant) unaffordable, and
                                // this trade just passed the affordability gate
                                assert forall|k2: int| 0 <= k2 < pre_fills.len() implies (
                                #[trigger] pre_fills[k2]).maker_order_id as int != j as int by {
                                    if pre_fills[k2].maker_order_id as int == j as int {
                                        assert(book_member(pre_orders[j as int], base, quote, opp));
                                        assert(side == Side::Buy && kind == OrderKind::Market
                                            && fl_pre < m.price);
                                    }
                                }
                                // a maker left resting after its fill is one a market buy
                                // can no longer afford
                                assert forall|k2: int|
                                    (*remaining) >= 1 && 0 <= k2 < newf@.len() && book_member(
                                        self.orders@[(#[trigger] newf@[k2]).maker_order_id as int],
                                        base,
                                        quote,
                                        opp,
                                    ) implies side == Side::Buy && kind == OrderKind::Market && (
                                *funds_left) < self.orders@[newf@[k2].maker_order_id as int].price by {
                                    let mid = newf@[k2].maker_order_id as int;
                                    if k2 < pre_fills.len() {
                                        assert(newf@[k2] == pre_fills[k2]);
                                        assert(mid != j as int);
                                        assert(self.orders@[mid] == pre_orders[mid]);
                                        assert(book_member(pre_orders[mid], base, quote, opp));
                                        assert(side == Side::Buy && kind == OrderKind::Market
                                            && fl_pre < pre_orders[mid].price);
                                    } else {
                                        assert(newf@[k2] == f);
                                        assert(mid == j as int);
                                        assert(self.orders@[mid] == m2);
                                        if (*remaining) >= 1 && book_member(m2, base, quote, opp) {
                                            assert(m2.amount_remaining > 0);
                                            assert(x < m.amount_remaining);
                                            assert(x < *old(remaining));
                                            if side == Side::Buy && kind == OrderKind::Market {
                                                assert(x == fl_pre as int / m.price as int);
                                                lemma_fundamental_div_mod(
                                                    fl_pre as int,
                                                    m.price as int,
                                                );
                                                vstd::arithmetic::div_mod::lemma_mod_bound(
                                                    fl_pre as int,
                                                    m.price as int,
                                                );
                                                assert((*funds_left) < m.price);
                                            } else {
                                                assert(false);
                                            }
                                        }
                                    }
                                }
                                lemma_ledger_after_fill(
                                    pre.ledger, pre_ledger, self.ledger, orders0, pre_orders,
                                    pre_fills, account, base, quote, side, kind, price, j as int,
                                    m, m2, f, x, xp, refund, spend, fl_pre, *funds_left,
                                );
                                lemma_priority_after_fill(
                                    pre, orders0, pre_orders, pre_fills, base, quote, side, kind,
                                    price, j as int, m, m2, f, x,
                                );
                                assert(self.orders@ == pre_orders.update(j as int, m2));
                            }
        true
    }

    /// The matching loop shared by limit and market placement. The incoming
    /// order's funds (`funds`) are already locked at (account, lock token);
    /// its record is not yet in the arena. Returns the fills produced, the
    /// unfilled amount, and the part of `funds` still locked.
    #[verifier::rlimit(100)]
    #[verifier::spinoff_prover]
    pub(crate) fn run_matching(
        &mut self,
        account: u64,
        base: u64,
        quote: u64,
        side: Side,
        kind: OrderKind,
        price: u64,
        amount: u64,
        funds: u64,
    ) -> (r: (Vec<Fill>, u64, u64))
        requires
            old(self).ledger.wf(),
            forall|j: int|
                0 <= j < old(self).orders@.len() ==> order_inv(#[trigger] old(self).orders@[j], j),
            forall|i: int|
                0 <= i < old(self).fills@.len() ==> fill_inv(
                    #[trigger] old(self).fills@[i], i, old(self).orders@),
            custody_with_pending(
                *old(self),
                account,
                if side == Side::Buy {
                    quote
                } else {
                    base
                },
                funds as int,
            ),
            1 <= amount,
            kind == OrderKind::Limit ==> 1 <= price,
            side == Side::Buy && kind == OrderKind::Limit ==> amount * price <= u64::MAX && funds
                == amount * price,
            side == Side::Sell ==> funds == amount,
        ensures
            ({
                let (newf, remaining, funds_left) = r;
                let ltk = if side == Side::Buy {
                    quote
                } else {
                    base
                };
                &&& final(self).ledger.wf()
                &&& final(self).pairs == old(self).pairs
                &&& final(self).orders@.len() == old(self).orders@.len()
                &&& forall|j: int|
                    0 <= j < final(self).orders@.len() ==> order_inv(
                        #[trigger] final(self).orders@[j], j)
                &&& forall|j: int|
                    0 <= j < final(self).orders@.len() ==> maker_evolution(
                        old(self).orders@[j], #[trigger] final(self).orders@[j], newf@)
                &&& final(self).fills@ == old(self).fills@ + newf@
                &&& forall|i: int|
                    0 <= i < old(self).fills@.len() ==> fill_inv(
                        #[trigger] final(self).fills@[i], i, final(self).orders@)
                &&& forall|k: int|
                    0 <= k < newf@.len() ==> new_fill_ok(
                        #[trigger] newf@[k], k, *old(self), base, quote, side, kind, price)
                &&& remaining <= amount
                &&& amount - remaining == base_filled(newf@)
                &&& (side == Side::Buy && kind == OrderKind::Limit ==> funds_left == remaining
                    * price)
                &&& (side == Side::Sell ==> funds_left == remaining)
                &&& (side == Side::Buy && kind == OrderKind::Market ==> funds_left == funds
                    - quote_spent(newf@) && quote_spent(newf@) <= funds)
                &&& custody_with_pending(*final(self), account, ltk, funds_left as int)
                &&& forall|t: u64| #[trigger] final(self).ledger.total(t) == old(
                    self).ledger.total(t)
                &&& forall|a2: u64, t2: u64| #[trigger] final(self).ledger.avail(a2, t2) as int
                    == old(self).ledger.avail(a2, t2) + avail_delta(
                    newf@, old(self).orders@, account, base, quote, side, kind, price, a2, t2)
                &&& fills_priority_ordered(newf@, old(self).orders@)
                &&& (forall|k: int, j: int| #![trigger newf@[k], final(self).orders@[j]]
                    0 <= k < newf@.len() && 0 <= j < final(self).orders@.len() && book_member(
                        final(self).orders@[j], base, quote, opposite(side)) ==> beats_or_is(
                        old(self).orders@[newf@[k].maker_order_id as int], final(self).orders@[j]))
                &&& (remaining > 0 ==> forall|j: int|
                    0 <= j < final(self).orders@.len() && book_member(
                        #[trigger] final(self).orders@[j], base, quote, opposite(side))
                        ==> !taker_accepts(kind, side, price, final(self).orders@[j].price) || (
                    side == Side::Buy && kind == OrderKind::Market && funds_left < final(
                        self).orders@[j].price))
            }),
    {
        let opp = if side == Side::Buy {
            Side::Sell
        } else {
            Side::Buy
        };
        let ltk = if side == Side::Buy {
            quote
        } else {
            base
        };
        let taker_id: u64 = self.orders.len() as u64;
        let ghost orders0 = self.orders@;
        let ghost f0 = self.fills@.len() as int;
        let mut newf: Vec<Fill> = Vec::new();
        let mut remaining: u64 = amount;
        let mut funds_left: u64 = funds;
        let mut done = false;
        proof {
            assert(newf@ =~= Seq::<Fill>::empty());
            assert(self.fills@ =~= old(self).fills@ + newf@);
        }
        while !done
            invariant
                orders0 == old(self).orders@,
                f0 == old(self).fills@.len(),
                opp == opposite(side),
                ltk == (if side == Side::Buy {
                    quote
                } else {
                    base
                }),
                taker_id == orders0.len(),
                1 <= amount,
                kind == OrderKind::Limit ==> 1 <= price,
                side == Side::Buy && kind == OrderKind::Limit ==> amount * price <= u64::MAX
                    && funds == amount * price,
                side == Side::Sell ==> funds == amount,
                matching_inv(
                    *old(self), *self, newf@, account, base, quote, side, kind, price, amount,
                    funds, remaining, funds_left,
                ),
                done ==> (remaining == 0 || forall|j: int|
                    0 <= j < orders0.len() && book_member(
                        #[trigger] self.orders@[j], base, quote, opp) ==> !taker_accepts(
                        kind, side, price, self.orders@[j].price) || (side == Side::Buy && kind
                        == OrderKind::Market && funds_left < self.orders@[j].price)),
                done || remaining >= 1,
            decreases remaining, (if done {
                0int
            } else {
                1int
            }),
        {
            let best = self.find_best(base, quote, opp);
            match best {
                None => {
                    done = true;
                },
                Some(j) => {
                    let m = self.orders[j];
                    let accepts = kind == OrderKind::Market || (if side == Side::Buy {
                        m.price <= price
                    } else {
                        m.price >= price
                    });
                    if !accepts {
                        proof {
                            assert(is_best(self.orders@, base, quote, opp, j as int));
                            assert forall|j2: int|
                                0 <= j2 < orders0.len() && book_member(
                                    #[trigger] self.orders@[j2], base, quote, opp) implies
                                !taker_accepts(kind, side, price, self.orders@[j2].price) by {
                                if j2 != j as int {
                                    assert(beats(m, self.orders@[j2]));
                                }
                            }
                        }
                        done = true;
                    } else {
                        let filled = self.apply_fill(
                            account, base, quote, side, kind, price, amount, funds, taker_id, j,
                            &mut newf, &mut remaining, &mut funds_left, Ghost(*old(self)),
                        );
                        if !filled {
                            done = true;
                        } else if remaining == 0 {
                            done = true;
                        }
                    }
                },
            }
        }
        (newf, remaining, funds_left)
    }

    /// Places a limit order. Fails `InvalidOrder` exactly when the request
    /// is not acceptable (unknown or inactive pair, amount under the pair's
    /// minimum, price zero or off the precision grid); then `Overflow`
    /// exactly when the buy reservation `amount * price` leaves the working
    /// width; then `InsufficientFunds` exactly when the reservation exceeds
    /// the available balance. Nothing changes on failure. On success the
    /// order is matched against the best crossing resting orders at their
    /// prices and any remainder rests in the book; the returned fills are
    /// the complete trade record.
    pub fn place_limit_order(
        &mut self,
        account: u64,
        base: u64,
        quote: u64,
        amount: u64,
        price: u64,
        side: Side,
    ) -> (r: Result<(u64, Vec<Fill>), DexError>)
        requires
            old(self).wf(),
        ensures
            final(self).wf(),
            match r {
                Ok((id, fills)) => {
                    &&& limit_order_valid(*old(self), base, quote, amount, price)
                    &&& (side == Side::Buy ==> amount * price <= u64::MAX && old(
                        self).ledger.avail(account, quote) >= amount * price)
                    &&& (side == Side::Sell ==> old(self).ledger.avail(account, base) >= amount)
                    &&& placement_ok(
                        *old(self), *final(self), account, base, quote, side, OrderKind::Limit,
                        price, amount, id, fills@,
                    )
                },
                Err(e) => {
                    let valid = limit_order_valid(*old(self), base, quote, amount, price);
                    let overflow = side == Side::Buy && amount * price > u64::MAX;
                    let required: int = if side == Side::Buy {
                        amount * price
                    } else {
                        amount as int
                    };
                    let ltk = if side == Side::Buy {
                        quote
                    } else {
                        base
                    };
                    &&& *final(self) == *old(self)
                    &&& (e == DexError::InvalidOrder <==> !valid)
                    &&& (e == DexError::Overflow <==> valid && overflow)
                    &&& (e == DexError::InsufficientFunds <==> valid && !overflow && old(
                        self).ledger.avail(account, ltk) < required)
                    &&& (e == DexError::InvalidOrder || e == DexError::Overflow
                        || e == DexError::InsufficientFunds)
                },
            },
    {
        let p = match self.find_pair(base, quote) {
            Some(i) => self.pairs[i],
            None => {
                return Err(DexError::InvalidOrder);
            },
        };
        if !p.active || amount < p.min_order_size || price == 0 || price % p.price_precision != 0 {
            return Err(DexError::InvalidOrder);
        }
        proof {
            assert(limit_order_valid(*old(self), base, quote, amount, price));
            assert(pair_inv(p));
        }
        let ltk = if side == Side::Buy {
            quote
        } else {
            base
        };
        let required: u64 = if side == Side::Buy {
            match amount.checked_mul(price) {
                Some(v) => v,
                None => {
                    return Err(DexError::Overflow);
                },
            }
        } else {
            amount
        };
        match self.ledger.lock(account, ltk, required) {
            Ok(()) => {},
            Err(_) => {
                return Err(DexError::InsufficientFunds);
            },
        }
        proof {
            assert(custody_with_pending(*self, account, ltk, required as int)) by {
                assert forall|a2: u64, t2: u64| #[trigger] self.ledger.locked(a2, t2) as int
                    == sum_obligations(self.orders@, a2, t2) + (if a2 == account && t2 == ltk {
                    required as int
                } else {
                    0
                }) by {
                    assert(old(self).ledger.locked(a2, t2) as int == sum_obligations(
                        old(self).orders@, a2, t2));
                }
            }
        }
        let ghost mid_ledger = self.ledger;
        let (fills, remaining, funds_left) = self.run_matching(
            account, base, quote, side, OrderKind::Limit, price, amount, required,
        );
        let id: u64 = self.orders.len() as u64;
        let status = if remaining == 0 {
            OrderStatus::Filled
        } else if fills.len() > 0 {
            OrderStatus::PartiallyFilled
        } else {
            OrderStatus::Open
        };
        let taker = Order {
            id,
            account,
            base,
            quote,
            side,
            kind: OrderKind::Limit,
            price,
            amount_total: amount,
            amount_remaining: remaining,
            status,
        };
        proof {
            assert(side == Side::Buy ==> funds_left == remaining * price);
            assert(side == Side::Sell ==> funds_left == remaining);
            if remaining == 0 {
                assert(obligation(taker, account, ltk) == 0);
                match side {
                    Side::Buy => {
                        assert(funds_left == remaining * price);
                        assert(remaining * price == 0) by (nonlinear_arith)
                            requires
                                remaining == 0,
                        ;
                    },
                    Side::Sell => {
                        assert(funds_left == remaining);
                    },
                }
                assert(funds_left as int == 0);
            } else {
                assert(is_open(taker));
                if side == Side::Buy {
                    assert(obligation(taker, account, ltk) == remaining * price);
                } else {
                    assert(obligation(taker, account, ltk) == remaining as int);
                }
            }
            assert(obligation(taker, account, ltk) == funds_left as int);
            assert forall|a2: u64, t2: u64| #[trigger] self.ledger.locked(a2, t2) as int
                == sum_obligations(self.orders@.push(taker), a2, t2) by {
                lemma_sum_obligations_push(self.orders@, taker, a2, t2);
                if !(a2 == account && t2 == ltk) {
                    assert(obligation(taker, a2, t2) == 0);
                }
            }
        }
        let ghost pre_push = *self;
        self.orders.push(taker);
        proof {
            assert(self.orders@ == pre_push.orders@.push(taker));
            assert(order_inv(taker, id as int));
            assert forall|j: int| 0 <= j < self.orders@.len() implies order_inv(
                #[trigger] self.orders@[j],
                j,
            ) by {
                if j < id as int {
                    assert(self.orders@[j] == pre_push.orders@[j]);
                    assert(order_inv(pre_push.orders@[j], j));
                }
            }
            assert forall|i: int| 0 <= i < self.fills@.len() implies fill_inv(
                #[trigger] self.fills@[i],
                i,
                self.orders@,
            ) by {
                if i < old(self).fills@.len() {
                    assert(fill_inv(self.fills@[i], i, pre_push.orders@));
                    assert(self.orders@[self.fills@[i].maker_order_id as int] == pre_push.orders@[
                        self.fills@[i].maker_order_id as int]);
                } else {
                    let k = i - old(self).fills@.len();
                    assert(self.fills@[i] == fills@[k]);
                    assert(new_fill_ok(fills@[k], k, *old(self), base, quote, side,
                        OrderKind::Limit, price));
                    let mid = fills@[k].maker_order_id as int;
                    assert(maker_evolution(old(self).orders@[mid], pre_push.orders@[mid], fills@));
                    assert(self.orders@[mid] == pre_push.orders@[mid]);
                }
            }
            assert forall|j: int| 0 <= j < old(self).orders@.len() implies maker_evolution(
                old(self).orders@[j],
                #[trigger] self.orders@[j],
                fills@,
            ) by {
                assert(self.orders@[j] == pre_push.orders@[j]);
                assert(maker_evolution(old(self).orders@[j], pre_push.orders@[j], fills@));
            }
            assert forall|j: int|
                0 <= j < old(self).orders@.len() && book_member(
                    #[trigger] self.orders@[j], base, quote, opposite(side)) && taker.amount_remaining
                > 0 implies !taker_accepts(OrderKind::Limit, side, price, self.orders@[j].price) by {
                assert(self.orders@[j] == pre_push.orders@[j]);
            }
            assert forall|k: int, j: int| #![trigger fills@[k], self.orders@[j]]
                0 <= k < fills@.len() && 0 <= j < old(self).orders@.len() && book_member(
                    self.orders@[j], base, quote, opposite(side)) implies beats_or_is(
                old(self).orders@[fills@[k].maker_order_id as int],
                self.orders@[j],
            ) by {
                assert(self.orders@[j] == pre_push.orders@[j]);
                assert(beats_or_is(old(self).orders@[fills@[k].maker_order_id as int],
                    pre_push.orders@[j]));
            }
            assert(self.wf());
            assert(placement_ok(
                *old(self), *self, account, base, quote, side, OrderKind::Limit, price, amount, id,
                fills@,
            ));
        }
        Ok((id, fills))
    }

    /// Places a market order; `amount` is in base units. Fails `InvalidOrder`
    /// exactly when the pair is unknown or inactive or the amount is under
    /// the pair's minimum; a market sell fails `InsufficientFunds` exactly
    /// when the available base balance is under the amount. A market buy
    /// reserves the whole available quote balance as its maximum spend,
    /// trades against the best asks until the amount is filled, the book is
    /// empty, or the next ask is unaffordable, and releases what it did not
    /// spend. Market orders never rest: the record closes `Filled` with
    /// whatever amount was traded.
    pub fn place_market_order(
        &mut self,
        account: u64,
        base: u64,
        quote: u64,
        amount: u64,
        side: Side,
    ) -> (r: Result<(u64, Vec<Fill>), DexError>)
        requires
            old(self).wf(),
        ensures
            final(self).wf(),
            match r {
                Ok((id, fills)) => {
                    &&& market_order_valid(*old(self), base, quote, amount)
                    &&& (side == Side::Sell ==> old(self).ledger.avail(account, base) >= amount)
                    &&& placement_ok(
                        *old(self), *final(self), account, base, quote, side, OrderKind::Market,
                        0, amount, id, fills@,
                    )
                },
                Err(e) => {
                    let valid = market_order_valid(*old(self), base, quote, amount);
                    &&& *final(self) == *old(self)
                    &&& (e == DexError::InvalidOrder <==> !valid)
                    &&& (e == DexError::InsufficientFunds <==> valid && side == Side::Sell && old(
                        self).ledger.avail(account, base) < amount)
                    &&& (e == DexError::InvalidOrder || e == DexError::InsufficientFunds)
                },
            },
    {
        let p = match self.find_pair(base, quote) {
            Some(i) => self.pairs[i],
            None => {
                return Err(DexError::InvalidOrder);
            },
        };
        if !p.active || amount < p.min_order_size {
            return Err(DexError::InvalidOrder);
        }
        proof {
            assert(market_order_valid(*old(self), base, quote, amount));
            assert(pair_inv(p));
        }
        let ltk = if side == Side::Buy {
            quote
        } else {
            base
        };
        // a buy's maximum spend is everything available; a sell reserves the
        // amount itself
        let funds: u64 = if side == Side::Buy {
            let (avail, _) = self.ledger.balance_of(account, quote);
            avail
        } else {
            amount
        };
        match self.ledger.lock(account, ltk, funds) {
            Ok(()) => {},
            Err(_) => {
                return Err(DexError::InsufficientFunds);
            },
        }
        proof {
            assert(custody_with_pending(*self, account, ltk, funds as int)) by {
                assert forall|a2: u64, t2: u64| #[trigger] self.ledger.locked(a2, t2) as int
                    == sum_obligations(self.orders@, a2, t2) + (if a2 == account && t2 == ltk {
                    funds as int
                } else {
                    0
                }) by {
                    assert(old(self).ledger.locked(a2, t2) as int == sum_obligations(
                        old(self).orders@, a2, t2));
                }
            }
        }
        let (fills, remaining, funds_left) = self.run_matching(
            account, base, quote, side, OrderKind::Market, 0, amount, funds,
        );
        // release the unused part of the reservation: market orders never rest
        proof {
            lemma_sum_obligations_nonneg(self.orders@, account, ltk);
            assert(self.ledger.locked(account, ltk) >= funds_left);
        }
        let ur = self.ledger.unlock(account, ltk, funds_left);
        proof {
            assert(ur is Ok);
        }
        let id: u64 = self.orders.len() as u64;
        let taker = Order {
            id,
            account,
            base,
            quote,
            side,
            kind: OrderKind::Market,
            price: 0,
            amount_total: amount,
            amount_remaining: remaining,
            status: OrderStatus::Filled,
        };
        proof {
            assert(obligation(taker, account, ltk) == 0);
            assert forall|a2: u64, t2: u64| #[trigger] self.ledger.locked(a2, t2) as int
                == sum_obligations(self.orders@.push(taker), a2, t2) by {
                lemma_sum_obligations_push(self.orders@, taker, a2, t2);
                assert(obligation(taker, a2, t2) == 0);
            }
        }
        let ghost pre_push = *self;
        self.orders.push(taker);
        proof {
            assert(self.orders@ == pre_push.orders@.push(taker));
            assert(order_inv(taker, id as int));
            assert forall|j: int| 0 <= j < self.orders@.len() implies order_inv(
                #[trigger] self.orders@[j],
                j,
            ) by {
                if j < id as int {
                    assert(self.orders@[j] == pre_push.orders@[j]);
                    assert(order_inv(pre_push.orders@[j], j));
                }
            }
            assert forall|i: int| 0 <= i < self.fills@.len() implies fill_inv(
                #[trigger] self.fills@[i],
                i,
                self.orders@,
            ) by {
                if i < old(self).fills@.len() {
                    assert(fill_inv(self.fills@[i], i, pre_push.orders@));
                    assert(self.orders@[self.fills@[i].maker_order_id as int] == pre_push.orders@[
                        self.fills@[i].maker_order_id as int]);
                } else {
                    let k = i - old(self).fills@.len();
                    assert(self.fills@[i] == fills@[k]);
                    assert(new_fill_ok(fills@[k], k, *old(self), base, quote, side,
                        OrderKind::Market, 0));
                    let mid = fills@[k].maker_order_id as int;
                    assert(maker_evolution(old(self).orders@[mid], pre_push.orders@[mid], fills@));
                    assert(self.orders@[mid] == pre_push.orders@[mid]);
                }
            }
            assert forall|j: int| 0 <= j < old(self).orders@.len() implies maker_evolution(
                old(self).orders@[j],
                #[trigger] self.orders@[j],
                fills@,
            ) by {
                assert(self.orders@[j] == pre_push.orders@[j]);
                assert(maker_evolution(old(self).orders@[j], pre_push.orders@[j], fills@));
            }
            assert forall|j: int|
                0 <= j < old(self).orders@.len() && book_member(
                    #[trigger] self.orders@[j], base, quote, opposite(side)) implies self.orders@[j]
                == pre_push.orders@[j] && book_member(
                pre_push.orders@[j], base, quote, opposite(side)) by {
                assert(self.orders@[j] == pre_push.orders@[j]);
            }
            assert forall|k: int, j: int| #![trigger fills@[k], self.orders@[j]]
                0 <= k < fills@.len() && 0 <= j < old(self).orders@.len() && book_member(
                    self.orders@[j], base, quote, opposite(side)) implies beats_or_is(
                old(self).orders@[fills@[k].maker_order_id as int],
                self.orders@[j],
            ) by {
                assert(self.orders@[j] == pre_push.orders@[j]);
                assert(beats_or_is(old(self).orders@[fills@[k].maker_order_id as int],
                    pre_push.orders@[j]));
            }
            assert(self.wf());
            assert(placement_ok(
                *old(self), *self, account, base, quote, side, OrderKind::Market, 0, amount, id,
                fills@,
            ));
        }
        Ok((id, fills))
    }
}

} // verus!
