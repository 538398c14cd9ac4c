//! Core data model: orders, fills, trading pairs, errors, and the spec-level
//! vocabulary (book membership, price-time priority, lock obligations) that
//! the contracts of the whole crate are stated in.
//!
//! Accounts and tokens are identified by plain `u64` ids; the surrounding
//! client layer maps external address-like identifiers to these ids.

use vstd::prelude::*;

verus! {

/// Which side of the book an order stands on.
#[derive(Clone, Copy, PartialEq, Eq, Structural, Debug)]
pub enum Side {
    Buy,
    Sell,
}

/// Limit orders carry a price bound and may rest in the book; market orders
/// accept any resting price and never rest.
#[derive(Clone, Copy, PartialEq, Eq, Structural, Debug)]
pub enum OrderKind {
    Limit,
    Market,
}

/// Lifecycle of an order. `Filled` and `Cancelled` are terminal; terminal
/// records stay in the arena for audit but leave every live book collection.
#[derive(Clone, Copy, PartialEq, Eq, Structural, Debug)]
pub enum OrderStatus {
    Open,
    PartiallyFilled,
    Filled,
    Cancelled,
}

/// Every failure the engine can report. All failures are returned before any
/// state is mutated: an operation either fully commits or leaves the exchange
/// exactly as it was.
#[derive(Clone, Copy, PartialEq, Eq, Structural, Debug)]
pub enum DexError {
    /// Bad pair, inactive pair, amount under the minimum, or a price that is
    /// zero or off the pair's precision grid.
    InvalidOrder,
    /// A lock or withdrawal exceeds the available balance.
    InsufficientFunds,
    /// The (base, quote) pair is already registered.
    PairExists,
    /// The (base, quote) pair is not registered or not active.
    PairNotFound,
    /// A pair registration with a zero minimum size, a zero price precision,
    /// or equal base and quote tokens.
    InvalidParameters,
    /// Cancellation of an unknown order id.
    NotFound,
    /// Cancellation by someone other than the order's owner.
    NotOwner,
    /// Cancellation of an order that is already filled or cancelled.
    AlreadyTerminal,
    /// An arithmetic bound would be exceeded.
    Overflow,
}

/// An order record. Ids are assigned monotonically from 0, are never reused,
/// and double as the time-priority sequence: among equal prices the lower id
/// was submitted earlier.
#[derive(Clone, Copy, PartialEq, Eq, Structural, Debug)]
pub struct Order {
    pub id: u64,
    pub account: u64,
    pub base: u64,
    pub quote: u64,
    pub side: Side,
    pub kind: OrderKind,
    /// Limit price in quote units per base unit; 0 and ignored for market orders.
    pub price: u64,
    pub amount_total: u64,
    pub amount_remaining: u64,
    pub status: OrderStatus,
}

/// An immutable record of one match. `seq` is the fill's position in the
/// append-only trade history.
#[derive(Clone, Copy, PartialEq, Eq, Structural, Debug)]
pub struct Fill {
    pub maker_order_id: u64,
    pub taker_order_id: u64,
    /// The resting (maker) order's price: the price actually traded at.
    pub price: u64,
    pub amount: u64,
    pub seq: u64,
}

/// A registered market. Immutable once created, except for `active`.
#[derive(Clone, Copy, PartialEq, Eq, Structural, Debug)]
pub struct TradingPair {
    pub base: u64,
    pub quote: u64,
    pub min_order_size: u64,
    pub price_precision: u64,
    pub active: bool,
}

/// An order that still owns locked funds and may still trade.
pub open spec fn is_open(o: Order) -> bool {
    o.status == OrderStatus::Open || o.status == OrderStatus::PartiallyFilled
}

/// A filled or cancelled order: immutable audit record, owns nothing.
pub open spec fn is_terminal(o: Order) -> bool {
    o.status == OrderStatus::Filled || o.status == OrderStatus::Cancelled
}

pub open spec fn opposite(s: Side) -> Side {
    match s {
        Side::Buy => Side::Sell,
        Side::Sell => Side::Buy,
    }
}

/// Membership of the live book of (base, quote) on the given side.
pub open spec fn book_member(o: Order, base: u64, quote: u64, side: Side) -> bool {
    is_open(o) && o.base == base && o.quote == quote && o.side == side
}

/// Price-time priority between two orders on the same side: better price
/// first, ties broken by the earlier (lower) id.
pub open spec fn beats(a: Order, b: Order) -> bool {
    match a.side {
        Side::Buy => a.price > b.price || (a.price == b.price && a.id < b.id),
        Side::Sell => a.price < b.price || (a.price == b.price && a.id < b.id),
    }
}

/// Whether an incoming (taker) order accepts a resting price. A market order
/// accepts any price; a limit buy accepts asks at or under its price; a limit
/// sell accepts bids at or over its price.
pub open spec fn taker_accepts(kind: OrderKind, side: Side, taker_price: u64, maker_price: u64) -> bool {
    kind == OrderKind::Market || (match side {
        Side::Buy => maker_price <= taker_price,
        Side::Sell => maker_price >= taker_price,
    })
}

/// The token an order's funds are locked in: quote for a buy, base for a sell.
pub open spec fn lock_token(o: Order) -> u64 {
    if o.side == Side::Buy {
        o.quote
    } else {
        o.base
    }
}

/// How much of (account a, token t)'s locked balance this order accounts for:
/// an open buy holds `remaining * price` of the quote token, an open sell
/// holds `remaining` of the base token, a terminal order holds nothing.
pub open spec fn obligation(o: Order, a: u64, t: u64) -> int {
    if is_open(o) && o.account == a && lock_token(o) == t {
        if o.side == Side::Buy {
            o.amount_remaining * o.price
        } else {
            o.amount_remaining as int
        }
    } else {
        0
    }
}

/// Total lock obligation of a whole order arena towards (a, t).
pub open spec fn sum_obligations(s: Seq<Order>, a: u64, t: u64) -> int
    decreases s.len(),
{
    if s.len() == 0 {
        0
    } else {
        sum_obligations(s.drop_last(), a, t) + obligation(s.last(), a, t)
    }
}

/// Well-formedness of the order stored at arena index `i`.
pub open spec fn order_inv(o: Order, i: int) -> bool {
    &&& o.id == i
    &&& o.amount_remaining <= o.amount_total
    &&& 1 <= o.amount_total
    &&& (o.kind == OrderKind::Limit ==> 1 <= o.price)
    &&& (o.status == OrderStatus::Open ==> o.amount_remaining == o.amount_total)
    &&& (o.kind == OrderKind::Limit && o.status == OrderStatus::Filled ==> o.amount_remaining == 0)
    &&& (is_open(o) ==> o.kind == OrderKind::Limit && 1 <= o.amount_remaining)
    &&& (o.kind == OrderKind::Market ==> o.status == OrderStatus::Filled)
    &&& (o.side == Side::Buy && o.kind == OrderKind::Limit ==> o.amount_total * o.price <= u64::MAX)
}

/// Obligations are never negative.
pub proof fn lemma_obligation_nonneg(o: Order, a: u64, t: u64)
    ensures
        obligation(o, a, t) >= 0,
{
}

/// A sum of obligations is never negative.
pub proof fn lemma_sum_obligations_nonneg(s: Seq<Order>, a: u64, t: u64)
    ensures
        sum_obligations(s, a, t) >= 0,
    decreases s.len(),
{
    if s.len() > 0 {
        lemma_sum_obligations_nonneg(s.drop_last(), a, t);
    }
}

/// Appending one order adds exactly its obligation to the sum.
pub proof fn lemma_sum_obligations_push(s: Seq<Order>, o: Order, a: u64, t: u64)
    ensures
        sum_obligations(s.push(o), a, t) == sum_obligations(s, a, t) + obligation(o, a, t),
{
    assert(s.push(o).drop_last() =~= s);
    assert(s.push(o).last() == o);
}

/// Replacing the order at index `i` shifts the sum by the obligation delta.
pub proof fn lemma_sum_obligations_update(s: Seq<Order>, i: int, o: Order, a: u64, t: u64)
    requires
        0 <= i < s.len(),
    ensures
        sum_obligations(s.update(i, o), a, t) == sum_obligations(s, a, t) - obligation(s[i], a, t)
            + obligation(o, a, t),
    decreases s.len(),
{
    let su = s.update(i, o);
    if i == s.len() - 1 {
        assert(su.drop_last() =~= s.drop_last());
        assert(su.last() == o);
    } else {
        assert(su.drop_last() =~= s.drop_last().update(i, o));
        assert(su.last() == s.last());
        lemma_sum_obligations_update(s.drop_last(), i, o, a, t);
    }
}

/// The sum of obligations covers each single order's obligation.
pub proof fn lemma_sum_obligations_ge_elem(s: Seq<Order>, i: int, a: u64, t: u64)
    requires
        0 <= i < s.len(),
    ensures
        sum_obligations(s, a, t) >= obligation(s[i], a, t),
    decreases s.len(),
{
    lemma_obligation_nonneg(s.last(), a, t);
    if i == s.len() - 1 {
        lemma_sum_obligations_nonneg(s.drop_last(), a, t);
    } else {
        lemma_sum_obligations_ge_elem(s.drop_last(), i, a, t);
    }
}

} // verus!
