use orderbook_dex::exchange::Exchange;
use orderbook_dex::types::{DexError, OrderStatus, Side};

const ALICE: u64 = 1;
const BOB: u64 = 2;
const CAROL: u64 = 3;
const BASE: u64 = 10;
const QUOTE: u64 = 20;

/// A fresh exchange with one active BASE/QUOTE pair (min size 1, precision 1).
fn setup() -> Exchange {
    let mut ex = Exchange::new();
    assert_eq!(ex.add_trading_pair(BASE, QUOTE, 1, 1), Ok(()));
    ex
}

fn total(ex: &Exchange, token: u64) -> u128 {
    let mut t: u128 = 0;
    for a in [ALICE, BOB, CAROL] {
        t += ex.get_balance(a, token) as u128;
        t += ex.locked_balance(a, token) as u128;
    }
    t
}

#[test]
fn conservation_across_lock_match_settle() {
    let mut ex = setup();
    assert_eq!(ex.deposit(ALICE, QUOTE, 10_000), Ok(()));
    assert_eq!(ex.deposit(BOB, BASE, 50), Ok(()));
    let base_before = total(&ex, BASE);
    let quote_before = total(&ex, QUOTE);

    // a resting ask, a crossing bid, a partial fill, and a cancel
    let (ask_id, _) = ex.place_limit_order(BOB, BASE, QUOTE, 30, 100, Side::Sell).unwrap();
    let (_bid_id, fills) = ex.place_limit_order(ALICE, BASE, QUOTE, 10, 105, Side::Buy).unwrap();
    assert_eq!(fills.len(), 1);
    assert_eq!(ex.cancel_order(ask_id, BOB), Ok(()));

    assert_eq!(total(&ex, BASE), base_before);
    assert_eq!(total(&ex, QUOTE), quote_before);
}

#[test]
fn filled_order_has_zero_remaining_and_leaves_the_book() {
    let mut ex = setup();
    assert_eq!(ex.deposit(ALICE, QUOTE, 1_000), Ok(()));
    assert_eq!(ex.deposit(BOB, BASE, 5), Ok(()));
    let (ask_id, _) = ex.place_limit_order(BOB, BASE, QUOTE, 5, 100, Side::Sell).unwrap();
    let (bid_id, fills) = ex.place_limit_order(ALICE, BASE, QUOTE, 5, 100, Side::Buy).unwrap();
    assert_eq!(fills.len(), 1);
    assert_eq!(fills[0].amount, 5);

    let ask = ex.get_order(ask_id).unwrap();
    assert_eq!(ask.status, OrderStatus::Filled);
    assert_eq!(ask.amount_remaining, 0);
    let bid = ex.get_order(bid_id).unwrap();
    assert_eq!(bid.status, OrderStatus::Filled);
    assert_eq!(bid.amount_remaining, 0);

    let snap = ex.get_order_book(BASE, QUOTE).unwrap();
    assert!(snap.bid_prices.is_empty());
    assert!(snap.ask_prices.is_empty());
}

#[test]
fn price_time_priority_equal_price_bids() {
    let mut ex = setup();
    assert_eq!(ex.deposit(ALICE, QUOTE, 1_000), Ok(()));
    assert_eq!(ex.deposit(BOB, QUOTE, 1_000), Ok(()));
    assert_eq!(ex.deposit(CAROL, BASE, 10), Ok(()));
    let (first_bid, _) = ex.place_limit_order(ALICE, BASE, QUOTE, 5, 100, Side::Buy).unwrap();
    let (second_bid, _) = ex.place_limit_order(BOB, BASE, QUOTE, 5, 100, Side::Buy).unwrap();
    assert!(first_bid < second_bid);

    // a market sell of 7 hits the earlier bid first, fully, then the later
    let (_, fills) = ex.place_market_order(CAROL, BASE, QUOTE, 7, Side::Sell).unwrap();
    assert_eq!(fills.len(), 2);
    assert_eq!(fills[0].maker_order_id, first_bid);
    assert_eq!(fills[0].amount, 5);
    assert_eq!(fills[1].maker_order_id, second_bid);
    assert_eq!(fills[1].amount, 2);
}

#[test]
fn fills_execute_at_the_maker_price() {
    let mut ex = setup();
    assert_eq!(ex.deposit(ALICE, QUOTE, 1_000), Ok(()));
    assert_eq!(ex.deposit(BOB, BASE, 5), Ok(()));
    ex.place_limit_order(BOB, BASE, QUOTE, 5, 100, Side::Sell).unwrap();
    // the taker offers 110 but pays the resting price of 100
    let (_, fills) = ex.place_limit_order(ALICE, BASE, QUOTE, 5, 110, Side::Buy).unwrap();
    assert_eq!(fills.len(), 1);
    assert_eq!(fills[0].price, 100);
    // 500 paid, the 50 price improvement refunded: nothing stays locked
    assert_eq!(ex.get_balance(ALICE, QUOTE), 500);
    assert_eq!(ex.locked_balance(ALICE, QUOTE), 0);
    assert_eq!(ex.get_balance(ALICE, BASE), 5);
    assert_eq!(ex.get_balance(BOB, QUOTE), 500);
}

#[test]
fn cancel_returns_exact_remainder_and_second_cancel_fails() {
    let mut ex = setup();
    assert_eq!(ex.deposit(BOB, BASE, 10), Ok(()));
    let (ask_id, _) = ex.place_limit_order(BOB, BASE, QUOTE, 10, 100, Side::Sell).unwrap();
    assert_eq!(ex.get_balance(BOB, BASE), 0);
    assert_eq!(ex.locked_balance(BOB, BASE), 10);

    assert_eq!(ex.cancel_order(ask_id, BOB), Ok(()));
    assert_eq!(ex.get_balance(BOB, BASE), 10);
    assert_eq!(ex.locked_balance(BOB, BASE), 0);
    assert_eq!(ex.get_order(ask_id).unwrap().status, OrderStatus::Cancelled);

    assert_eq!(ex.cancel_order(ask_id, BOB), Err(DexError::AlreadyTerminal));
}

#[test]
fn market_buy_walks_the_ask_ladder() {
    let mut ex = setup();
    assert_eq!(ex.deposit(ALICE, QUOTE, 10_000), Ok(()));
    assert_eq!(ex.deposit(BOB, BASE, 10), Ok(()));
    ex.place_limit_order(BOB, BASE, QUOTE, 5, 100, Side::Sell).unwrap();
    ex.place_limit_order(BOB, BASE, QUOTE, 5, 101, Side::Sell).unwrap();

    let (_, fills) = ex.place_market_order(ALICE, BASE, QUOTE, 8, Side::Buy).unwrap();
    assert_eq!(fills.len(), 2);
    assert_eq!((fills[0].price, fills[0].amount), (100, 5));
    assert_eq!((fills[1].price, fills[1].amount), (101, 3));

    let snap = ex.get_order_book(BASE, QUOTE).unwrap();
    assert_eq!(snap.ask_prices, vec![101]);
    assert_eq!(snap.ask_amounts, vec![2]);
    assert_eq!(ex.get_balance(ALICE, BASE), 8);
    assert_eq!(ex.get_balance(ALICE, QUOTE), 10_000 - 5 * 100 - 3 * 101);
}

#[test]
fn overflowing_buy_reservation_is_rejected() {
    let mut ex = setup();
    assert_eq!(ex.deposit(ALICE, QUOTE, 1_000), Ok(()));
    let r = ex.place_limit_order(ALICE, BASE, QUOTE, u64::MAX, 2, Side::Buy);
    assert_eq!(r, Err(DexError::Overflow));
    // nothing was locked or recorded
    assert_eq!(ex.get_balance(ALICE, QUOTE), 1_000);
    assert_eq!(ex.locked_balance(ALICE, QUOTE), 0);
    assert!(ex.get_order(0).is_none());
}

#[test]
fn partial_fill_then_cancel_keeps_the_fill_record() {
    let mut ex = setup();
    assert_eq!(ex.deposit(BOB, BASE, 10), Ok(()));
    assert_eq!(ex.deposit(ALICE, QUOTE, 1_000), Ok(()));
    let (ask_id, _) = ex.place_limit_order(BOB, BASE, QUOTE, 10, 100, Side::Sell).unwrap();
    let (_, fills) = ex.place_limit_order(ALICE, BASE, QUOTE, 4, 100, Side::Buy).unwrap();
    assert_eq!(fills.len(), 1);
    assert_eq!(fills[0].amount, 4);
    assert_eq!(ex.get_order(ask_id).unwrap().status, OrderStatus::PartiallyFilled);
    assert_eq!(ex.locked_balance(BOB, BASE), 6);

    assert_eq!(ex.cancel_order(ask_id, BOB), Ok(()));
    assert_eq!(ex.get_balance(BOB, BASE), 6);
    assert_eq!(ex.locked_balance(BOB, BASE), 0);

    // the trade history still holds the one fill of 4
    assert_eq!(ex.fill_count(), 1);
    let f = ex.get_fill(0).unwrap();
    assert_eq!(f.amount, 4);
    assert_eq!(f.maker_order_id, ask_id);
}

#[test]
fn pair_registration_errors() {
    let mut ex = Exchange::new();
    assert_eq!(ex.add_trading_pair(BASE, QUOTE, 0, 1), Err(DexError::InvalidParameters));
    assert_eq!(ex.add_trading_pair(BASE, QUOTE, 1, 0), Err(DexError::InvalidParameters));
    assert_eq!(ex.add_trading_pair(BASE, QUOTE, 1, 1), Ok(()));
    // an existing key wins over bad parameters: never InvalidParameters here
    assert_eq!(ex.add_trading_pair(BASE, QUOTE, 5, 2), Err(DexError::PairExists));
    assert_eq!(ex.add_trading_pair(BASE, QUOTE, 0, 0), Err(DexError::PairExists));
    // a market of a token against itself is admissible
    assert_eq!(ex.add_trading_pair(BASE, BASE, 1, 1), Ok(()));
}

#[test]
fn self_token_market_trades_cleanly() {
    let mut ex = Exchange::new();
    assert_eq!(ex.add_trading_pair(BASE, BASE, 1, 1), Ok(()));
    assert_eq!(ex.deposit(ALICE, BASE, 100), Ok(()));
    assert_eq!(ex.deposit(BOB, BASE, 10), Ok(()));
    ex.place_limit_order(BOB, BASE, BASE, 5, 2, Side::Sell).unwrap();
    // Alice pays 2 BASE per BASE unit: 5 units cost 10
    let (_, fills) = ex.place_limit_order(ALICE, BASE, BASE, 5, 2, Side::Buy).unwrap();
    assert_eq!(fills.len(), 1);
    assert_eq!(ex.get_balance(ALICE, BASE), 100 - 10 + 5);
    assert_eq!(ex.get_balance(BOB, BASE), 10 - 5 + 10);
    assert_eq!(ex.locked_balance(ALICE, BASE), 0);
    assert_eq!(ex.locked_balance(BOB, BASE), 0);
}

#[test]
fn order_validation_errors() {
    let mut ex = setup();
    assert_eq!(ex.deposit(ALICE, QUOTE, 1_000), Ok(()));
    // unknown pair
    assert_eq!(
        ex.place_limit_order(ALICE, BASE, 99, 5, 100, Side::Buy),
        Err(DexError::InvalidOrder)
    );
    // zero price
    assert_eq!(
        ex.place_limit_order(ALICE, BASE, QUOTE, 5, 0, Side::Buy),
        Err(DexError::InvalidOrder)
    );
    // amount under the pair minimum
    let mut ex2 = Exchange::new();
    assert_eq!(ex2.add_trading_pair(BASE, QUOTE, 10, 1), Ok(()));
    assert_eq!(ex2.deposit(ALICE, QUOTE, 1_000), Ok(()));
    assert_eq!(
        ex2.place_limit_order(ALICE, BASE, QUOTE, 9, 100, Side::Buy),
        Err(DexError::InvalidOrder)
    );
    // inactive pair
    assert_eq!(ex.set_pair_active(BASE, QUOTE, false), Ok(()));
    assert_eq!(
        ex.place_limit_order(ALICE, BASE, QUOTE, 5, 100, Side::Buy),
        Err(DexError::InvalidOrder)
    );
    assert!(matches!(ex.get_order_book(BASE, QUOTE), Err(DexError::PairNotFound)));
    assert_eq!(ex.set_pair_active(BASE, QUOTE, true), Ok(()));
    assert!(ex.get_order_book(BASE, QUOTE).is_ok());
}

#[test]
fn price_precision_grid() {
    let mut ex = Exchange::new();
    assert_eq!(ex.add_trading_pair(BASE, QUOTE, 1, 10), Ok(()));
    assert_eq!(ex.deposit(ALICE, QUOTE, 1_000), Ok(()));
    assert_eq!(
        ex.place_limit_order(ALICE, BASE, QUOTE, 5, 25, Side::Buy),
        Err(DexError::InvalidOrder)
    );
    assert!(ex.place_limit_order(ALICE, BASE, QUOTE, 5, 30, Side::Buy).is_ok());
}

#[test]
fn insufficient_funds_is_rejected_before_any_change() {
    let mut ex = setup();
    assert_eq!(ex.deposit(ALICE, QUOTE, 499), Ok(()));
    assert_eq!(
        ex.place_limit_order(ALICE, BASE, QUOTE, 5, 100, Side::Buy),
        Err(DexError::InsufficientFunds)
    );
    assert_eq!(ex.get_balance(ALICE, QUOTE), 499);
    assert_eq!(
        ex.place_market_order(ALICE, BASE, QUOTE, 5, Side::Sell),
        Err(DexError::InsufficientFunds)
    );
}

#[test]
fn cancel_errors() {
    let mut ex = setup();
    assert_eq!(ex.deposit(BOB, BASE, 10), Ok(()));
    assert_eq!(ex.cancel_order(7, BOB), Err(DexError::NotFound));
    let (ask_id, _) = ex.place_limit_order(BOB, BASE, QUOTE, 10, 100, Side::Sell).unwrap();
    assert_eq!(ex.cancel_order(ask_id, ALICE), Err(DexError::NotOwner));
    assert_eq!(ex.cancel_order(ask_id, BOB), Ok(()));
}

#[test]
fn withdraw_respects_locked_funds() {
    let mut ex = setup();
    assert_eq!(ex.deposit(BOB, BASE, 10), Ok(()));
    ex.place_limit_order(BOB, BASE, QUOTE, 7, 100, Side::Sell).unwrap();
    // 3 available, 7 locked: only the available part can leave
    assert_eq!(ex.withdraw(BOB, BASE, 4), Err(DexError::InsufficientFunds));
    assert_eq!(ex.withdraw(BOB, BASE, 3), Ok(()));
    assert_eq!(ex.get_balance(BOB, BASE), 0);
    assert_eq!(ex.locked_balance(BOB, BASE), 7);
}

#[test]
fn deposit_overflow_is_rejected() {
    let mut ex = setup();
    assert_eq!(ex.deposit(ALICE, QUOTE, u64::MAX), Ok(()));
    assert_eq!(ex.deposit(BOB, QUOTE, 1), Err(DexError::Overflow));
    assert_eq!(ex.get_balance(BOB, QUOTE), 0);
}

#[test]
fn market_buy_stops_when_funds_run_out() {
    let mut ex = setup();
    assert_eq!(ex.deposit(ALICE, QUOTE, 250), Ok(()));
    assert_eq!(ex.deposit(BOB, BASE, 5), Ok(()));
    ex.place_limit_order(BOB, BASE, QUOTE, 5, 100, Side::Sell).unwrap();

    let (id, fills) = ex.place_market_order(ALICE, BASE, QUOTE, 5, Side::Buy).unwrap();
    assert_eq!(fills.len(), 1);
    assert_eq!(fills[0].amount, 2);
    assert_eq!(ex.get_balance(ALICE, QUOTE), 50);
    assert_eq!(ex.get_balance(ALICE, BASE), 2);
    assert_eq!(ex.locked_balance(ALICE, QUOTE), 0);
    // market orders never rest
    let o = ex.get_order(id).unwrap();
    assert_eq!(o.status, OrderStatus::Filled);
    assert_eq!(o.amount_remaining, 3);
    let snap = ex.get_order_book(BASE, QUOTE).unwrap();
    assert_eq!(snap.ask_amounts, vec![3]);
}

#[test]
fn market_order_on_empty_book_closes_unfilled() {
    let mut ex = setup();
    assert_eq!(ex.deposit(ALICE, QUOTE, 1_000), Ok(()));
    let (id, fills) = ex.place_market_order(ALICE, BASE, QUOTE, 5, Side::Buy).unwrap();
    assert!(fills.is_empty());
    let o = ex.get_order(id).unwrap();
    assert_eq!(o.status, OrderStatus::Filled);
    assert_eq!(o.amount_remaining, 5);
    assert_eq!(ex.get_balance(ALICE, QUOTE), 1_000);
    assert_eq!(ex.locked_balance(ALICE, QUOTE), 0);
}

#[test]
fn user_orders_lists_open_orders_in_placement_order() {
    let mut ex = setup();
    assert_eq!(ex.deposit(ALICE, QUOTE, 10_000), Ok(()));
    assert_eq!(ex.deposit(BOB, BASE, 10), Ok(()));
    let (a1, _) = ex.place_limit_order(ALICE, BASE, QUOTE, 5, 90, Side::Buy).unwrap();
    let (b1, _) = ex.place_limit_order(BOB, BASE, QUOTE, 5, 200, Side::Sell).unwrap();
    let (a2, _) = ex.place_limit_order(ALICE, BASE, QUOTE, 5, 95, Side::Buy).unwrap();
    assert_eq!(ex.get_user_orders(ALICE), vec![a1, a2]);
    assert_eq!(ex.get_user_orders(BOB), vec![b1]);
    assert_eq!(ex.cancel_order(a1, ALICE), Ok(()));
    assert_eq!(ex.get_user_orders(ALICE), vec![a2]);
}

#[test]
fn snapshot_aggregates_levels_in_priority_order() {
    let mut ex = setup();
    assert_eq!(ex.deposit(ALICE, QUOTE, 100_000), Ok(()));
    assert_eq!(ex.deposit(BOB, BASE, 100), Ok(()));
    ex.place_limit_order(ALICE, BASE, QUOTE, 3, 98, Side::Buy).unwrap();
    ex.place_limit_order(ALICE, BASE, QUOTE, 4, 99, Side::Buy).unwrap();
    ex.place_limit_order(ALICE, BASE, QUOTE, 2, 98, Side::Buy).unwrap();
    ex.place_limit_order(BOB, BASE, QUOTE, 7, 105, Side::Sell).unwrap();
    ex.place_limit_order(BOB, BASE, QUOTE, 1, 103, Side::Sell).unwrap();

    let snap = ex.get_order_book(BASE, QUOTE).unwrap();
    assert_eq!(snap.bid_prices, vec![99, 98]);
    assert_eq!(snap.bid_amounts, vec![4, 5]);
    assert_eq!(snap.ask_prices, vec![103, 105]);
    assert_eq!(snap.ask_amounts, vec![1, 7]);
}

#[test]
fn self_trade_settles_cleanly() {
    let mut ex = setup();
    assert_eq!(ex.deposit(ALICE, QUOTE, 1_000), Ok(()));
    assert_eq!(ex.deposit(ALICE, BASE, 5), Ok(()));
    ex.place_limit_order(ALICE, BASE, QUOTE, 5, 100, Side::Sell).unwrap();
    let (_, fills) = ex.place_limit_order(ALICE, BASE, QUOTE, 5, 100, Side::Buy).unwrap();
    assert_eq!(fills.len(), 1);
    assert_eq!(ex.get_balance(ALICE, QUOTE), 1_000);
    assert_eq!(ex.get_balance(ALICE, BASE), 5);
    assert_eq!(ex.locked_balance(ALICE, QUOTE), 0);
    assert_eq!(ex.locked_balance(ALICE, BASE), 0);
}

#[test]
fn limit_buy_refund_only_on_price_improvement() {
    let mut ex = setup();
    assert_eq!(ex.deposit(ALICE, QUOTE, 2_000), Ok(()));
    assert_eq!(ex.deposit(BOB, BASE, 3), Ok(()));
    ex.place_limit_order(BOB, BASE, QUOTE, 3, 100, Side::Sell).unwrap();
    // bid for 10 at 110: 3 fill at 100, 7 rest with 7 * 110 locked
    let (bid_id, fills) = ex.place_limit_order(ALICE, BASE, QUOTE, 10, 110, Side::Buy).unwrap();
    assert_eq!(fills.len(), 1);
    assert_eq!(fills[0].price, 100);
    assert_eq!(ex.locked_balance(ALICE, QUOTE), 7 * 110);
    assert_eq!(ex.get_balance(ALICE, QUOTE), 2_000 - 10 * 110 + 3 * 10);
    assert_eq!(ex.get_order(bid_id).unwrap().status, OrderStatus::PartiallyFilled);
}

#[test]
fn load_contract_bytecode_is_the_minimal_constructor() {
    let b = orderbook_dex::artifact::load_contract_bytecode();
    assert_eq!(b, vec![0x60, 0x80, 0x60, 0x40, 0x52]);
}

#[test]
fn limit_sell_crosses_bid_at_the_bid_price() {
    let mut ex = setup();
    assert_eq!(ex.deposit(ALICE, QUOTE, 1_000), Ok(()));
    assert_eq!(ex.deposit(BOB, BASE, 4), Ok(()));
    ex.place_limit_order(ALICE, BASE, QUOTE, 4, 100, Side::Buy).unwrap();
    // the seller asks 90 but receives the resting bid's 100
    let (_, fills) = ex.place_limit_order(BOB, BASE, QUOTE, 4, 90, Side::Sell).unwrap();
    assert_eq!(fills.len(), 1);
    assert_eq!(fills[0].price, 100);
    assert_eq!(ex.get_balance(BOB, QUOTE), 400);
    assert_eq!(ex.get_balance(ALICE, BASE), 4);
    assert_eq!(ex.locked_balance(ALICE, QUOTE), 0);
}

#[test]
fn toggling_an_unknown_pair_fails() {
    let mut ex = Exchange::new();
    assert_eq!(ex.set_pair_active(BASE, QUOTE, false), Err(DexError::PairNotFound));
}

#[test]
fn untouched_accounts_read_as_empty() {
    let ex = setup();
    assert_eq!(ex.get_balance(CAROL, BASE), 0);
    assert_eq!(ex.locked_balance(CAROL, BASE), 0);
    assert!(ex.get_user_orders(CAROL).is_empty());
    assert_eq!(ex.fill_count(), 0);
    assert!(ex.get_fill(0).is_none());
}
