use orderbook::error::{BookResult, OrderBookError};
use orderbook::order::{Order, OrderId, OrderModify, OrderType, Price, Quantity, Side};
use orderbook::orderbook::{LevelInfo, OrderBook, OrderBookLevelInfos};
use orderbook::trade::{Trade, TradeInfo};

fn gtc(id: OrderId, side: Side, price: Price, quantity: Quantity) -> Order {
    Order::new(OrderType::GoodTillCancel, id, side, price, quantity)
}

fn fak(id: OrderId, side: Side, price: Price, quantity: Quantity) -> Order {
    Order::new(OrderType::FillAndKill, id, side, price, quantity)
}

fn levels(infos: &[LevelInfo]) -> Vec<(Price, Quantity)> {
    infos.iter().map(|l| (l.price, l.quantity)).collect()
}

fn trade(bid: (OrderId, Price, Quantity), ask: (OrderId, Price, Quantity)) -> Trade {
    Trade::new(
        TradeInfo { order_id: bid.0, price: bid.1, quantity: bid.2 },
        TradeInfo { order_id: ask.0, price: ask.1, quantity: ask.2 },
    )
}

#[test]
fn test_add_order() -> BookResult<()> {
    let mut book = OrderBook::new("AAPL");
    assert!(book.add_order(gtc(1, Side::Buy, 100, 10))?.is_none());
    let infos = book.get_order_infos();
    assert_eq!(levels(infos.get_bids()), vec![(100, 10)]);
    assert!(infos.get_asks().is_empty());
    Ok(())
}

#[test]
fn test_add_duplicate_order_id() -> BookResult<()> {
    let mut book = OrderBook::new("AAPL");
    book.add_order(gtc(1, Side::Buy, 100, 10))?;
    let result = book.add_order(gtc(1, Side::Sell, 120, 5));
    assert_eq!(result.unwrap_err(), OrderBookError::OrderAlreadyExists(1));
    let infos = book.get_order_infos();
    assert_eq!(levels(infos.get_bids()), vec![(100, 10)]);
    assert!(infos.get_asks().is_empty());
    Ok(())
}

#[test]
fn test_cancel_order_non_existent_id() -> BookResult<()> {
    let mut book = OrderBook::new("AAPL");
    book.add_order(gtc(1, Side::Buy, 100, 10))?;
    assert_eq!(book.cancel_order(2), Err(OrderBookError::OrderNotFound(2)));
    assert_eq!(levels(book.get_order_infos().get_bids()), vec![(100, 10)]);
    Ok(())
}

#[test]
fn test_cancel_order() -> BookResult<()> {
    let mut book = OrderBook::new("AAPL");
    book.add_order(gtc(1, Side::Buy, 100, 10))?;
    book.add_order(gtc(2, Side::Buy, 100, 5))?;
    assert_eq!(book.cancel_order(1)?, 1);
    assert_eq!(levels(book.get_order_infos().get_bids()), vec![(100, 5)]);
    assert_eq!(book.cancel_order(2)?, 2);
    assert!(book.get_order_infos().get_bids().is_empty());
    Ok(())
}

#[test]
fn orderbook_test_modify_order() -> BookResult<()> {
    let mut book = OrderBook::new("AAPL");
    book.add_order(gtc(1, Side::Buy, 100, 10))?;
    let trades = book.modify_order(OrderModify::new(1, None, Some(105), Some(7)))?;
    assert!(trades.is_none());
    assert_eq!(levels(book.get_order_infos().get_bids()), vec![(105, 7)]);
    Ok(())
}

#[test]
fn test_modify_non_existent_order() -> BookResult<()> {
    let mut book = OrderBook::new("AAPL");
    book.add_order(gtc(1, Side::Buy, 100, 10))?;
    let result = book.modify_order(OrderModify::new(9, None, Some(105), None));
    assert_eq!(result.unwrap_err(), OrderBookError::OrderNotFound(9));
    assert_eq!(levels(book.get_order_infos().get_bids()), vec![(100, 10)]);
    Ok(())
}

#[test]
fn test_order_infos_book_empty_state() -> BookResult<()> {
    let book = OrderBook::new("AAPL");
    let infos = book.get_order_infos();
    assert!(infos.get_bids().is_empty());
    assert!(infos.get_asks().is_empty());
    Ok(())
}

#[test]
fn test_order_infos_book_non_empty_state() -> BookResult<()> {
    let mut book = OrderBook::new("AAPL");
    book.add_order(gtc(1, Side::Buy, 100, 10))?;
    book.add_order(gtc(2, Side::Buy, 99, 4))?;
    book.add_order(gtc(3, Side::Buy, 100, 6))?;
    book.add_order(gtc(4, Side::Sell, 110, 3))?;
    book.add_order(gtc(5, Side::Sell, 105, 8))?;
    let infos = book.get_order_infos();
    assert_eq!(levels(infos.get_bids()), vec![(99, 4), (100, 16)]);
    assert_eq!(levels(infos.get_asks()), vec![(105, 8), (110, 3)]);
    Ok(())
}

#[test]
fn match_two_good_till_cancels() -> BookResult<()> {
    let mut book: OrderBook = OrderBook::new("QQQ");

    let bid_price: Price = 10000;
    let ask_price: Price = 12000;

    let bid = Order::new(
        OrderType::GoodTillCancel,
        101212 as OrderId,
        Side::Buy,
        bid_price,
        100 as Quantity,
    )
    .to_order_ref();

    let ask = Order::new(
        OrderType::GoodTillCancel,
        111 as OrderId,
        Side::Sell,
        ask_price,
        100 as Quantity,
    )
    .to_order_ref();

    book.add_order(bid)?;
    let trade = book.add_order(ask)?;
    assert!(trade.is_none());
    Ok(())
}

#[test]
fn non_crossing_gtc_pair_rests_on_both_sides() -> BookResult<()> {
    let mut book = OrderBook::new("AAPL");
    assert!(book.add_order(gtc(1, Side::Buy, 100, 10))?.is_none());
    assert!(book.add_order(gtc(2, Side::Sell, 120, 10))?.is_none());
    let infos = book.get_order_infos();
    assert_eq!(levels(infos.get_bids()), vec![(100, 10)]);
    assert_eq!(levels(infos.get_asks()), vec![(120, 10)]);
    Ok(())
}

#[test]
fn full_cross_of_equal_size_empties_the_book() -> BookResult<()> {
    let mut book = OrderBook::new("AAPL");
    book.add_order(gtc(1, Side::Buy, 100, 10))?;
    let trades = book.add_order(gtc(2, Side::Sell, 100, 10))?.unwrap();
    assert_eq!(trades, vec![trade((1, 100, 10), (2, 100, 10))]);
    let infos = book.get_order_infos();
    assert!(infos.get_bids().is_empty());
    assert!(infos.get_asks().is_empty());
    assert_eq!(book.cancel_order(1), Err(OrderBookError::OrderNotFound(1)));
    assert_eq!(book.cancel_order(2), Err(OrderBookError::OrderNotFound(2)));
    Ok(())
}

#[test]
fn partial_fill_leaves_the_maker_resting() -> BookResult<()> {
    let mut book = OrderBook::new("AAPL");
    book.add_order(gtc(1, Side::Buy, 100, 10))?;
    let trades = book.add_order(gtc(2, Side::Sell, 100, 4))?.unwrap();
    assert_eq!(trades, vec![trade((1, 100, 4), (2, 100, 4))]);
    let infos = book.get_order_infos();
    assert_eq!(levels(infos.get_bids()), vec![(100, 6)]);
    assert!(infos.get_asks().is_empty());
    assert_eq!(book.cancel_order(1)?, 1);
    assert_eq!(book.cancel_order(2), Err(OrderBookError::OrderNotFound(2)));
    Ok(())
}

#[test]
fn fill_and_kill_on_empty_book_is_dropped() -> BookResult<()> {
    let mut book = OrderBook::new("AAPL");
    assert!(book.add_order(fak(1, Side::Sell, 100, 10))?.is_none());
    let infos = book.get_order_infos();
    assert!(infos.get_bids().is_empty());
    assert!(infos.get_asks().is_empty());
    assert_eq!(book.cancel_order(1), Err(OrderBookError::OrderNotFound(1)));
    Ok(())
}

#[test]
fn fill_and_kill_sweeps_its_remainder() -> BookResult<()> {
    let mut book = OrderBook::new("AAPL");
    book.add_order(gtc(1, Side::Sell, 100, 3))?;
    book.add_order(gtc(2, Side::Sell, 101, 3))?;
    let trades = book.add_order(fak(9, Side::Buy, 101, 10))?.unwrap();
    assert_eq!(
        trades,
        vec![trade((9, 101, 3), (1, 100, 3)), trade((9, 101, 3), (2, 101, 3))]
    );
    let infos = book.get_order_infos();
    assert!(infos.get_bids().is_empty());
    assert!(infos.get_asks().is_empty());
    assert_eq!(book.cancel_order(9), Err(OrderBookError::OrderNotFound(9)));
    Ok(())
}

#[test]
fn modified_order_loses_time_priority() -> BookResult<()> {
    let mut book = OrderBook::new("AAPL");
    book.add_order(gtc(1, Side::Buy, 100, 5))?;
    book.add_order(gtc(2, Side::Buy, 100, 5))?;
    assert!(book.modify_order(OrderModify::new(1, None, None, Some(7)))?.is_none());
    let trades = book.add_order(gtc(3, Side::Sell, 100, 5))?.unwrap();
    assert_eq!(trades, vec![trade((2, 100, 5), (3, 100, 5))]);
    assert_eq!(levels(book.get_order_infos().get_bids()), vec![(100, 7)]);
    Ok(())
}

#[test]
fn modify_reprices_a_resting_order_after_a_sweep() -> BookResult<()> {
    let mut book = OrderBook::new("AAPL");
    book.add_order(gtc(1, Side::Sell, 100, 5))?;
    book.add_order(fak(2, Side::Buy, 100, 8))?;
    book.add_order(gtc(3, Side::Sell, 110, 5))?;
    book.add_order(gtc(4, Side::Buy, 90, 5))?;
    assert!(book.modify_order(OrderModify::new(4, None, Some(95), None))?.is_none());
    assert_eq!(levels(book.get_order_infos().get_bids()), vec![(95, 5)]);
    Ok(())
}

#[test]
fn cancel_twice_reports_not_found_and_restores_the_book() -> BookResult<()> {
    let mut book = OrderBook::new("AAPL");
    book.add_order(gtc(1, Side::Buy, 100, 10))?;
    book.add_order(gtc(2, Side::Sell, 120, 10))?;
    let before = book.get_order_infos();
    book.add_order(gtc(3, Side::Buy, 100, 4))?;
    assert_eq!(book.cancel_order(3)?, 3);
    assert_eq!(book.cancel_order(3), Err(OrderBookError::OrderNotFound(3)));
    let after = book.get_order_infos();
    assert_eq!(levels(before.get_bids()), levels(after.get_bids()));
    assert_eq!(levels(before.get_asks()), levels(after.get_asks()));
    Ok(())
}

#[test]
fn two_snapshots_without_mutation_are_equal() -> BookResult<()> {
    let mut book = OrderBook::new("AAPL");
    book.add_order(gtc(1, Side::Buy, 100, 10))?;
    book.add_order(gtc(2, Side::Sell, 120, 3))?;
    let first = book.get_order_infos();
    let second = book.get_order_infos();
    assert_eq!(first.get_bids(), second.get_bids());
    assert_eq!(first.get_asks(), second.get_asks());
    Ok(())
}

#[test]
fn traded_quantities_balance_across_levels() -> BookResult<()> {
    let mut book = OrderBook::new("AAPL");
    book.add_order(gtc(1, Side::Buy, 101, 4))?;
    book.add_order(gtc(2, Side::Buy, 100, 6))?;
    let trades = book.add_order(gtc(3, Side::Sell, 99, 12))?.unwrap();
    assert_eq!(
        trades,
        vec![trade((1, 101, 4), (3, 99, 4)), trade((2, 100, 6), (3, 99, 6))]
    );
    let bid_total: u32 = trades.iter().map(|t| t.bid_trade.quantity).sum();
    let ask_total: u32 = trades.iter().map(|t| t.ask_trade.quantity).sum();
    assert_eq!(bid_total, ask_total);
    let infos = book.get_order_infos();
    assert!(infos.get_bids().is_empty());
    assert_eq!(levels(infos.get_asks()), vec![(99, 2)]);
    Ok(())
}

#[test]
fn level_infos_copy_their_inputs() {
    let bids = vec![LevelInfo { price: 100, quantity: 5 }];
    let asks = vec![LevelInfo { price: 101, quantity: 7 }, LevelInfo { price: 102, quantity: 1 }];
    let infos = OrderBookLevelInfos::new(&bids, &asks);
    assert_eq!(infos.get_bids(), &bids);
    assert_eq!(infos.get_asks(), &asks);
}

#[test]
fn level_total_saturates_at_the_largest_quantity() -> BookResult<()> {
    let mut book = OrderBook::new("AAPL");
    book.add_order(gtc(1, Side::Buy, 100, u32::MAX))?;
    book.add_order(gtc(2, Side::Buy, 100, 10))?;
    assert_eq!(levels(book.get_order_infos().get_bids()), vec![(100, u32::MAX)]);
    Ok(())
}
