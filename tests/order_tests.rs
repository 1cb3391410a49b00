use orderbook::error::{OrdResult, OrderBookError, OrderError};
use orderbook::order::{Order, OrderId, OrderModify, OrderType, Price, Quantity, Side};

#[test]
fn test_fill_order() -> OrdResult<()> {
    let mut order = Order::new(
        OrderType::GoodTillCancel,
        101212 as OrderId,
        Side::Sell,
        30 as Price,
        100 as Quantity,
    );

    order.fill(32)?;
    assert_eq!(*order.get_remaining_quantity(), 68 as Quantity);

    let mut order = Order::new(
        OrderType::GoodTillCancel,
        101212 as OrderId,
        Side::Sell,
        30 as Price,
        100 as Quantity,
    );

    order.fill(100)?;
    assert_eq!(*order.get_remaining_quantity(), 0 as Quantity);
    Ok(())
}

#[test]
fn test_over_fill_order() {
    let mut order = Order::new(
        OrderType::GoodTillCancel,
        101212 as OrderId,
        Side::Sell,
        30 as Price,
        100 as Quantity,
    );

    assert_eq!(
        order.fill(130),
        Err(OrderError::RequestedFillTooLarge { surplus: 30 })
    );
    assert_eq!(*order.get_remaining_quantity(), 100);
}

#[test]
fn order_test_modify_order() -> OrdResult<()> {
    let order_id: OrderId = 101212;

    let order_to_modify = Order::new(
        OrderType::GoodTillCancel,
        order_id,
        Side::Sell,
        30 as Price,
        100 as Quantity,
    );

    let mod_details_1 = OrderModify::new(order_id, None, Some(44), None);

    let order = mod_details_1.to_order(order_to_modify)?;

    assert_eq!(
        order,
        Order::new(
            OrderType::GoodTillCancel,
            order_id,
            Side::Sell,
            44 as Price,
            100 as Quantity
        )
    );

    let mod_details_2 = OrderModify::new(101212 as OrderId, Some(Side::Buy), None, Some(400));

    let order = mod_details_2.to_order(order)?;

    assert_eq!(
        order,
        Order::new(
            OrderType::GoodTillCancel,
            order_id,
            Side::Buy,
            44 as Price,
            400 as Quantity
        )
    );

    Ok(())
}

#[test]
fn test_modify_order_mismatched_ids() {
    let order_to_modify = Order::new(
        OrderType::GoodTillCancel,
        101212 as OrderId,
        Side::Sell,
        30 as Price,
        100 as Quantity,
    );

    let mod_details_1 = OrderModify::new(10, None, Some(44), None);

    let order = mod_details_1.to_order(order_to_modify);

    assert!(matches!(order, Err(OrderError::ModificationError(_))));
}

#[test]
fn order_getters_read_back_what_was_given() {
    let mut order = Order::new(OrderType::FillAndKill, 7, Side::Buy, 250, 40);
    assert_eq!(*order.get_order_type(), OrderType::FillAndKill);
    assert_eq!(*order.get_order_id(), 7);
    assert_eq!(*order.get_side(), Side::Buy);
    assert_eq!(*order.get_price(), 250);
    assert_eq!(*order.get_initial_quantity(), 40);
    assert_eq!(*order.get_remaining_quantity(), 40);
    assert_eq!(order.get_filled_quantity(), 0);
    assert!(!order.is_filled());
    order.fill(15).unwrap();
    assert_eq!(order.get_filled_quantity(), 15);
    order.fill(25).unwrap();
    assert!(order.is_filled());
    assert_eq!(order.get_filled_quantity(), 40);
    assert_eq!(order.to_order_ref(), order);
}

#[test]
fn modify_keeps_type_and_resets_progress() {
    let mut order = Order::new(OrderType::FillAndKill, 3, Side::Sell, 90, 20);
    order.fill(5).unwrap();
    let modify = OrderModify::new(3, None, None, None);
    assert_eq!(*modify.get_order_id(), 3);
    assert_eq!(*modify.get_side(), None);
    assert_eq!(*modify.get_price(), None);
    assert_eq!(*modify.get_quantity(), None);
    let made = modify.to_order(order).unwrap();
    assert_eq!(made, Order::new(OrderType::FillAndKill, 3, Side::Sell, 90, 20));
    assert_eq!(*made.get_remaining_quantity(), 20);
}

#[test]
fn order_errors_map_to_book_errors() {
    let e = OrderBookError::from(OrderError::RequestedFillTooLarge { surplus: 3 });
    assert_eq!(
        e,
        OrderBookError::InternalOrderProcessingError(
            "Book tried to overfill an order by 3".to_string()
        )
    );
    let e = OrderBookError::from(OrderError::ModificationError("bad".to_string()));
    assert_eq!(e, OrderBookError::ModificationError("bad".to_string()));
}
