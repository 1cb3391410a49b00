use vstd::prelude::*;

use crate::order::{OrderId, Price, Quantity};

verus! {

/// One side of a matched pair: which order traded, at its own price, and how much.
#[derive(Clone, Copy, Debug, PartialEq, Eq)]
pub struct TradeInfo {
    pub order_id: OrderId,
    pub price: Price,
    pub quantity: Quantity,
}

/// A matched pair of orders: the buy side (`bid_trade`) and the sell side (`ask_trade`).
#[derive(Clone, Copy, Debug, PartialEq, Eq)]
pub struct Trade {
    pub bid_trade: TradeInfo,
    pub ask_trade: TradeInfo,
}

impl Trade {
    pub fn new(bid_trade: TradeInfo, ask_trade: TradeInfo) -> (r: Trade)
        ensures
            r.bid_trade == bid_trade,
            r.ask_trade == ask_trade,
    {
        Trade { bid_trade, ask_trade }
    }
}

/// The trades produced by one call into the book, in the order they happened.
pub type Trades = Vec<Trade>;

} // verus!
