use vstd::prelude::*;

use crate::error::{OrdResult, OrderError};

verus! {

/// How long an order may rest in the book.
#[derive(Clone, Copy, Debug, PartialEq, Eq, Structural)]
pub enum OrderType {
    /// Trades whatever is immediately available; the rest is discarded.
    FillAndKill,
    /// Rests in the book until filled or cancelled.
    GoodTillCancel,
}

/// Which side of the book an order belongs to.
#[derive(Clone, Copy, Debug, PartialEq, Eq, Structural)]
pub enum Side {
    Buy,
    Sell,
}

/// Bid or ask price of an order, in cents.
pub type Price = i32;

pub type Quantity = u32;

pub type OrderId = i64;

/// The mathematical value of an [`Order`]: its six attributes.
pub ghost struct OrderModel {
    pub order_type: OrderType,
    pub order_id: OrderId,
    pub side: Side,
    pub price: Price,
    pub initial_quantity: Quantity,
    pub remaining_quantity: Quantity,
}

/// An order sent to the exchange.
#[derive(Clone, Copy, Debug, PartialEq, Eq)]
pub struct Order {
    order_type: OrderType,
    order_id: OrderId,
    side: Side,
    price: Price,
    initial_quantity: Quantity,
    remaining_quantity: Quantity,
}

impl View for Order {
    type V = OrderModel;

    closed spec fn view(&self) -> OrderModel {
        OrderModel {
            order_type: self.order_type,
            order_id: self.order_id,
            side: self.side,
            price: self.price,
            initial_quantity: self.initial_quantity,
            remaining_quantity: self.remaining_quantity,
        }
    }
}

impl Order {
    /// An order never has more left than it started with.
    #[verifier::type_invariant]
    pub closed spec fn inv(&self) -> bool {
        self.remaining_quantity <= self.initial_quantity
    }
}

/// A fresh order: nothing of it filled yet.
pub open spec fn fresh_order(
    order_type: OrderType,
    order_id: OrderId,
    side: Side,
    price: Price,
    quantity: Quantity,
) -> OrderModel {
    OrderModel {
        order_type,
        order_id,
        side,
        price,
        initial_quantity: quantity,
        remaining_quantity: quantity,
    }
}

impl Order {
    pub fn new(
        order_type: OrderType,
        order_id: OrderId,
        side: Side,
        price: Price,
        quantity: Quantity,
    ) -> (r: Order)
        ensures
            r@ == fresh_order(order_type, order_id, side, price, quantity),
    {
        Order {
            order_type,
            order_id,
            side,
            price,
            initial_quantity: quantity,
            remaining_quantity: quantity,
        }
    }

    pub fn get_order_type(&self) -> (r: &OrderType)
        ensures
            *r == self@.order_type,
    {
        &self.order_type
    }

    pub fn get_order_id(&self) -> (r: &OrderId)
        ensures
            *r == self@.order_id,
    {
        &self.order_id
    }

    pub fn get_side(&self) -> (r: &Side)
        ensures
            *r == self@.side,
    {
        &self.side
    }

    pub fn get_price(&self) -> (r: &Price)
        ensures
            *r == self@.price,
    {
        &self.price
    }

    pub fn get_initial_quantity(&self) -> (r: &Quantity)
        ensures
            *r == self@.initial_quantity,
    {
        &self.initial_quantity
    }

    pub fn get_remaining_quantity(&self) -> (r: &Quantity)
        ensures
            *r == self@.remaining_quantity,
    {
        &self.remaining_quantity
    }

    /// How much of the order has traded so far.
    pub fn get_filled_quantity(&self) -> (r: Quantity)
        ensures
            r == self@.initial_quantity - self@.remaining_quantity,
    {
        proof {
            use_type_invariant(self);
        }
        self.initial_quantity - self.remaining_quantity
    }

    pub fn is_filled(&self) -> (r: bool)
        ensures
            r == (self@.remaining_quantity == 0),
    {
        self.remaining_quantity == 0
    }

    /// Takes `quantity` off what the order still has; asking for more than
    /// that is refused and leaves the order as it was.
    pub fn fill(&mut self, quantity: Quantity) -> (r: OrdResult<()>)
        ensures
            quantity <= old(self)@.remaining_quantity ==> r is Ok && final(self)@ == (OrderModel {
                remaining_quantity: (old(self)@.remaining_quantity - quantity) as Quantity,
                ..old(self)@
            }),
            quantity > old(self)@.remaining_quantity ==> r == Err::<(), OrderError>(
                OrderError::RequestedFillTooLarge {
                    surplus: (quantity - old(self)@.remaining_quantity) as Quantity,
                },
            ) && final(self)@ == old(self)@,
    {
        proof {
            use_type_invariant(&*self);
        }
        if quantity > self.remaining_quantity {
            return Err(
                OrderError::RequestedFillTooLarge { surplus: quantity - self.remaining_quantity },
            );
        }
        self.remaining_quantity = self.remaining_quantity - quantity;
        Ok(())
    }

    /// Hands the order over as a value that the book can take in.
    pub fn to_order_ref(self) -> (r: OrderRef)
        ensures
            r@ == self@,
    {
        self
    }
}

/// What the book takes in and keeps of an order.
pub type OrderRef = Order;

/// A partial update of a resting order: the fields that are present replace
/// the order's own, the others are kept.
pub struct OrderModify {
    order_id: OrderId,
    side: Option<Side>,
    price: Option<Price>,
    quantity: Option<Quantity>,
}

/// The mathematical value of an [`OrderModify`].
pub ghost struct OrderModifyModel {
    pub order_id: OrderId,
    pub side: Option<Side>,
    pub price: Option<Price>,
    pub quantity: Option<Quantity>,
}

impl View for OrderModify {
    type V = OrderModifyModel;

    closed spec fn view(&self) -> OrderModifyModel {
        OrderModifyModel {
            order_id: self.order_id,
            side: self.side,
            price: self.price,
            quantity: self.quantity,
        }
    }
}

/// The order that a modification makes of `old`: present fields replace,
/// absent ones are inherited, the type is always kept, and nothing of the
/// new order is filled yet.
pub open spec fn modified_order(m: OrderModifyModel, old: OrderModel) -> OrderModel {
    fresh_order(
        old.order_type,
        m.order_id,
        match m.side {
            Some(s) => s,
            None => old.side,
        },
        match m.price {
            Some(p) => p,
            None => old.price,
        },
        match m.quantity {
            Some(q) => q,
            None => old.initial_quantity,
        },
    )
}

impl OrderModify {
    pub fn new(
        order_id: OrderId,
        side: Option<Side>,
        price: Option<Price>,
        quantity: Option<Quantity>,
    ) -> (r: OrderModify)
        ensures
            r@ == (OrderModifyModel { order_id, side, price, quantity }),
    {
        OrderModify { order_id, side, price, quantity }
    }

    pub fn get_order_id(&self) -> (r: &OrderId)
        ensures
            *r == self@.order_id,
    {
        &self.order_id
    }

    pub fn get_side(&self) -> (r: &Option<Side>)
        ensures
            *r == self@.side,
    {
        &self.side
    }

    pub fn get_price(&self) -> (r: &Option<Price>)
        ensures
            *r == self@.price,
    {
        &self.price
    }

    pub fn get_quantity(&self) -> (r: &Option<Quantity>)
        ensures
            *r == self@.quantity,
    {
        &self.quantity
    }

    /// Builds the replacement of `order_to_modify`; fails when the ids differ.
    pub fn to_order(&self, order_to_modify: Order) -> (r: OrdResult<Order>)
        ensures
            order_to_modify@.order_id != self@.order_id ==> r is Err && r->Err_0 is ModificationError,
            order_to_modify@.order_id == self@.order_id ==> r is Ok && r->Ok_0@ == modified_order(
                self@,
                order_to_modify@,
            ),
    {
        if *order_to_modify.get_order_id() != *self.get_order_id() {
            return Err(OrderError::ModificationError("order id does not match the modification".to_owned()));
        }
        let new_side = match self.get_side() {
            Some(side) => *side,
            None => *order_to_modify.get_side(),
        };
        let new_price = match self.get_price() {
            Some(price) => *price,
            None => *order_to_modify.get_price(),
        };
        let new_quantity = match self.get_quantity() {
            Some(quantity) => *quantity,
            None => *order_to_modify.get_initial_quantity(),
        };
        Ok(
            Order::new(
                *order_to_modify.get_order_type(),
                self.order_id,
                new_side,
                new_price,
                new_quantity,
            ),
        )
    }
}

} // verus!
