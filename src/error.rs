use vstd::prelude::*;

use crate::order::{OrderId, Quantity, Side};

verus! {

/// Errors reported by the order book.
#[derive(Debug, PartialEq, Eq, Clone)]
pub enum OrderBookError {
    /// No order with this id rests in the book.
    OrderNotFound(OrderId),
    /// An order with this id already rests in the book.
    OrderAlreadyExists(OrderId),
    /// A side that was expected to hold a level holds none.
    BookSideEmpty(Side),
    /// A modification descriptor did not fit the order it was applied to.
    ModificationError(String),
    /// A book invariant was found broken while processing an order.
    InternalOrderProcessingError(String),
}

/// Errors reported by a single order.
#[derive(Debug, PartialEq, Eq, Clone)]
pub enum OrderError {
    /// A fill asked for more than the order still has; `surplus` is the excess.
    RequestedFillTooLarge { surplus: Quantity },
    /// A modification descriptor was applied to an order with another id.
    ModificationError(String),
}

impl From<OrderError> for OrderBookError {
    /// An overfill is an internal fault of the book; a bad modification keeps
    /// its reason.
    fn from(value: OrderError) -> (r: OrderBookError)
        ensures
            value is RequestedFillTooLarge ==> r is InternalOrderProcessingError
                && r->InternalOrderProcessingError_0@ == overfill_message(
                value->RequestedFillTooLarge_surplus as nat,
            ),
            value is ModificationError ==> r == OrderBookError::ModificationError(
                value->ModificationError_0,
            ),
    {
        match value {
            OrderError::RequestedFillTooLarge { surplus } => {
                OrderBookError::InternalOrderProcessingError(overfill_reason(surplus))
            },
            OrderError::ModificationError(reason) => OrderBookError::ModificationError(reason),
        }
    }
}

/// The decimal digit `d`.
pub open spec fn digit_char(d: nat) -> char {
    seq!['0', '1', '2', '3', '4', '5', '6', '7', '8', '9'][d as int]
}

/// `n` written in decimal, without leading zeros.
pub open spec fn decimal(n: nat) -> Seq<char>
    decreases n,
{
    if n < 10 {
        seq![digit_char(n)]
    } else {
        decimal(n / 10).push(digit_char(n % 10))
    }
}

/// The message that reports an overfill by `surplus`.
pub open spec fn overfill_message(surplus: nat) -> Seq<char> {
    "Book tried to overfill an order by "@ + decimal(surplus)
}

/// Relies on `std::format!` with `u32`'s `Display`, which writes the number
/// in decimal without leading zeros or sign.
#[verifier::external_body]
fn overfill_reason(surplus: Quantity) -> (r: String)
    ensures
        r@ == overfill_message(surplus as nat),
{
    format!("Book tried to overfill an order by {}", surplus)
}

// The conversion is described by the `ensures` of `from` above; it keeps no
// spec-level image of the message text.
impl vstd::std_specs::convert::FromSpecImpl<OrderError> for OrderBookError {
    open spec fn obeys_from_spec() -> bool {
        false
    }

    open spec fn from_spec(v: OrderError) -> OrderBookError {
        OrderBookError::OrderNotFound(0)
    }
}

/// Result of an operation of the book.
pub type BookResult<T> = Result<T, OrderBookError>;

/// Result of an operation of a single order.
pub type OrdResult<T> = Result<T, OrderError>;

} // verus!
