//! The matching engine: two price-ordered sides of FIFO levels and an index
//! from order id to the resting order, kept in lockstep.

use vstd::prelude::*;
use vstd::std_specs::btree::{increasing_seq, spec_keys_iter};
use vstd::std_specs::cmp::OrdSpec;
use vstd::std_specs::iter::IteratorSpec;

use std::collections::{BTreeMap, HashMap};

use crate::error::{BookResult, OrderBookError};
use crate::level::{lemma_without, 
    level_front, level_ids, level_is_empty, level_new, level_push_back, level_remove, queued_ids, without,
    OrderIds,
};
use crate::order::{
    modified_order, Order, OrderId, OrderModel, OrderModify, OrderRef, OrderType, Price, Quantity,
    Side,
};
use crate::trade::{Trade, TradeInfo, Trades};

verus! {

/// Aggregate liquidity at one price.
#[derive(Clone, Copy, Debug, PartialEq, Eq)]
pub struct LevelInfo {
    pub price: Price,
    pub quantity: Quantity,
}

pub type LevelInfos = Vec<LevelInfo>;

/// A value copy of the book's levels, each side in ascending price.
#[derive(Clone, Debug)]
pub struct OrderBookLevelInfos {
    pub bids: LevelInfos,
    pub asks: LevelInfos,
}

impl OrderBookLevelInfos {
    pub fn new(bids: &LevelInfos, asks: &LevelInfos) -> (r: OrderBookLevelInfos)
        ensures
            r.bids@ == bids@,
            r.asks@ == asks@,
    {
        OrderBookLevelInfos { bids: copy_level_infos(bids), asks: copy_level_infos(asks) }
    }

    pub fn get_bids(&self) -> (r: &LevelInfos)
        ensures
            r@ == self.bids@,
    {
        &self.bids
    }

    pub fn get_asks(&self) -> (r: &LevelInfos)
        ensures
            r@ == self.asks@,
    {
        &self.asks
    }
}

fn copy_level_infos(v: &LevelInfos) -> (r: LevelInfos)
    ensures
        r@ == v@,
{
    let mut r: LevelInfos = Vec::new();
    for i in 0..v.len()
        invariant
            r@ == v@.take(i as int),
    {
        r.push(v[i]);
        assert(r@ =~= v@.take(i + 1));
    }
    assert(r@ =~= v@);
    r
}

/// The mathematical value of an [`OrderBook`].
pub ghost struct BookModel {
    /// Every resting order, by id.
    pub orders: Map<OrderId, OrderModel>,
    /// Buy levels: price to the ids resting there, oldest first.
    pub bids: Map<Price, Seq<OrderId>>,
    /// Sell levels: price to the ids resting there, oldest first.
    pub asks: Map<Price, Seq<OrderId>>,
}

impl BookModel {
    pub open spec fn levels(self, side: Side) -> Map<Price, Seq<OrderId>> {
        match side {
            Side::Buy => self.bids,
            Side::Sell => self.asks,
        }
    }

    pub open spec fn with_levels(
        self,
        side: Side,
        levels: Map<Price, Seq<OrderId>>,
        orders: Map<OrderId, OrderModel>,
    ) -> BookModel {
        match side {
            Side::Buy => BookModel { orders, bids: levels, asks: self.asks },
            Side::Sell => BookModel { orders, bids: self.bids, asks: levels },
        }
    }

    /// Each level of `side` is non-empty, lists each id once, and lists only
    /// orders that rest on `side` at that level's price.
    pub open spec fn levels_consistent(self, side: Side) -> bool {
        forall|p: Price| #[trigger]
            self.levels(side).contains_key(p) ==> {
                let q = self.levels(side)[p];
                &&& q.len() > 0
                &&& q.no_duplicates()
                &&& forall|i: int|
                    0 <= i < q.len() ==> self.orders.contains_key(#[trigger] q[i])
                        && self.orders[q[i]].side == side && self.orders[q[i]].price == p
            }
    }

    /// Each resting order is stored under its own id, has something left to
    /// trade, and is listed at the level its side and price name.
    pub open spec fn orders_located(self) -> bool {
        forall|id: OrderId| #[trigger]
            self.orders.contains_key(id) ==> {
                let o = self.orders[id];
                &&& o.order_id == id
                &&& 0 < o.remaining_quantity <= o.initial_quantity
                &&& self.levels(o.side).contains_key(o.price)
                &&& self.levels(o.side)[o.price].contains(id)
            }
    }

    /// The index and the two sides agree.
    pub open spec fn consistent(self) -> bool {
        &&& self.orders.dom().finite()
        &&& self.orders_located()
        &&& self.levels_consistent(Side::Buy)
        &&& self.levels_consistent(Side::Sell)
    }

    /// Every bid price lies below every ask price.
    pub open spec fn uncrossed(self) -> bool {
        forall|b: Price, a: Price| #[trigger]
            self.bids.contains_key(b) && #[trigger] self.asks.contains_key(a) ==> b < a
    }

    /// Only GoodTillCancel orders rest.
    pub open spec fn only_good_till_cancel(self) -> bool {
        forall|id: OrderId| #[trigger]
            self.orders.contains_key(id) ==> self.orders[id].order_type == OrderType::GoodTillCancel
    }

    /// What holds of the book between any two public operations.
    pub open spec fn valid(self) -> bool {
        &&& self.consistent()
        &&& self.uncrossed()
        &&& self.only_good_till_cancel()
    }

    /// An order at `price` on `side` finds a counterparty at or better than
    /// its price.
    pub open spec fn can_match(self, side: Side, price: Price) -> bool {
        match side {
            Side::Buy => exists|a: Price| #[trigger] self.asks.contains_key(a) && a <= price,
            Side::Sell => exists|b: Price| #[trigger] self.bids.contains_key(b) && price <= b,
        }
    }

    /// The book with `o` resting at the back of its level.
    pub open spec fn rest(self, o: OrderModel) -> BookModel {
        self.with_levels(
            o.side,
            add_to_level(self.levels(o.side), o.price, o.order_id),
            self.orders.insert(o.order_id, o),
        )
    }

    /// The book without the resting order `id`; a level left empty goes.
    pub open spec fn unrest(self, id: OrderId) -> BookModel {
        let o = self.orders[id];
        self.with_levels(
            o.side,
            drop_from_level(self.levels(o.side), o.price, id),
            self.orders.remove(id),
        )
    }

    /// Every resting order but `id` is GoodTillCancel; `id`, if it rests as a
    /// FillAndKill, is alone in its level and that level is the best of its
    /// side.
    pub open spec fn fak_confined(self, id: OrderId) -> bool {
        &&& forall|x: OrderId| #[trigger]
            self.orders.contains_key(x) && x != id ==> self.orders[x].order_type
                == OrderType::GoodTillCancel
        &&& (self.orders.contains_key(id) && self.orders[id].order_type == OrderType::FillAndKill)
            ==> {
            let o = self.orders[id];
            &&& self.levels(o.side)[o.price] == Seq::<OrderId>::empty().push(id)
            &&& forall|p: Price| #[trigger]
                self.levels(o.side).contains_key(p) && p != o.price ==> better(o.side, o.price, p)
        }
    }

    /// The book with the resting order `id` holding `o` in place of what it held.
    pub open spec fn update(self, id: OrderId, o: OrderModel) -> BookModel {
        BookModel { orders: self.orders.insert(id, o), ..self }
    }

    /// Each order of `self` is one of `start`'s, with nothing changed but
    /// possibly less left to trade.
    pub open spec fn narrowed_from(self, start: BookModel) -> bool {
        forall|x: OrderId| #[trigger]
            self.orders.contains_key(x) ==> {
                &&& start.orders.contains_key(x)
                &&& self.orders[x] == (OrderModel {
                    remaining_quantity: self.orders[x].remaining_quantity,
                    ..start.orders[x]
                })
                &&& self.orders[x].remaining_quantity <= start.orders[x].remaining_quantity
            }
    }

    /// Every crossing pair of prices involves the order `id`, alone at its
    /// level.
    pub open spec fn crossing_involves(self, id: OrderId) -> bool {
        forall|b: Price, a: Price| #[trigger]
            self.bids.contains_key(b) && #[trigger] self.asks.contains_key(a) && a <= b ==> {
                &&& self.orders.contains_key(id)
                &&& self.orders[id].side == Side::Buy ==> b == self.orders[id].price
                    && self.bids[b] == Seq::<OrderId>::empty().push(id)
                &&& self.orders[id].side == Side::Sell ==> a == self.orders[id].price
                    && self.asks[a] == Seq::<OrderId>::empty().push(id)
            }
    }

    /// What the order `id` still has to trade in this book; nothing if it does
    /// not rest.
    pub open spec fn held(self, id: OrderId) -> int {
        if self.orders.contains_key(id) {
            self.orders[id].remaining_quantity as int
        } else {
            0
        }
    }
}

/// Price `a` is strictly better than price `b` for an order on `side`.
pub open spec fn better(side: Side, a: Price, b: Price) -> bool {
    match side {
        Side::Buy => a > b,
        Side::Sell => a < b,
    }
}

/// Every trade pairs equal quantities, trades something, and pairs a bid at
/// or above the ask.
pub open spec fn trades_well_formed(ts: Seq<Trade>) -> bool {
    forall|i: int|
        0 <= i < ts.len() ==> {
            let t = #[trigger] ts[i];
            &&& t.bid_trade.quantity == t.ask_trade.quantity
            &&& t.bid_trade.quantity > 0
            &&& t.bid_trade.price >= t.ask_trade.price
        }
}

/// The part of trade `t` that belongs to the order on `side`.
pub open spec fn info_of(t: Trade, side: Side) -> TradeInfo {
    match side {
        Side::Buy => t.bid_trade,
        Side::Sell => t.ask_trade,
    }
}

/// Total quantity that the orders on `side` traded in `ts`.
pub open spec fn side_total(ts: Seq<Trade>, side: Side) -> int
    decreases ts.len(),
{
    if ts.len() == 0 {
        0
    } else {
        side_total(ts.drop_last(), side) + info_of(ts.last(), side).quantity
    }
}

/// What the order `x` traded in `ts`, on either side of each trade.
pub open spec fn traded_by(ts: Seq<Trade>, x: OrderId) -> int
    decreases ts.len(),
{
    if ts.len() == 0 {
        0
    } else {
        let t = ts.last();
        traded_by(ts.drop_last(), x) + (if t.bid_trade.order_id == x {
            t.bid_trade.quantity as int
        } else {
            0
        }) + (if t.ask_trade.order_id == x {
            t.ask_trade.quantity as int
        } else {
            0
        })
    }
}

/// Every trade of `ts` has the order `taker` on `side`, at the taker's
/// price, against an order of `book` on the other side at that order's price.
pub open spec fn trades_taken_by(ts: Seq<Trade>, taker: OrderModel, book: BookModel) -> bool {
    forall|i: int|
        0 <= i < ts.len() ==> {
            let t = #[trigger] ts[i];
            let maker = info_of(t, opposite(taker.side));
            &&& info_of(t, taker.side).order_id == taker.order_id
            &&& info_of(t, taker.side).price == taker.price
            &&& book.orders.contains_key(maker.order_id)
            &&& book.orders[maker.order_id].side == opposite(taker.side)
            &&& book.orders[maker.order_id].price == maker.price
        }
}

/// The best price among `levels` for `side`: the highest bid or the lowest ask.
pub open spec fn best_price(levels: Map<Price, Seq<OrderId>>, side: Side) -> Price {
    choose|p: Price|
        levels.contains_key(p) && forall|q: Price| #[trigger]
            levels.contains_key(q) && q != p ==> better(side, p, q)
}

/// The best bid price reaches the best ask price.
pub open spec fn crosses(m: BookModel) -> bool {
    &&& !m.bids.is_empty()
    &&& !m.asks.is_empty()
    &&& best_price(m.asks, Side::Sell) <= best_price(m.bids, Side::Buy)
}

/// The oldest order at the best price of `side`.
pub open spec fn best_front_id(m: BookModel, side: Side) -> OrderId {
    m.levels(side)[best_price(m.levels(side), side)][0]
}

/// `o` with `q` more of it traded.
pub open spec fn filled_by(o: OrderModel, q: Quantity) -> OrderModel {
    OrderModel { remaining_quantity: (o.remaining_quantity - q) as Quantity, ..o }
}

/// The book after the resting order `id` trades `q`: it leaves when nothing
/// is left of it.
pub open spec fn settle(m: BookModel, id: OrderId, q: Quantity) -> BookModel {
    if m.orders[id].remaining_quantity == q {
        m.unrest(id)
    } else {
        m.update(id, filled_by(m.orders[id], q))
    }
}

/// How much the oldest best bid and the oldest best ask trade together.
pub open spec fn pair_quantity(m: BookModel) -> Quantity {
    let b = m.orders[best_front_id(m, Side::Buy)].remaining_quantity;
    let a = m.orders[best_front_id(m, Side::Sell)].remaining_quantity;
    if b < a {
        b
    } else {
        a
    }
}

/// The trade between the oldest best bid and the oldest best ask, each at
/// its own price.
pub open spec fn pair_trade(m: BookModel) -> Trade {
    let b = best_front_id(m, Side::Buy);
    let a = best_front_id(m, Side::Sell);
    let q = pair_quantity(m);
    Trade {
        bid_trade: TradeInfo { order_id: b, price: m.orders[b].price, quantity: q },
        ask_trade: TradeInfo { order_id: a, price: m.orders[a].price, quantity: q },
    }
}

/// The book after the oldest best bid and the oldest best ask have traded.
pub open spec fn after_pair(m: BookModel) -> BookModel {
    let q = pair_quantity(m);
    settle(
        settle(m, best_front_id(m, Side::Buy), q),
        best_front_id(m, Side::Sell),
        q,
    )
}

/// Matching `m` for at most `fuel` pairings: the book it leaves and the
/// trades it makes, in order.
pub open spec fn match_run(m: BookModel, fuel: nat) -> (BookModel, Seq<Trade>)
    decreases fuel,
{
    if fuel == 0 || !crosses(m) {
        (m, Seq::empty())
    } else {
        let next = match_run(after_pair(m), (fuel - 1) as nat);
        (next.0, Seq::empty().push(pair_trade(m)) + next.1)
    }
}

/// The book after a look at the oldest order at the best price of `side`,
/// which goes if it is a FillAndKill.
pub open spec fn sweep_side(m: BookModel, side: Side) -> BookModel {
    if m.levels(side).is_empty() {
        m
    } else {
        let id = best_front_id(m, side);
        if m.orders[id].order_type == OrderType::FillAndKill {
            m.unrest(id)
        } else {
            m
        }
    }
}

/// Matching `m` to the end and sweeping both sides: the book and the trades.
pub open spec fn matched(m: BookModel) -> (BookModel, Seq<Trade>) {
    let run = match_run(m, m.orders.len());
    (sweep_side(sweep_side(run.0, Side::Buy), Side::Sell), run.1)
}

/// A price that is better than every other of `levels` is their best price.
pub proof fn lemma_best_price_is(levels: Map<Price, Seq<OrderId>>, side: Side, p: Price)
    requires
        levels.contains_key(p),
        forall|q: Price| #[trigger] levels.contains_key(q) && q != p ==> better(side, p, q),
    ensures
        best_price(levels, side) == p,
{
    let c = best_price(levels, side);
    assert(levels.contains_key(c));
    if c != p {
        assert(better(side, p, c));
        assert(better(side, c, p));
    }
}

/// What `add_order` of `o` on a valid book `before` leaves and returns:
/// a duplicate id is refused; an order that cannot cross rests (or, as a
/// FillAndKill, is dropped) without trades; one that can cross rests and is
/// matched, and every trade it makes has `o` on one side.
pub open spec fn add_outcome(
    before: BookModel,
    o: OrderModel,
    after: BookModel,
    r: BookResult<Option<Trades>>,
) -> bool {
    if before.orders.contains_key(o.order_id) {
        r == Err::<Option<Trades>, OrderBookError>(OrderBookError::OrderAlreadyExists(o.order_id))
            && after == before
    } else if !before.can_match(o.side, o.price) {
        r == Ok::<Option<Trades>, OrderBookError>(None) && after == (if o.order_type
            == OrderType::FillAndKill {
            before
        } else {
            before.rest(o)
        })
    } else {
        &&& r matches Ok(Some(ts))
        &&& (after, ts@) == matched(before.rest(o))
        &&& ts@.len() > 0
        &&& trades_well_formed(ts@)
        &&& trades_taken_by(ts@, o, before)
        &&& after.narrowed_from(before.rest(o))
        &&& side_total(ts@, o.side) + after.held(o.order_id) <= o.remaining_quantity
        &&& o.order_type == OrderType::GoodTillCancel ==> side_total(ts@, o.side) + after.held(
            o.order_id,
        ) == o.remaining_quantity
        &&& o.order_type == OrderType::FillAndKill ==> !after.orders.contains_key(o.order_id)
        &&& forall|x: OrderId| #[trigger]
            after.held(x) + traded_by(ts@, x) <= before.rest(o).held(x)
        &&& forall|x: OrderId|
            x != o.order_id ==> #[trigger] after.held(x) + traded_by(ts@, x) == before.held(x)
        &&& forall|x: OrderId|
            traded_by(ts@, x) == before.rest(o).held(x) ==> !#[trigger] after.orders.contains_key(x)
    }
}

/// `levels` with `id` queued at the back of the level at `price`.
pub open spec fn add_to_level(levels: Map<Price, Seq<OrderId>>, price: Price, id: OrderId) -> Map<
    Price,
    Seq<OrderId>,
> {
    levels.insert(
        price,
        if levels.contains_key(price) {
            levels[price].push(id)
        } else {
            Seq::empty().push(id)
        },
    )
}

/// `levels` with `id` taken out of the level at `price`, and that level
/// dropped if nothing is left in it.
pub open spec fn drop_from_level(levels: Map<Price, Seq<OrderId>>, price: Price, id: OrderId) -> Map<
    Price,
    Seq<OrderId>,
> {
    let q = without(levels[price], id);
    if q.len() == 0 {
        levels.remove(price)
    } else {
        levels.insert(price, q)
    }
}

/// The ids queued at each price of one side.
pub open spec fn side_view(side: Map<Price, OrderIds>) -> Map<Price, Seq<OrderId>> {
    side.map_values(|l: OrderIds| queued_ids(l))
}

/// Taking a resting order out keeps the index and the sides in agreement,
/// and opens no new level.
pub proof fn lemma_unrest(m: BookModel, id: OrderId)
    requires
        m.consistent(),
        m.orders.contains_key(id),
    ensures
        m.unrest(id).consistent(),
        m.unrest(id).orders == m.orders.remove(id),
        forall|s: Side, p: Price| #[trigger]
            m.unrest(id).levels(s).contains_key(p) ==> m.levels(s).contains_key(p),
        forall|s: Side, p: Price|
            m.unrest(id).levels(s).contains_key(p) && (s != m.orders[id].side || p
                != m.orders[id].price) ==> #[trigger] m.unrest(id).levels(s)[p] == m.levels(s)[p],
        m.uncrossed() ==> m.unrest(id).uncrossed(),
        m.only_good_till_cancel() ==> m.unrest(id).only_good_till_cancel(),
{
    let o = m.orders[id];
    let n = m.unrest(id);
    let q = m.levels(o.side)[o.price];
    lemma_without(q, id);
    assert(n.levels(o.side) == drop_from_level(m.levels(o.side), o.price, id));
    assert forall|s: Side, p: Price| #[trigger] n.levels(s).contains_key(p) implies m.levels(
        s,
    ).contains_key(p) by {
        if s == o.side && p == o.price {
        }
    }
    assert forall|x: OrderId| #[trigger] n.orders.contains_key(x) implies {
        let ox = n.orders[x];
        &&& ox.order_id == x
        &&& 0 < ox.remaining_quantity <= ox.initial_quantity
        &&& n.levels(ox.side).contains_key(ox.price)
        &&& n.levels(ox.side)[ox.price].contains(x)
    } by {
        let ox = m.orders[x];
        assert(m.orders.contains_key(x));
        if ox.side == o.side && ox.price == o.price {
            assert(without(q, id).contains(x));
        }
    }
    assert forall|s: Side| n.levels_consistent(s) by {
        assert forall|p: Price| #[trigger] n.levels(s).contains_key(p) implies {
            let r = n.levels(s)[p];
            &&& r.len() > 0
            &&& r.no_duplicates()
            &&& forall|i: int|
                0 <= i < r.len() ==> n.orders.contains_key(#[trigger] r[i]) && n.orders[r[i]].side
                    == s && n.orders[r[i]].price == p
        } by {
            assert(m.levels(s).contains_key(p));
            let r = n.levels(s)[p];
            assert forall|i: int| 0 <= i < r.len() implies n.orders.contains_key(#[trigger] r[i])
                && n.orders[r[i]].side == s && n.orders[r[i]].price == p by {
                if s == o.side && p == o.price {
                    assert(r.contains(r[i]));
                    assert(q.contains(r[i]));
                    let k = choose|k: int| 0 <= k < q.len() && q[k] == r[i];
                    assert(m.orders.contains_key(q[k]));
                } else {
                    assert(m.levels(s)[p][i] == r[i]);
                    assert(m.orders.contains_key(r[i]));
                    if r[i] == id {
                        assert(m.orders[id].side == o.side);
                    }
                }
            }
        }
    }
    assert(n.levels_consistent(Side::Buy));
    assert(n.levels_consistent(Side::Sell));
}

/// Adding an order under a new id at the back of its level keeps the index
/// and the sides in agreement.
pub proof fn lemma_rest(m: BookModel, o: OrderModel)
    requires
        m.consistent(),
        !m.orders.contains_key(o.order_id),
        0 < o.remaining_quantity <= o.initial_quantity,
    ensures
        m.rest(o).consistent(),
        m.rest(o).orders == m.orders.insert(o.order_id, o),
        forall|p: Price| #[trigger]
            m.rest(o).levels(o.side).contains_key(p) ==> p == o.price || m.levels(
                o.side,
            ).contains_key(p),
        m.rest(o).levels(o.side)[o.price] == (if m.levels(o.side).contains_key(o.price) {
            m.levels(o.side)[o.price].push(o.order_id)
        } else {
            Seq::empty().push(o.order_id)
        }),
        forall|p: Price| p != o.price ==> #[trigger] m.rest(o).levels(o.side).contains_key(p)
            == m.levels(o.side).contains_key(p),
        m.rest(o).levels(opposite(o.side)) == m.levels(opposite(o.side)),
{
    let n = m.rest(o);
    let id = o.order_id;
    let q = if m.levels(o.side).contains_key(o.price) {
        m.levels(o.side)[o.price]
    } else {
        Seq::empty()
    };
    assert(n.levels(o.side)[o.price] == q.push(id));
    assert(!q.contains(id)) by {
        if q.contains(id) {
            let k = choose|k: int| 0 <= k < q.len() && q[k] == id;
            assert(m.orders.contains_key(q[k]));
        }
    }
    assert forall|x: OrderId| #[trigger] n.orders.contains_key(x) implies {
        let ox = n.orders[x];
        &&& ox.order_id == x
        &&& 0 < ox.remaining_quantity <= ox.initial_quantity
        &&& n.levels(ox.side).contains_key(ox.price)
        &&& n.levels(ox.side)[ox.price].contains(x)
    } by {
        if x == id {
            assert(q.push(id)[q.len() as int] == id);
        } else {
            let ox = m.orders[x];
            assert(m.orders.contains_key(x));
            if ox.side == o.side && ox.price == o.price {
                let k = choose|k: int| 0 <= k < q.len() && q[k] == x;
                assert(q.push(id)[k] == x);
            }
        }
    }
    assert forall|s: Side| n.levels_consistent(s) by {
        assert forall|p: Price| #[trigger] n.levels(s).contains_key(p) implies {
            let r = n.levels(s)[p];
            &&& r.len() > 0
            &&& r.no_duplicates()
            &&& forall|i: int|
                0 <= i < r.len() ==> n.orders.contains_key(#[trigger] r[i]) && n.orders[r[i]].side
                    == s && n.orders[r[i]].price == p
        } by {
            let r = n.levels(s)[p];
            if s == o.side && p == o.price {
                assert forall|i: int, j: int| 0 <= i < r.len() && 0 <= j < r.len() && i != j implies r[i]
                    != r[j] by {
                    if i < q.len() && j < q.len() {
                        assert(q[i] != q[j]);
                    } else if i < q.len() {
                        assert(q.contains(q[i]));
                    } else {
                        assert(q.contains(q[j]));
                    }
                }
                assert forall|i: int| 0 <= i < r.len() implies n.orders.contains_key(#[trigger] r[i])
                    && n.orders[r[i]].side == s && n.orders[r[i]].price == p by {
                    if i < q.len() {
                        assert(r[i] == q[i]);
                        assert(m.orders.contains_key(q[i]));
                    }
                }
            } else {
                assert(m.levels(s).contains_key(p));
                assert forall|i: int| 0 <= i < r.len() implies n.orders.contains_key(#[trigger] r[i])
                    && n.orders[r[i]].side == s && n.orders[r[i]].price == p by {
                    assert(m.levels(s)[p][i] == r[i]);
                    assert(m.orders.contains_key(r[i]));
                }
            }
        }
    }
    assert(n.levels_consistent(Side::Buy));
    assert(n.levels_consistent(Side::Sell));
}

/// Changing what a resting order has left, and nothing else of it, keeps the
/// book's agreement and the confinement of a FillAndKill.
pub proof fn lemma_update(m: BookModel, id: OrderId, o: OrderModel, incoming: OrderId)
    requires
        m.consistent(),
        m.orders.contains_key(id),
        o == (OrderModel { remaining_quantity: o.remaining_quantity, ..m.orders[id] }),
        0 < o.remaining_quantity <= m.orders[id].remaining_quantity,
        m.fak_confined(incoming),
    ensures
        m.update(id, o).consistent(),
        m.update(id, o).fak_confined(incoming),
        m.update(id, o).orders.len() == m.orders.len(),
{
    let n = m.update(id, o);
    assert(n.orders.dom() =~= m.orders.dom());
    assert forall|x: OrderId| #[trigger] n.orders.contains_key(x) implies {
        let ox = n.orders[x];
        &&& ox.order_id == x
        &&& 0 < ox.remaining_quantity <= ox.initial_quantity
        &&& n.levels(ox.side).contains_key(ox.price)
        &&& n.levels(ox.side)[ox.price].contains(x)
    } by {
        assert(m.orders.contains_key(x));
        if x == id {
            assert(n.orders[x] == o);
        }
    }
    assert forall|s: Side| n.levels_consistent(s) by {
        assert forall|p: Price| #[trigger] n.levels(s).contains_key(p) implies {
            let r = n.levels(s)[p];
            &&& r.len() > 0
            &&& r.no_duplicates()
            &&& forall|i: int|
                0 <= i < r.len() ==> n.orders.contains_key(#[trigger] r[i]) && n.orders[r[i]].side
                    == s && n.orders[r[i]].price == p
        } by {
            assert(m.levels(s).contains_key(p));
            let r = n.levels(s)[p];
            assert forall|i: int| 0 <= i < r.len() implies n.orders.contains_key(#[trigger] r[i])
                && n.orders[r[i]].side == s && n.orders[r[i]].price == p by {
                assert(m.orders.contains_key(r[i]));
            }
        }
    }
    assert(n.levels_consistent(Side::Buy));
    assert(n.levels_consistent(Side::Sell));
}

/// Taking out a resting order keeps a FillAndKill confined.
pub proof fn lemma_unrest_confined(m: BookModel, id: OrderId, incoming: OrderId)
    requires
        m.consistent(),
        m.orders.contains_key(id),
        m.fak_confined(incoming),
    ensures
        m.unrest(id).fak_confined(incoming),
        m.unrest(id).orders.len() < m.orders.len(),
{
    lemma_unrest(m, id);
    let n = m.unrest(id);
    if n.orders.contains_key(incoming) && n.orders[incoming].order_type == OrderType::FillAndKill {
        let o = n.orders[incoming];
        assert(m.orders.contains_key(incoming));
        assert(m.levels(o.side)[o.price] == Seq::<OrderId>::empty().push(incoming));
        let od = m.orders[id];
        if od.side == o.side && od.price == o.price {
            assert(m.levels(od.side)[od.price].contains(id));
            assert(false);
        }
        assert(m.levels(o.side).contains_key(o.price));
        assert(n.levels(o.side).contains_key(o.price)) by {
            if od.side == o.side {
                assert(n.levels(o.side) == drop_from_level(m.levels(o.side), od.price, id));
            }
        }
        assert(n.levels(o.side)[o.price] == m.levels(o.side)[o.price]);
    }
}

/// A new order rests so that a FillAndKill is confined, and the book crosses
/// afterwards exactly when the order could match.
pub proof fn lemma_rest_crossing(m: BookModel, o: OrderModel)
    requires
        m.valid(),
        !m.orders.contains_key(o.order_id),
        0 < o.remaining_quantity <= o.initial_quantity,
        o.order_type == OrderType::FillAndKill ==> m.can_match(o.side, o.price),
    ensures
        m.rest(o).consistent(),
        m.rest(o).fak_confined(o.order_id),
        m.rest(o).uncrossed() <==> !m.can_match(o.side, o.price),
        m.rest(o).only_good_till_cancel() <==> o.order_type == OrderType::GoodTillCancel,
{
    lemma_rest(m, o);
    let n = m.rest(o);
    let id = o.order_id;
    assert(n.orders.contains_key(id) && n.orders[id] == o);
    assert(n.levels(o.side).contains_key(o.price));
    if m.can_match(o.side, o.price) {
        match o.side {
            Side::Buy => {
                let a = choose|a: Price| #[trigger] m.asks.contains_key(a) && a <= o.price;
                assert(n.asks.contains_key(a));
                assert(n.bids.contains_key(o.price));
                assert forall|p: Price| #[trigger]
                    n.bids.contains_key(p) && p != o.price implies better(o.side, o.price, p) by {
                    assert(m.bids.contains_key(p));
                }
                assert(!m.bids.contains_key(o.price));
            },
            Side::Sell => {
                let b = choose|b: Price| #[trigger] m.bids.contains_key(b) && o.price <= b;
                assert(n.bids.contains_key(b));
                assert(n.asks.contains_key(o.price));
                assert forall|p: Price| #[trigger]
                    n.asks.contains_key(p) && p != o.price implies better(o.side, o.price, p) by {
                    assert(m.asks.contains_key(p));
                }
                assert(!m.asks.contains_key(o.price));
            },
        }
    } else {
        assert forall|b: Price, a: Price| #[trigger]
            n.bids.contains_key(b) && #[trigger] n.asks.contains_key(a) implies b < a by {
            match o.side {
                Side::Buy => {
                    if b != o.price {
                        assert(m.bids.contains_key(b));
                    }
                    assert(m.asks.contains_key(a));
                },
                Side::Sell => {
                    if a != o.price {
                        assert(m.asks.contains_key(a));
                    }
                    assert(m.bids.contains_key(b));
                },
            }
        }
    }
}

/// Taking out a resting order keeps every crossing on the order `id` and
/// keeps the book narrowed from `start`.
pub proof fn lemma_unrest_tracks(m: BookModel, x: OrderId, id: OrderId, start: BookModel)
    requires
        m.consistent(),
        m.orders.contains_key(x),
        m.crossing_involves(id),
        m.narrowed_from(start),
    ensures
        m.unrest(x).crossing_involves(id),
        m.unrest(x).narrowed_from(start),
{
    lemma_unrest(m, x);
    let n = m.unrest(x);
    let ox = m.orders[x];
    assert forall|b: Price, a: Price| #[trigger]
        n.bids.contains_key(b) && #[trigger] n.asks.contains_key(a) && a <= b implies {
        &&& n.orders.contains_key(id)
        &&& n.orders[id].side == Side::Buy ==> b == n.orders[id].price && n.bids[b]
            == Seq::<OrderId>::empty().push(id)
        &&& n.orders[id].side == Side::Sell ==> a == n.orders[id].price && n.asks[a]
            == Seq::<OrderId>::empty().push(id)
    } by {
        assert(n.levels(Side::Buy).contains_key(b));
        assert(n.levels(Side::Sell).contains_key(a));
        assert(m.bids.contains_key(b) && m.asks.contains_key(a));
        let o = m.orders[id];
        let single = Seq::<OrderId>::empty().push(id);
        lemma_without(single, id);
        if x == id {
            if without(single, id).len() > 0 {
                assert(without(single, id).contains(without(single, id)[0]));
            }
            match o.side {
                Side::Buy => {
                    assert(n.bids == drop_from_level(m.bids, o.price, id));
                },
                Side::Sell => {
                    assert(n.asks == drop_from_level(m.asks, o.price, id));
                },
            }
        } else {
            assert(n.orders.contains_key(id));
            if ox.side == o.side && ox.price == o.price {
                assert(m.levels(o.side)[o.price].contains(x));
                assert(single[0] == id);
            }
            match o.side {
                Side::Buy => {
                    assert(n.levels(Side::Buy)[b] == m.levels(Side::Buy)[b]);
                },
                Side::Sell => {
                    assert(n.levels(Side::Sell)[a] == m.levels(Side::Sell)[a]);
                },
            }
        }
    }
    assert forall|y: OrderId| #[trigger] n.orders.contains_key(y) implies {
        &&& start.orders.contains_key(y)
        &&& n.orders[y] == (OrderModel {
            remaining_quantity: n.orders[y].remaining_quantity,
            ..start.orders[y]
        })
        &&& n.orders[y].remaining_quantity <= start.orders[y].remaining_quantity
    } by {
        assert(m.orders.contains_key(y));
    }
}

/// Changing what a resting order has left keeps every crossing on the order
/// `id` and keeps the book narrowed from `start`.
pub proof fn lemma_update_tracks(
    m: BookModel,
    x: OrderId,
    o: OrderModel,
    id: OrderId,
    start: BookModel,
)
    requires
        m.orders.contains_key(x),
        o == (OrderModel { remaining_quantity: o.remaining_quantity, ..m.orders[x] }),
        o.remaining_quantity <= m.orders[x].remaining_quantity,
        m.crossing_involves(id),
        m.narrowed_from(start),
    ensures
        m.update(x, o).crossing_involves(id),
        m.update(x, o).narrowed_from(start),
{
    let n = m.update(x, o);
    assert forall|b: Price, a: Price| #[trigger]
        n.bids.contains_key(b) && #[trigger] n.asks.contains_key(a) && a <= b implies {
        &&& n.orders.contains_key(id)
        &&& n.orders[id].side == Side::Buy ==> b == n.orders[id].price && n.bids[b]
            == Seq::<OrderId>::empty().push(id)
        &&& n.orders[id].side == Side::Sell ==> a == n.orders[id].price && n.asks[a]
            == Seq::<OrderId>::empty().push(id)
    } by {
        assert(m.bids.contains_key(b) && m.asks.contains_key(a));
    }
    assert forall|y: OrderId| #[trigger] n.orders.contains_key(y) implies {
        &&& start.orders.contains_key(y)
        &&& n.orders[y] == (OrderModel {
            remaining_quantity: n.orders[y].remaining_quantity,
            ..start.orders[y]
        })
        &&& n.orders[y].remaining_quantity <= start.orders[y].remaining_quantity
    } by {
        assert(m.orders.contains_key(y));
    }
}

/// The other side of the book.
pub open spec fn opposite(side: Side) -> Side {
    match side {
        Side::Buy => Side::Sell,
        Side::Sell => Side::Buy,
    }
}

/// Sum of what the orders `ids` still have to trade.
pub open spec fn level_total(orders: Map<OrderId, OrderModel>, ids: Seq<OrderId>) -> nat
    decreases ids.len(),
{
    if ids.len() == 0 {
        0
    } else {
        (level_total(orders, ids.drop_last()) + orders[ids.last()].remaining_quantity) as nat
    }
}

/// `n`, or the largest quantity if `n` does not fit.
pub open spec fn capped(n: nat) -> Quantity {
    if n > u32::MAX {
        u32::MAX
    } else {
        n as Quantity
    }
}

/// `infos` lists each level of `side` once, in ascending price, with the
/// total that its orders still have to trade.
pub open spec fn describes_side(m: BookModel, side: Side, infos: Seq<LevelInfo>) -> bool {
    &&& forall|i: int, j: int| 0 <= i < j < infos.len() ==> infos[i].price < infos[j].price
    &&& forall|i: int|
        0 <= i < infos.len() ==> m.levels(side).contains_key(#[trigger] infos[i].price)
            && infos[i].quantity == capped(level_total(m.orders, m.levels(side)[infos[i].price]))
    &&& forall|p: Price| #[trigger]
        m.levels(side).contains_key(p) ==> exists|i: int| 0 <= i < infos.len() && infos[i].price == p
}

/// What a snapshot of the book `m` holds.
pub open spec fn describes(m: BookModel, infos: OrderBookLevelInfos) -> bool {
    &&& describes_side(m, Side::Buy, infos.bids@)
    &&& describes_side(m, Side::Sell, infos.asks@)
}

/// Relies on `BTreeMap::last_key_value`: the entry with the largest key.
#[verifier::external_body]
fn highest_price(side: &BTreeMap<Price, OrderIds>) -> (r: Option<Price>)
    ensures
        r is None <==> side@.is_empty(),
        r matches Some(p) ==> side@.contains_key(p) && forall|q: Price| #[trigger]
            side@.contains_key(q) ==> q <= p,
{
    side.last_key_value().map(|(p, _)| *p)
}

/// Relies on `BTreeMap::first_key_value`: the entry with the smallest key.
#[verifier::external_body]
fn lowest_price(side: &BTreeMap<Price, OrderIds>) -> (r: Option<Price>)
    ensures
        r is None <==> side@.is_empty(),
        r matches Some(p) ==> side@.contains_key(p) && forall|q: Price| #[trigger]
            side@.contains_key(q) ==> p <= q,
{
    side.first_key_value().map(|(p, _)| *p)
}

/// Queues `id` at the back of the level at `price`, opening the level if
/// there is none.
fn push_to_level(side: &mut BTreeMap<Price, OrderIds>, price: Price, id: OrderId)
    requires
        old(side)@.contains_key(price) ==> !queued_ids(old(side)@[price]).contains(id),
    ensures
        side_view(final(side)@) == add_to_level(side_view(old(side)@), price, id),
{
    let mut level = match side.remove(&price) {
        Some(level) => level,
        None => level_new(),
    };
    level_push_back(&mut level, id);
    side.insert(price, level);
    assert(side_view(side@) =~= add_to_level(side_view(old(side)@), price, id));
}

/// Takes `id` out of the level at `price`, dropping the level if it empties.
fn take_from_level(side: &mut BTreeMap<Price, OrderIds>, price: Price, id: OrderId)
    requires
        old(side)@.contains_key(price),
    ensures
        side_view(final(side)@) == drop_from_level(side_view(old(side)@), price, id),
{
    let mut level = match side.remove(&price) {
        Some(level) => level,
        None => level_new(),
    };
    let ghost before = level;
    level_remove(&mut level, id);
    assert(queued_ids(before) == side_view(old(side)@)[price]);
    if !level_is_empty(&level) {
        side.insert(price, level);
        assert(side_view(side@) =~= side_view(old(side)@).insert(price, queued_ids(level)));
    } else {
        assert(side_view(side@) =~= side_view(old(side)@).remove(price));
    }
}

/// An in-memory limit order book for one asset, matched by price-time
/// priority.
pub struct OrderBook {
    asset: String,
    bid_side: BTreeMap<Price, OrderIds>,
    ask_side: BTreeMap<Price, OrderIds>,
    track_orders: HashMap<OrderId, Order>,
}

impl View for OrderBook {
    type V = BookModel;

    closed spec fn view(&self) -> BookModel {
        BookModel {
            orders: self.track_orders@.map_values(|o: Order| o@),
            bids: side_view(self.bid_side@),
            asks: side_view(self.ask_side@),
        }
    }
}

impl OrderBook {
    /// An empty book for `asset`.
    pub fn new(asset: &str) -> (r: OrderBook)
        ensures
            r@.orders.is_empty(),
            r@.bids.is_empty(),
            r@.asks.is_empty(),
            r@.valid(),
    {
        let r = OrderBook {
            asset: asset.to_owned(),
            bid_side: BTreeMap::new(),
            ask_side: BTreeMap::new(),
            track_orders: HashMap::new(),
        };
        assert(r@.orders =~= Map::empty());
        assert(r@.bids =~= Map::empty());
        assert(r@.asks =~= Map::empty());
        r
    }

    /// Puts `order` in the index and at the back of its level.
    fn insert_resting(&mut self, order: Order)
        requires
            old(self)@.consistent(),
            !old(self)@.orders.contains_key(order@.order_id),
            0 < order@.remaining_quantity <= order@.initial_quantity,
        ensures
            final(self)@ == old(self)@.rest(order@),
            final(self)@.consistent(),
    {
        let ghost m = self@;
        proof {
            lemma_rest(m, order@);
        }
        let id = *order.get_order_id();
        let price = *order.get_price();
        assert(side_view(self.bid_side@).contains_key(price) ==> !queued_ids(self.bid_side@[price]).contains(id)) by {
            if side_view(self.bid_side@).contains_key(price) && order@.side == Side::Buy {
                assert(m.bids[price] == queued_ids(self.bid_side@[price]));
            }
        }
        match order.get_side() {
            Side::Buy => {
                assert(m.bids.contains_key(price) ==> m.bids[price] == queued_ids(self.bid_side@[price]));
                push_to_level(&mut self.bid_side, price, id);
            },
            Side::Sell => {
                assert(m.asks.contains_key(price) ==> m.asks[price] == queued_ids(self.ask_side@[price]));
                push_to_level(&mut self.ask_side, price, id);
            },
        }
        self.track_orders.insert(id, order);
        assert(self@.orders =~= m.orders.insert(id, order@));
        assert(self@ =~= m.rest(order@));
    }

    /// Takes the resting order `id` out of its level and out of the index.
    fn remove_resting(&mut self, id: OrderId)
        requires
            old(self)@.consistent(),
            old(self)@.orders.contains_key(id),
        ensures
            final(self)@ == old(self)@.unrest(id),
    {
        let ghost m = self@;
        proof {
            lemma_unrest(m, id);
        }
        let order = *self.track_orders.get(&id).unwrap();
        assert(order@ == m.orders[id]);
        let price = *order.get_price();
        match order.get_side() {
            Side::Buy => take_from_level(&mut self.bid_side, price, id),
            Side::Sell => take_from_level(&mut self.ask_side, price, id),
        }
        self.track_orders.remove(&id);
        assert(self@.orders =~= m.orders.remove(id));
        assert(self@ =~= m.unrest(id));
    }

    /// Removes a resting order from the book; an id that does not rest is
    /// refused and the book stays as it was.
    pub fn cancel_order(&mut self, order_id: OrderId) -> (r: BookResult<OrderId>)
        requires
            old(self)@.valid(),
        ensures
            final(self)@.valid(),
            !old(self)@.orders.contains_key(order_id) ==> r == Err::<OrderId, OrderBookError>(
                OrderBookError::OrderNotFound(order_id),
            ) && final(self)@ == old(self)@,
            old(self)@.orders.contains_key(order_id) ==> r == Ok::<OrderId, OrderBookError>(
                order_id,
            ) && final(self)@ == old(self)@.unrest(order_id),
    {
        if !self.track_orders.contains_key(&order_id) {
            return Err(OrderBookError::OrderNotFound(order_id));
        }
        proof {
            lemma_unrest(self@, order_id);
        }
        self.remove_resting(order_id);
        Ok(order_id)
    }

    /// Whether an order at `price` on `side` would find a counterparty now.
    fn can_match(&self, side: &Side, price: &Price) -> (r: bool)
        ensures
            r == self@.can_match(*side, *price),
    {
        match side {
            Side::Buy => match lowest_price(&self.ask_side) {
                Some(best_ask) => {
                    assert(self@.asks.contains_key(best_ask));
                    *price >= best_ask
                },
                None => {
                    assert(self.ask_side@.dom() =~= Set::empty());
                    false
                },
            },
            Side::Sell => match highest_price(&self.bid_side) {
                Some(best_bid) => {
                    assert(self@.bids.contains_key(best_bid));
                    *price <= best_bid
                },
                None => {
                    assert(self.bid_side@.dom() =~= Set::empty());
                    false
                },
            },
        }
    }

    /// The oldest order at the best price of `side`.
    fn best_front(&self, side: Side) -> (r: Option<(Price, OrderId)>)
        requires
            self@.consistent(),
        ensures
            r is None <==> self@.levels(side).is_empty(),
            r matches Some((p, id)) ==> {
                &&& self@.levels(side).contains_key(p)
                &&& self@.levels(side)[p][0] == id
                &&& forall|q: Price| #[trigger]
                    self@.levels(side).contains_key(q) && q != p ==> better(side, p, q)
                &&& p == best_price(self@.levels(side), side)
                &&& id == best_front_id(self@, side)
            },
    {
        let ghost m = self@;
        match side {
            Side::Buy => {
                let best = highest_price(&self.bid_side);
                match best {
                    Some(p) => {
                        assert(m.bids.contains_key(p));
                        let level = self.bid_side.get(&p).unwrap();
                        assert(queued_ids(*level) == m.bids[p]);
                        proof {
                            lemma_best_price_is(m.bids, side, p);
                        }
                        let id = level_front(level).unwrap();
                        Some((p, id))
                    },
                    None => {
                        assert(m.bids.dom() =~= Set::empty());
                        None
                    },
                }
            },
            Side::Sell => {
                let best = lowest_price(&self.ask_side);
                match best {
                    Some(p) => {
                        assert(m.asks.contains_key(p));
                        let level = self.ask_side.get(&p).unwrap();
                        assert(queued_ids(*level) == m.asks[p]);
                        proof {
                            lemma_best_price_is(m.asks, side, p);
                        }
                        let id = level_front(level).unwrap();
                        Some((p, id))
                    },
                    None => {
                        assert(m.asks.dom() =~= Set::empty());
                        None
                    },
                }
            },
        }
    }

    /// Cancels the oldest order at the best price of `side` if it is a
    /// FillAndKill: such an order has nothing left to trade against.
    fn prune_fak_from_order_book(&mut self, side: Side, incoming: Ghost<OrderId>) -> (r: BookResult<()>)
        requires
            old(self)@.consistent(),
            old(self)@.uncrossed(),
            old(self)@.fak_confined(incoming@),
        ensures
            final(self)@.consistent(),
            final(self)@.uncrossed(),
            final(self)@.fak_confined(incoming@),
            !(final(self)@.orders.contains_key(incoming@) && final(self)@.orders[incoming@].order_type
                == OrderType::FillAndKill && final(self)@.orders[incoming@].side == side),
            forall|x: OrderId| #[trigger]
                final(self)@.orders.contains_key(x) ==> old(self)@.orders.contains_key(x)
                    && final(self)@.orders[x] == old(self)@.orders[x],
            forall|x: OrderId| #[trigger]
                old(self)@.orders.contains_key(x) && old(self)@.orders[x].order_type
                    == OrderType::GoodTillCancel ==> final(self)@.orders.contains_key(x),
            old(self)@.only_good_till_cancel() ==> final(self)@ == old(self)@,
            r is Err <==> old(self)@.levels(side).is_empty(),
            old(self)@.levels(side).is_empty() ==> r == Err::<(), OrderBookError>(
                OrderBookError::BookSideEmpty(side),
            ),
            final(self)@ == sweep_side(old(self)@, side),
    {
        let ghost m = self@;
        let (price, id) = match self.best_front(side) {
            Some(front) => front,
            None => {
                proof {
                    if m.orders.contains_key(incoming@) && m.orders[incoming@].side == side {
                        let o = m.orders[incoming@];
                        assert(m.levels(side).contains_key(o.price));
                    }
                }
                return Err(OrderBookError::BookSideEmpty(side));
            },
        };
        assert(m.levels(side)[price].contains(id)) by {
            assert(m.levels(side)[price][0] == id);
        }
        assert(m.orders.contains_key(id)) by {
            assert(m.levels(side)[price][0] == id);
        }
        let order = *self.track_orders.get(&id).unwrap();
        assert(order@ == m.orders[id]);
        proof {
            if m.orders.contains_key(incoming@) && m.orders[incoming@].order_type
                == OrderType::FillAndKill && m.orders[incoming@].side == side {
                let o = m.orders[incoming@];
                assert(m.levels(side).contains_key(o.price));
                if o.price != price {
                    assert(better(side, o.price, price));
                    assert(better(side, price, o.price));
                }
                assert(m.levels(side)[price][0] == incoming@);
            }
        }
        match order.get_order_type() {
            OrderType::FillAndKill => {
                proof {
                    lemma_unrest(m, id);
                    lemma_unrest_confined(m, id, incoming@);
                }
                self.remove_resting(id);
            },
            OrderType::GoodTillCancel => {},
        }
        Ok(())
    }

    /// Trades the oldest best bid against the oldest best ask: each is filled
    /// by the smaller of what they have left, and leaves if it is done.
    #[verifier::rlimit(60)]
    fn match_pair(
        &mut self,
        bid_id: OrderId,
        ask_id: OrderId,
        incoming: Ghost<OrderId>,
        start: Ghost<BookModel>,
    ) -> (trade: Trade)
        requires
            old(self)@.consistent(),
            old(self)@.fak_confined(incoming@),
            old(self)@.crossing_involves(incoming@),
            old(self)@.narrowed_from(start@),
            crosses(old(self)@),
            bid_id == best_front_id(old(self)@, Side::Buy),
            ask_id == best_front_id(old(self)@, Side::Sell),
            old(self)@.orders.contains_key(bid_id),
            old(self)@.orders.contains_key(ask_id),
            old(self)@.orders[bid_id].side == Side::Buy,
            old(self)@.orders[ask_id].side == Side::Sell,
        ensures
            final(self)@ == after_pair(old(self)@),
            trade == pair_trade(old(self)@),
            final(self)@.consistent(),
            final(self)@.fak_confined(incoming@),
            final(self)@.crossing_involves(incoming@),
            final(self)@.narrowed_from(start@),
            final(self)@.orders.len() < old(self)@.orders.len(),
            forall|x: OrderId|
                x != bid_id && x != ask_id ==> #[trigger] final(self)@.held(x) == old(self)@.held(
                    x,
                ),
            final(self)@.held(bid_id) == old(self)@.held(bid_id) - pair_quantity(old(self)@),
            final(self)@.held(ask_id) == old(self)@.held(ask_id) - pair_quantity(old(self)@),
    {
        let ghost m = self@;
        let mut bid = *self.track_orders.get(&bid_id).unwrap();
        let mut ask = *self.track_orders.get(&ask_id).unwrap();
        assert(bid@ == m.orders[bid_id] && ask@ == m.orders[ask_id]);
        let bid_left = *bid.get_remaining_quantity();
        let ask_left = *ask.get_remaining_quantity();
        let fill_quantity = if bid_left < ask_left {
            bid_left
        } else {
            ask_left
        };
        let _ = bid.fill(fill_quantity);
        let _ = ask.fill(fill_quantity);
        let trade = Trade::new(
            TradeInfo {
                order_id: *bid.get_order_id(),
                price: *bid.get_price(),
                quantity: fill_quantity,
            },
            TradeInfo {
                order_id: *ask.get_order_id(),
                price: *ask.get_price(),
                quantity: fill_quantity,
            },
        );
        assert(trade == pair_trade(m));
        if bid.is_filled() {
            proof {
                lemma_unrest(m, bid_id);
                lemma_unrest_confined(m, bid_id, incoming@);
                lemma_unrest_tracks(m, bid_id, incoming@, start@);
            }
            self.remove_resting(bid_id);
        } else {
            proof {
                lemma_update(m, bid_id, bid@, incoming@);
                lemma_update_tracks(m, bid_id, bid@, incoming@, start@);
            }
            self.track_orders.insert(bid_id, bid);
            assert(self@.orders =~= m.orders.insert(bid_id, bid@));
            assert(self@ =~= m.update(bid_id, bid@));
        }
        let ghost m2 = self@;
        assert(m2 == settle(m, bid_id, fill_quantity));
        assert(m2.orders.contains_key(ask_id) && m2.orders[ask_id] == m.orders[ask_id]);
        if ask.is_filled() {
            proof {
                lemma_unrest(m2, ask_id);
                lemma_unrest_confined(m2, ask_id, incoming@);
                lemma_unrest_tracks(m2, ask_id, incoming@, start@);
            }
            self.remove_resting(ask_id);
        } else {
            proof {
                lemma_update(m2, ask_id, ask@, incoming@);
                lemma_update_tracks(m2, ask_id, ask@, incoming@, start@);
            }
            self.track_orders.insert(ask_id, ask);
            assert(self@.orders =~= m2.orders.insert(ask_id, ask@));
            assert(self@ =~= m2.update(ask_id, ask@));
        }
        assert(self@ == settle(m2, ask_id, fill_quantity));
        trade
    }

    /// Pairs the oldest bid at the best bid price with the oldest ask at the
    /// best ask price for as long as those prices cross, then sweeps a
    /// FillAndKill that is left over.
    #[verifier::rlimit(100)]
    fn match_orders(&mut self, incoming: Ghost<OrderId>) -> (trades: Trades)
        requires
            old(self)@.consistent(),
            old(self)@.fak_confined(incoming@),
            old(self)@.crossing_involves(incoming@),
        ensures
            final(self)@.valid(),
            trades_well_formed(trades@),
            trades@.len() == 0 ==> old(self)@.uncrossed(),
            old(self)@.uncrossed() && old(self)@.only_good_till_cancel() ==> trades@.len() == 0
                && final(self)@ == old(self)@,
            final(self)@.narrowed_from(old(self)@),
            trades@.len() > 0 ==> old(self)@.orders.contains_key(incoming@),
            old(self)@.orders.contains_key(incoming@) ==> {
                let taker = old(self)@.orders[incoming@];
                &&& trades_taken_by(trades@, taker, old(self)@)
                &&& side_total(trades@, taker.side) + final(self)@.held(incoming@)
                    <= taker.remaining_quantity
                &&& taker.order_type == OrderType::GoodTillCancel ==> side_total(
                    trades@,
                    taker.side,
                ) + final(self)@.held(incoming@) == taker.remaining_quantity
            },
            (final(self)@, trades@) == matched(old(self)@),
            forall|x: OrderId| #[trigger]
                final(self)@.held(x) + traded_by(trades@, x) <= old(self)@.held(x),
            forall|x: OrderId|
                x != incoming@ ==> #[trigger] final(self)@.held(x) + traded_by(trades@, x) == old(
                    self,
                )@.held(x),
    {
        let ghost start = self@;
        let ghost fuel = start.orders.len();
        let ghost taker = start.orders[incoming@];
        let mut trades: Trades = Vec::new();
        assert(start.narrowed_from(start));
        assert(trades@ + match_run(start, fuel).1 =~= match_run(start, fuel).1);
        loop
            invariant
                self@.consistent(),
                self@.fak_confined(incoming@),
                trades_well_formed(trades@),
                trades@.len() == 0 ==> self@ == start,
                start.uncrossed() ==> trades@.len() == 0,
                self@.narrowed_from(start),
                self@.crossing_involves(incoming@),
                taker == start.orders[incoming@],
                trades@.len() > 0 ==> start.orders.contains_key(incoming@),
                start.orders.contains_key(incoming@) ==> trades_taken_by(trades@, taker, start),
                start.orders.contains_key(incoming@) ==> side_total(trades@, taker.side)
                    + self@.held(incoming@) == taker.remaining_quantity,
                fuel == start.orders.len(),
                trades@.len() + self@.orders.len() <= fuel,
                match_run(start, fuel) == (
                    match_run(self@, (fuel - trades@.len()) as nat).0,
                    trades@ + match_run(self@, (fuel - trades@.len()) as nat).1,
                ),
                forall|x: OrderId| #[trigger]
                    start.held(x) == self@.held(x) + traded_by(trades@, x),
            ensures
                self@.consistent(),
                self@.fak_confined(incoming@),
                trades_well_formed(trades@),
                trades@.len() == 0 ==> self@ == start,
                start.uncrossed() ==> trades@.len() == 0,
                self@.uncrossed(),
                self@.narrowed_from(start),
                trades@.len() > 0 ==> start.orders.contains_key(incoming@),
                start.orders.contains_key(incoming@) ==> trades_taken_by(trades@, taker, start),
                start.orders.contains_key(incoming@) ==> side_total(trades@, taker.side)
                    + self@.held(incoming@) == taker.remaining_quantity,
                match_run(start, fuel) == (self@, trades@),
                forall|x: OrderId| #[trigger]
                    start.held(x) == self@.held(x) + traded_by(trades@, x),
            decreases self@.orders.len(),
        {
            let ghost m = self@;
            let ghost f = (fuel - trades@.len()) as nat;
            let (best_bid, bid_id) = match self.best_front(Side::Buy) {
                Some(front) => front,
                None => {
                    assert(!crosses(m));
                    assert(trades@ + Seq::<Trade>::empty() =~= trades@);
                    break ;
                },
            };
            let (best_ask, ask_id) = match self.best_front(Side::Sell) {
                Some(front) => front,
                None => {
                    assert(!crosses(m));
                    assert(trades@ + Seq::<Trade>::empty() =~= trades@);
                    break ;
                },
            };
            if best_bid < best_ask {
                assert forall|b: Price, a: Price| #[trigger]
                    m.bids.contains_key(b) && #[trigger] m.asks.contains_key(a) implies b < a by {
                    if b != best_bid {
                        assert(better(Side::Buy, best_bid, b));
                    }
                    if a != best_ask {
                        assert(better(Side::Sell, best_ask, a));
                    }
                }
                assert(!crosses(m));
                assert(trades@ + Seq::<Trade>::empty() =~= trades@);
                break ;
            }
            assert(m.bids[best_bid][0] == bid_id);
            assert(m.asks[best_ask][0] == ask_id);
            assert(m.bids[best_bid].contains(bid_id));
            assert(m.asks[best_ask].contains(ask_id));
            assert(m.levels_consistent(Side::Buy));
            assert(m.orders.contains_key(bid_id) && m.orders[bid_id].side == Side::Buy
                && m.orders[bid_id].price == best_bid);
            assert(m.orders.contains_key(ask_id) && m.orders[ask_id].side == Side::Sell
                && m.orders[ask_id].price == best_ask);
            assert(m.bids.contains_key(best_bid) && m.asks.contains_key(best_ask) && best_ask
                <= best_bid);
            assert(m.orders.contains_key(incoming@));
            assert(start.orders.contains_key(incoming@));
            assert(m.orders[incoming@].side == taker.side && m.orders[incoming@].price
                == taker.price);
            assert(taker.side == Side::Buy ==> bid_id == incoming@) by {
                if taker.side == Side::Buy {
                    assert(m.bids[best_bid] == Seq::<OrderId>::empty().push(incoming@));
                }
            }
            assert(taker.side == Side::Sell ==> ask_id == incoming@) by {
                if taker.side == Side::Sell {
                    assert(m.asks[best_ask] == Seq::<OrderId>::empty().push(incoming@));
                }
            }
            assert(crosses(m));
            assert(f > 0);
            let ghost old_trades = trades@;
            let trade = self.match_pair(bid_id, ask_id, incoming, Ghost(start));
            trades.push(trade);
            assert(trades@.drop_last() == old_trades);
            assert forall|x: OrderId| #[trigger]
                start.held(x) == self@.held(x) + traded_by(trades@, x) by {
                assert(start.held(x) == m.held(x) + traded_by(old_trades, x));
                assert(trades@.last() == trade);
            }
            assert(trades_taken_by(trades@, taker, start)) by {
                assert forall|i: int| 0 <= i < trades@.len() implies {
                    let t = #[trigger] trades@[i];
                    let maker = info_of(t, opposite(taker.side));
                    &&& info_of(t, taker.side).order_id == taker.order_id
                    &&& info_of(t, taker.side).price == taker.price
                    &&& start.orders.contains_key(maker.order_id)
                    &&& start.orders[maker.order_id].side == opposite(taker.side)
                    &&& start.orders[maker.order_id].price == maker.price
                } by {
                    if i < old_trades.len() {
                        assert(trades@[i] == old_trades[i]);
                    }
                }
            }
            assert(trades_well_formed(trades@)) by {
                assert forall|i: int| 0 <= i < trades@.len() implies {
                    let t = #[trigger] trades@[i];
                    &&& t.bid_trade.quantity == t.ask_trade.quantity
                    &&& t.bid_trade.quantity > 0
                    &&& t.bid_trade.price >= t.ask_trade.price
                } by {
                    if i < old_trades.len() {
                        assert(trades@[i] == old_trades[i]);
                    }
                }
            }
            assert(match_run(m, f) == (
                match_run(after_pair(m), (f - 1) as nat).0,
                Seq::empty().push(pair_trade(m)) + match_run(after_pair(m), (f - 1) as nat).1,
            ));
            assert(old_trades + (Seq::empty().push(pair_trade(m)) + match_run(
                after_pair(m),
                (f - 1) as nat,
            ).1) =~= trades@ + match_run(after_pair(m), (f - 1) as nat).1);
        }
        let ghost before_sweep = self@;
        if !self.bid_side.is_empty() {
            let _ = self.prune_fak_from_order_book(Side::Buy, incoming);
        } else {
            assert(self@.bids.dom() =~= Set::<Price>::empty());
        }
        let ghost after_bids = self@;
        if !self.ask_side.is_empty() {
            let _ = self.prune_fak_from_order_book(Side::Sell, incoming);
        } else {
            assert(self@.asks.dom() =~= Set::<Price>::empty());
        }
        proof {
            let n = self@;
            assert forall|y: OrderId| #[trigger] n.orders.contains_key(y) implies {
                &&& start.orders.contains_key(y)
                &&& n.orders[y] == (OrderModel {
                    remaining_quantity: n.orders[y].remaining_quantity,
                    ..start.orders[y]
                })
                &&& n.orders[y].remaining_quantity <= start.orders[y].remaining_quantity
            } by {
                assert(before_sweep.orders.contains_key(y));
            }
            assert forall|x: OrderId| #[trigger] n.held(x) <= before_sweep.held(x) by {
                if n.orders.contains_key(x) {
                    assert(before_sweep.orders.contains_key(x));
                }
            }
            assert forall|x: OrderId| x != incoming@ implies #[trigger] n.held(x)
                == before_sweep.held(x) by {
                if before_sweep.orders.contains_key(x) {
                    assert(before_sweep.orders[x].order_type == OrderType::GoodTillCancel);
                    assert(after_bids.orders.contains_key(x));
                    assert(n.orders.contains_key(x));
                }
                if n.orders.contains_key(x) {
                    assert(before_sweep.orders.contains_key(x));
                }
            }
            assert forall|x: OrderId| #[trigger]
                n.held(x) + traded_by(trades@, x) <= start.held(x) by {
                assert(start.held(x) == before_sweep.held(x) + traded_by(trades@, x));
                assert(n.held(x) <= before_sweep.held(x));
            }
            assert forall|x: OrderId| x != incoming@ implies #[trigger] n.held(x) + traded_by(
                trades@,
                x,
            ) == start.held(x) by {
                assert(start.held(x) == before_sweep.held(x) + traded_by(trades@, x));
                assert(n.held(x) == before_sweep.held(x));
            }
            if start.orders.contains_key(incoming@) && taker.order_type == OrderType::GoodTillCancel
                && before_sweep.orders.contains_key(incoming@) {
                assert(n.orders.contains_key(incoming@));
            }
            assert forall|x: OrderId| #[trigger] n.orders.contains_key(x) implies n.orders[x].order_type
                == OrderType::GoodTillCancel by {
                assert(before_sweep.orders.contains_key(x));
                if x == incoming@ && n.orders[x].order_type == OrderType::FillAndKill {
                    let o = before_sweep.orders[x];
                    assert(before_sweep.levels(o.side).contains_key(o.price));
                }
            }
        }
        trades
    }

    /// Submits `order`: refuses an id that already rests, drops a
    /// FillAndKill that could not trade, and otherwise queues the order at
    /// the back of its level and matches the book.
    #[verifier::rlimit(100)]
    pub fn add_order(&mut self, order: OrderRef) -> (r: BookResult<Option<Trades>>)
        requires
            old(self)@.valid(),
            0 < order@.remaining_quantity <= order@.initial_quantity,
        ensures
            final(self)@.valid(),
            add_outcome(old(self)@, order@, final(self)@, r),
    {
        let id = *order.get_order_id();
        if self.track_orders.contains_key(&id) {
            return Err(OrderBookError::OrderAlreadyExists(id));
        }
        let ghost m = self@;
        let can_match = self.can_match(order.get_side(), order.get_price());
        match order.get_order_type() {
            OrderType::FillAndKill => {
                if !can_match {
                    return Ok(None);
                }
            },
            OrderType::GoodTillCancel => {},
        }
        proof {
            lemma_rest_crossing(m, order@);
        }
        self.insert_resting(order);
        let trades = self.match_orders(Ghost(id));
        proof {
            let start = m.rest(order@);
            let after = self@;
            assert(start.orders == m.orders.insert(id, order@));
            assert forall|x: OrderId| x != id implies #[trigger] after.held(x) + traded_by(
                trades@,
                x,
            ) == m.held(x) by {
                assert(start.held(x) == m.held(x));
            }
            assert forall|x: OrderId| traded_by(trades@, x) == start.held(x) implies
                !#[trigger] after.orders.contains_key(x) by {
                if after.orders.contains_key(x) {
                    assert(after.orders_located());
                    assert(after.held(x) > 0);
                }
            }
        }
        if trades.len() == 0 {
            Ok(None)
        } else {
            Ok(Some(trades))
        }
    }

    /// The total that the orders queued in `level` still have to trade,
    /// capped at the largest quantity.
    fn level_quantity(&self, level: &OrderIds) -> (r: Quantity)
        requires
            forall|i: int|
                0 <= i < queued_ids(*level).len() ==> self@.orders.contains_key(
                    #[trigger] queued_ids(*level)[i],
                ),
        ensures
            r == capped(level_total(self@.orders, queued_ids(*level))),
    {
        let ids = level_ids(level);
        let mut total: Quantity = 0;
        for i in 0..ids.len()
            invariant
                ids@ == queued_ids(*level),
                forall|k: int| 0 <= k < ids@.len() ==> self@.orders.contains_key(#[trigger] ids@[k]),
                total == capped(level_total(self@.orders, ids@.take(i as int))),
        {
            assert(self@.orders.contains_key(ids@[i as int]));
            let order = self.track_orders.get(&ids[i]).unwrap();
            assert(ids@.take(i + 1).drop_last() =~= ids@.take(i as int));
            total = total.saturating_add(*order.get_remaining_quantity());
        }
        assert(ids@.take(ids@.len() as int) =~= ids@);
        total
    }

    /// The levels of one side in ascending price, with their totals.
    fn side_infos(&self, side_map: &BTreeMap<Price, OrderIds>, side: Ghost<Side>) -> (r: LevelInfos)
        requires
            self@.consistent(),
            side_view(side_map@) == self@.levels(side@),
        ensures
            describes_side(self@, side@, r@),
    {
        let ghost m = self@;
        let mut infos: LevelInfos = Vec::new();
        for price in it: side_map.keys()
            invariant
                self@ == m,
                m.consistent(),
                side_view(side_map@) == m.levels(side@),
                it.seq() == spec_keys_iter(side_map).remaining(),
                infos@.len() == it.index(),
                forall|i: int|
                    0 <= i < it.index() ==> #[trigger] infos@[i].price == *it.seq()[i]
                        && m.levels(side@).contains_key(infos@[i].price)
                        && infos@[i].quantity == capped(level_total(m.orders, m.levels(side@)[infos@[i].price])),
        {
            let level = side_map.get(price).unwrap();
            assert(queued_ids(*level) == m.levels(side@)[*price]);
            assert(m.levels_consistent(side@)) by {
                match side@ {
                    Side::Buy => {},
                    Side::Sell => {},
                }
            }
            assert(m.levels(side@).contains_key(*price));
            let quantity = self.level_quantity(level);
            infos.push(LevelInfo { price: *price, quantity });
        }
        let ghost keys = spec_keys_iter(side_map).remaining();
        assert(infos@.len() == keys.len());
        assert(keys.unref().to_set() == side_map@.dom());
        assert(increasing_seq(keys));
        assert forall|i: int, j: int| 0 <= i < j < infos@.len() implies infos@[i].price
            < infos@[j].price by {
            broadcast use vstd::laws_cmp::group_laws_cmp;
            assert(vstd::laws_cmp::obeys_cmp::<&Price>());
            vstd::std_specs::btree::axiom_increasing_seq_meaning::<&Price>(keys);
            assert(<&Price as OrdSpec>::cmp_spec(&keys[i], &keys[j]) is Less);
            assert(*keys[i] < *keys[j]);
            assert(infos@[i].price == *keys[i]);
            assert(infos@[j].price == *keys[j]);
        }
        assert forall|p: Price| #[trigger] m.levels(side@).contains_key(p) implies exists|i: int|
            0 <= i < infos@.len() && infos@[i].price == p by {
            assert(side_map@.dom().contains(p));
            assert(keys.unref().to_set().contains(p));
            let i = choose|i: int| 0 <= i < keys.unref().len() && keys.unref()[i] == p;
            assert(infos@[i].price == *keys[i]);
        }
        infos
    }

    /// A value copy of the book: for each level of each side, its price and
    /// the total that its orders still have to trade, in ascending price.
    pub fn get_order_infos(&self) -> (r: OrderBookLevelInfos)
        requires
            self@.valid(),
        ensures
            describes(self@, r),
    {
        let bids = self.side_infos(&self.bid_side, Ghost(Side::Buy));
        let asks = self.side_infos(&self.ask_side, Ghost(Side::Sell));
        OrderBookLevelInfos { bids, asks }
    }

    /// The resting order `order_id`.
    fn get_order_ref(&self, order_id: &OrderId) -> (r: BookResult<Order>)
        ensures
            !self@.orders.contains_key(*order_id) ==> r == Err::<Order, OrderBookError>(
                OrderBookError::OrderNotFound(*order_id),
            ),
            self@.orders.contains_key(*order_id) ==> r is Ok && r->Ok_0@ == self@.orders[*order_id],
    {
        match self.track_orders.get(order_id) {
            Some(order) => Ok(*order),
            None => Err(OrderBookError::OrderNotFound(*order_id)),
        }
    }

    /// Replaces the resting order `order.id` by the order that `order`
    /// makes of it: the old one is cancelled and the new one added, at the
    /// back of its level.
    pub fn modify_order(&mut self, order: OrderModify) -> (r: BookResult<Option<Trades>>)
        requires
            old(self)@.valid(),
            order@.quantity != Some(0u32),
        ensures
            final(self)@.valid(),
            !old(self)@.orders.contains_key(order@.order_id) ==> r == Err::<
                Option<Trades>,
                OrderBookError,
            >(OrderBookError::OrderNotFound(order@.order_id)) && final(self)@ == old(self)@,
            old(self)@.orders.contains_key(order@.order_id) ==> add_outcome(
                old(self)@.unrest(order@.order_id),
                modified_order(order@, old(self)@.orders[order@.order_id]),
                final(self)@,
                r,
            ),
    {
        let order_id = *order.get_order_id();
        let old_order = match self.get_order_ref(&order_id) {
            Ok(found) => found,
            Err(e) => {
                return Err(e);
            },
        };
        match self.cancel_order(order_id) {
            Ok(_) => {},
            Err(e) => {
                return Err(e);
            },
        }
        let new_order = match order.to_order(old_order) {
            Ok(made) => made,
            Err(e) => {
                return Err(OrderBookError::from(e));
            },
        };
        self.add_order(new_order)
    }
}

} // verus!
