//! Laws of the order book, stated over its model and proved from what the
//! operations promise.

use vstd::prelude::*;

use vstd::seq_lib::lemma_no_dup_in_concat;

use crate::level::{lemma_without, without};
use crate::order::{OrderId, OrderModel, OrderType, Price, Side};
use crate::error::BookResult;
use crate::trade::Trades;
use crate::orderbook::{
    add_outcome, traded_by,
    describes, describes_side, level_total, trades_well_formed, BookModel, LevelInfo,
    OrderBookLevelInfos,
};
use crate::trade::Trade;

verus! {

/// In a valid book every resting order is listed exactly once, at the level
/// that its side and price name, and at no other level.
pub proof fn lemma_order_listed_once(m: BookModel, id: OrderId, s: Side, p: Price)
    requires
        m.valid(),
        m.orders.contains_key(id),
    ensures
        m.levels(m.orders[id].side).contains_key(m.orders[id].price),
        m.levels(m.orders[id].side)[m.orders[id].price].to_multiset().count(id) == 1,
        m.levels(s).contains_key(p) && (s != m.orders[id].side || p != m.orders[id].price)
            ==> !m.levels(s)[p].contains(id),
{
    let o = m.orders[id];
    let q = m.levels(o.side)[o.price];
    assert(m.levels_consistent(o.side));
    assert(q.contains(id));
    q.lemma_multiset_has_no_duplicates();
    assert(q.to_multiset().contains(id)) by {
        q.to_multiset_ensures();
    }
    if m.levels(s).contains_key(p) && (s != o.side || p != o.price) && m.levels(s)[p].contains(id) {
        assert(m.levels_consistent(s));
        let k = choose|k: int| 0 <= k < m.levels(s)[p].len() && m.levels(s)[p][k] == id;
        assert(m.orders[m.levels(s)[p][k]].side == s);
    }
}

/// In a valid book no level is empty.
pub proof fn lemma_no_empty_level(m: BookModel, s: Side, p: Price)
    requires
        m.valid(),
        m.levels(s).contains_key(p),
    ensures
        m.levels(s)[p].len() > 0,
{
    assert(m.levels_consistent(s));
}

/// In a valid book the best bid lies below the best ask.
pub proof fn lemma_best_bid_below_best_ask(m: BookModel, best_bid: Price, best_ask: Price)
    requires
        m.valid(),
        m.bids.contains_key(best_bid),
        m.asks.contains_key(best_ask),
        forall|b: Price| #[trigger] m.bids.contains_key(b) ==> b <= best_bid,
        forall|a: Price| #[trigger] m.asks.contains_key(a) ==> best_ask <= a,
    ensures
        best_bid < best_ask,
{
}

/// In a valid book no resting order is filled: an order that fills completely
/// has left the index and every level.
pub proof fn lemma_filled_order_absent(m: BookModel, id: OrderId, s: Side, p: Price)
    requires
        m.valid(),
        m.orders.contains_key(id) ==> m.orders[id].remaining_quantity == 0,
    ensures
        !m.orders.contains_key(id),
        m.levels(s).contains_key(p) ==> !m.levels(s)[p].contains(id),
{
    if m.levels(s).contains_key(p) && m.levels(s)[p].contains(id) {
        assert(m.levels_consistent(s));
        let k = choose|k: int| 0 <= k < m.levels(s)[p].len() && m.levels(s)[p][k] == id;
        assert(m.orders.contains_key(m.levels(s)[p][k]));
    }
}

/// In a valid book, which every operation leaves behind, no FillAndKill
/// order rests.
pub proof fn lemma_no_fill_and_kill_rests(m: BookModel, id: OrderId)
    requires
        m.valid(),
        m.orders.contains_key(id),
    ensures
        m.orders[id].order_type != OrderType::FillAndKill,
{
}

/// An order that trades all it had left in an `add_order` call, the new
/// order or a resting one, is gone from the index and from every level
/// afterwards, so no later snapshot counts it.
pub proof fn lemma_fully_traded_order_leaves(
    before: BookModel,
    o: OrderModel,
    after: BookModel,
    r: BookResult<Option<Trades>>,
    x: OrderId,
    s: Side,
    p: Price,
)
    requires
        before.valid(),
        after.valid(),
        !before.orders.contains_key(o.order_id),
        before.can_match(o.side, o.price),
        add_outcome(before, o, after, r),
        r is Ok && r->Ok_0 is Some,
        traded_by(r->Ok_0->Some_0@, x) == before.rest(o).held(x),
    ensures
        !after.orders.contains_key(x),
        after.levels(s).contains_key(p) ==> !after.levels(s)[p].contains(x),
{
    if after.levels(s).contains_key(p) && after.levels(s)[p].contains(x) {
        assert(after.levels_consistent(s)) by {
            match s {
                Side::Buy => {},
                Side::Sell => {},
            }
        }
        let k = choose|k: int| 0 <= k < after.levels(s)[p].len() && after.levels(s)[p][k] == x;
        assert(after.orders.contains_key(after.levels(s)[p][k]));
    }
}

/// Total quantity on the bid side of `ts`.
pub open spec fn bid_total(ts: Seq<Trade>) -> int
    decreases ts.len(),
{
    if ts.len() == 0 {
        0
    } else {
        bid_total(ts.drop_last()) + ts.last().bid_trade.quantity
    }
}

/// Total quantity on the ask side of `ts`.
pub open spec fn ask_total(ts: Seq<Trade>) -> int
    decreases ts.len(),
{
    if ts.len() == 0 {
        0
    } else {
        ask_total(ts.drop_last()) + ts.last().ask_trade.quantity
    }
}

/// Over the trades of one call, the bid side and the ask side trade the same
/// total quantity.
pub proof fn lemma_trade_totals_balance(ts: Seq<Trade>)
    requires
        trades_well_formed(ts),
    ensures
        bid_total(ts) == ask_total(ts),
    decreases ts.len(),
{
    if ts.len() > 0 {
        let rest = ts.drop_last();
        assert(trades_well_formed(rest)) by {
            assert forall|i: int| 0 <= i < rest.len() implies {
                let t = #[trigger] rest[i];
                &&& t.bid_trade.quantity == t.ask_trade.quantity
                &&& t.bid_trade.quantity > 0
                &&& t.bid_trade.price >= t.ask_trade.price
            } by {
                assert(rest[i] == ts[i]);
            }
        }
        lemma_trade_totals_balance(rest);
        assert(ts[ts.len() - 1] == ts.last());
    }
}

/// Adding an order that cannot trade and then cancelling it twice: the first
/// cancel finds it (unless it was a FillAndKill, which never rested), the
/// second does not, and the book is as if the order had never been added.
pub proof fn lemma_cancel_after_add_restores(m: BookModel, o: OrderModel)
    requires
        m.valid(),
        !m.orders.contains_key(o.order_id),
        0 < o.remaining_quantity <= o.initial_quantity,
        !m.can_match(o.side, o.price),
    ensures
        ({
            let added = if o.order_type == OrderType::FillAndKill {
                m
            } else {
                m.rest(o)
            };
            let cancelled = if added.orders.contains_key(o.order_id) {
                added.unrest(o.order_id)
            } else {
                added
            };
            &&& o.order_type == OrderType::GoodTillCancel ==> added.orders.contains_key(o.order_id)
            &&& !cancelled.orders.contains_key(o.order_id)
            &&& cancelled == m
        }),
{
    if o.order_type == OrderType::GoodTillCancel {
        let id = o.order_id;
        let n = m.rest(o);
        let c = n.unrest(id);
        let lv = m.levels(o.side);
        let q = if lv.contains_key(o.price) {
            lv[o.price]
        } else {
            Seq::empty()
        };
        assert(n.orders[id] == o);
        assert(!q.contains(id)) by {
            if q.contains(id) {
                assert(m.levels_consistent(o.side));
                let k = choose|k: int| 0 <= k < q.len() && q[k] == id;
                assert(m.orders.contains_key(q[k]));
            }
        }
        lemma_without(q, id);
        lemma_without(q.push(id), id);
        assert(without(q.push(id), id) =~= q) by {
            assert forall|x: OrderId| without(q.push(id), id).contains(x) == q.contains(x) by {
                if q.contains(x) {
                    let k = choose|k: int| 0 <= k < q.len() && q[k] == x;
                    assert(q.push(id)[k] == x);
                }
                if q.push(id).contains(x) && x != id {
                    let k = choose|k: int| 0 <= k < q.push(id).len() && q.push(id)[k] == x;
                    assert(k < q.len());
                }
            }
            reveal(Seq::filter);
            q.lemma_filter_push(id, |x: OrderId| x != id);
            assert(q.push(id).drop_last() == q);
        }
        assert(c.orders =~= m.orders);
        if lv.contains_key(o.price) {
            assert(m.levels_consistent(o.side));
            assert(c.levels(o.side) =~= lv);
        } else {
            assert(c.levels(o.side) =~= lv);
        }
        match o.side {
            Side::Buy => assert(c =~= m),
            Side::Sell => assert(c =~= m),
        }
    }
}

/// Two strictly ascending sequences that hold the same prices are equal.
proof fn lemma_ascending_unique(a: Seq<Price>, b: Seq<Price>)
    requires
        forall|i: int, j: int| 0 <= i < j < a.len() ==> a[i] < a[j],
        forall|i: int, j: int| 0 <= i < j < b.len() ==> b[i] < b[j],
        forall|x: Price| a.contains(x) <==> b.contains(x),
    ensures
        a == b,
    decreases a.len(),
{
    if a.len() == 0 {
        if b.len() > 0 {
            assert(b.contains(b[0]));
        }
        assert(a =~= b);
    } else {
        assert(a.contains(a[0]));
        assert(b.len() > 0);
        assert(b.contains(b[0]));
        let i = choose|i: int| 0 <= i < a.len() && a[i] == b[0];
        let j = choose|j: int| 0 <= j < b.len() && b[j] == a[0];
        if i > 0 {
            assert(a[0] < a[i]);
        }
        if j > 0 {
            assert(b[0] < b[j]);
        }
        assert(a[0] == b[0]);
        let ta = a.drop_first();
        let tb = b.drop_first();
        assert forall|x: Price| ta.contains(x) <==> tb.contains(x) by {
            if ta.contains(x) {
                let k = choose|k: int| 0 <= k < ta.len() && ta[k] == x;
                assert(a[k + 1] == x);
                assert(a[0] < a[k + 1]);
                assert(b.contains(x));
                let l = choose|l: int| 0 <= l < b.len() && b[l] == x;
                assert(l != 0);
                assert(tb[l - 1] == x);
            }
            if tb.contains(x) {
                let k = choose|k: int| 0 <= k < tb.len() && tb[k] == x;
                assert(b[k + 1] == x);
                assert(b[0] < b[k + 1]);
                assert(a.contains(x));
                let l = choose|l: int| 0 <= l < a.len() && a[l] == x;
                assert(l != 0);
                assert(ta[l - 1] == x);
            }
        }
        assert forall|i: int, j: int| 0 <= i < j < ta.len() implies ta[i] < ta[j] by {
            assert(a[i + 1] < a[j + 1]);
        }
        assert forall|i: int, j: int| 0 <= i < j < tb.len() implies tb[i] < tb[j] by {
            assert(b[i + 1] < b[j + 1]);
        }
        lemma_ascending_unique(ta, tb);
        assert(a =~= b) by {
            assert forall|k: int| 0 <= k < a.len() implies a[k] == b[k] by {
                if k > 0 {
                    assert(a[k] == ta[k - 1]);
                    assert(b[k] == tb[k - 1]);
                }
            }
        }
    }
}

/// The prices of a side's level infos.
pub open spec fn prices_of(infos: Seq<LevelInfo>) -> Seq<Price> {
    infos.map_values(|l: LevelInfo| l.price)
}

/// A book has one snapshot: two snapshots of the same book are equal.
pub proof fn lemma_snapshot_unique(m: BookModel, x: OrderBookLevelInfos, y: OrderBookLevelInfos)
    requires
        describes(m, x),
        describes(m, y),
    ensures
        x.bids@ == y.bids@,
        x.asks@ == y.asks@,
{
    lemma_side_unique(m, Side::Buy, x.bids@, y.bids@);
    lemma_side_unique(m, Side::Sell, x.asks@, y.asks@);
}

proof fn lemma_side_unique(m: BookModel, s: Side, a: Seq<LevelInfo>, b: Seq<LevelInfo>)
    requires
        describes_side(m, s, a),
        describes_side(m, s, b),
    ensures
        a == b,
{
    let pa = prices_of(a);
    let pb = prices_of(b);
    assert forall|x: Price| pa.contains(x) <==> pb.contains(x) by {
        if pa.contains(x) {
            let k = choose|k: int| 0 <= k < pa.len() && pa[k] == x;
            assert(m.levels(s).contains_key(a[k].price));
            let l = choose|l: int| 0 <= l < b.len() && b[l].price == x;
            assert(pb[l] == x);
        }
        if pb.contains(x) {
            let k = choose|k: int| 0 <= k < pb.len() && pb[k] == x;
            assert(m.levels(s).contains_key(b[k].price));
            let l = choose|l: int| 0 <= l < a.len() && a[l].price == x;
            assert(pa[l] == x);
        }
    }
    lemma_ascending_unique(pa, pb);
    assert(a.len() == pa.len() && b.len() == pb.len());
    assert forall|k: int| 0 <= k < a.len() implies a[k] == b[k] by {
        assert(pa[k] == pb[k]);
    }
    assert(a =~= b);
}

/// The ids queued at the first `k` levels that `infos` lists, level after
/// level.
pub open spec fn listed_ids(m: BookModel, s: Side, infos: Seq<LevelInfo>, k: int) -> Seq<OrderId>
    decreases k,
{
    if k <= 0 {
        Seq::empty()
    } else {
        listed_ids(m, s, infos, k - 1) + m.levels(s)[infos[k - 1].price]
    }
}

/// Sum of the aggregate quantities in `infos`.
pub open spec fn infos_total(infos: Seq<LevelInfo>) -> int
    decreases infos.len(),
{
    if infos.len() == 0 {
        0
    } else {
        infos_total(infos.drop_last()) + infos.last().quantity
    }
}

/// What a run of orders has to trade is the sum over its two parts.
proof fn lemma_level_total_concat(
    orders: Map<OrderId, OrderModel>,
    a: Seq<OrderId>,
    b: Seq<OrderId>,
)
    ensures
        level_total(orders, a + b) == level_total(orders, a) + level_total(orders, b),
    decreases b.len(),
{
    if b.len() == 0 {
        assert(a + b =~= a);
    } else {
        lemma_level_total_concat(orders, a, b.drop_last());
        assert((a + b).drop_last() =~= a + b.drop_last());
        assert((a + b).last() == b.last());
    }
}

proof fn lemma_listed_prefix(m: BookModel, s: Side, infos: Seq<LevelInfo>, k: int)
    requires
        m.valid(),
        describes_side(m, s, infos),
        forall|p: Price| #[trigger]
            m.levels(s).contains_key(p) ==> level_total(m.orders, m.levels(s)[p]) <= u32::MAX,
        0 <= k <= infos.len(),
    ensures
        listed_ids(m, s, infos, k).no_duplicates(),
        forall|id: OrderId| #[trigger]
            listed_ids(m, s, infos, k).contains(id) <==> m.orders.contains_key(id)
                && m.orders[id].side == s && exists|i: int|
                0 <= i < k && infos[i].price == m.orders[id].price,
        infos_total(infos.take(k)) == level_total(m.orders, listed_ids(m, s, infos, k)),
    decreases k,
{
    assert(m.levels_consistent(s)) by {
        match s {
            Side::Buy => {},
            Side::Sell => {},
        }
    }
    if k == 0 {
        assert(infos.take(0) =~= Seq::<LevelInfo>::empty());
    } else {
        lemma_listed_prefix(m, s, infos, k - 1);
        let prev = listed_ids(m, s, infos, k - 1);
        let p = infos[k - 1].price;
        assert(m.levels(s).contains_key(p));
        let l = m.levels(s)[p];
        assert(listed_ids(m, s, infos, k) == prev + l);
        assert forall|i: int, j: int| 0 <= i < prev.len() && 0 <= j < l.len() implies prev[i]
            != l[j] by {
            assert(prev.contains(prev[i]));
            let w = choose|w: int| 0 <= w < k - 1 && infos[w].price == m.orders[prev[i]].price;
            assert(infos[w].price < infos[k - 1].price);
            assert(m.orders[l[j]].price == p);
        }
        lemma_no_dup_in_concat(prev, l);
        assert forall|id: OrderId| #[trigger]
            (prev + l).contains(id) <==> m.orders.contains_key(id) && m.orders[id].side == s
                && exists|i: int| 0 <= i < k && infos[i].price == m.orders[id].price by {
            if (prev + l).contains(id) {
                if !prev.contains(id) {
                    assert(l.contains(id));
                    let j = choose|j: int| 0 <= j < l.len() && l[j] == id;
                    assert(m.orders.contains_key(l[j]));
                    assert(infos[k - 1].price == m.orders[id].price);
                } else {
                    let w = choose|w: int| 0 <= w < k - 1 && infos[w].price == m.orders[id].price;
                    assert(0 <= w < k);
                }
            }
            if m.orders.contains_key(id) && m.orders[id].side == s && exists|i: int|
                0 <= i < k && infos[i].price == m.orders[id].price {
                let i = choose|i: int| 0 <= i < k && infos[i].price == m.orders[id].price;
                if i < k - 1 {
                    assert(prev.contains(id));
                    let j = choose|j: int| 0 <= j < prev.len() && prev[j] == id;
                    assert((prev + l)[j] == id);
                } else {
                    assert(l.contains(id));
                    let j = choose|j: int| 0 <= j < l.len() && l[j] == id;
                    assert((prev + l)[prev.len() + j] == id);
                }
            }
        }
        lemma_level_total_concat(m.orders, prev, l);
        assert(infos.take(k).drop_last() =~= infos.take(k - 1));
        assert(infos.take(k).last() == infos[k - 1]);
    }
}

/// Summed over a snapshot's levels of one side, the aggregate quantities
/// equal what the orders resting on that side have to trade: the levels,
/// taken in the snapshot's order, list each order of that side exactly once,
/// and the aggregates add up to their total. This holds while no level's
/// total exceeds the largest quantity, at which an aggregate is capped.
pub proof fn lemma_snapshot_totals(m: BookModel, s: Side, infos: Seq<LevelInfo>)
    requires
        m.valid(),
        describes_side(m, s, infos),
        forall|p: Price| #[trigger]
            m.levels(s).contains_key(p) ==> level_total(m.orders, m.levels(s)[p]) <= u32::MAX,
    ensures
        ({
            let ids = listed_ids(m, s, infos, infos.len() as int);
            &&& ids.no_duplicates()
            &&& forall|id: OrderId| #[trigger]
                ids.contains(id) <==> m.orders.contains_key(id) && m.orders[id].side == s
            &&& infos_total(infos) == level_total(m.orders, ids)
        }),
{
    let n = infos.len() as int;
    lemma_listed_prefix(m, s, infos, n);
    assert(infos.take(n) =~= infos);
    let ids = listed_ids(m, s, infos, n);
    assert forall|id: OrderId| #[trigger]
        ids.contains(id) <==> m.orders.contains_key(id) && m.orders[id].side == s by {
        if m.orders.contains_key(id) && m.orders[id].side == s {
            let o = m.orders[id];
            assert(m.levels(o.side).contains_key(o.price));
            assert(m.levels(s).contains_key(o.price));
            let i = choose|i: int| 0 <= i < infos.len() && infos[i].price == o.price;
            assert(0 <= i < n && infos[i].price == m.orders[id].price);
        }
    }
}

} // verus!
