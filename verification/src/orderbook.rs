//! Price-time priority limit order book.
//!
//! - Prices are integer ticks.
//! - Each side is a queue of price levels, best price first; each level is a
//!   FIFO queue of resting orders.
//! - Matching is event-sourced: every submission returns the events it caused,
//!   and the contracts pin those events down as a function of the book and the
//!   input, so a replay of the same input stream gives the same results.

use std::collections::BTreeMap;
use std::collections::VecDeque;
use crate::index_laws::{
    index_coherent, lemma_cancel_keeps_index_coherent, lemma_empty_book_coherent,
    lemma_submit_keeps_index_coherent,
};
use vstd::prelude::*;

verus! {

#[derive(Clone, Copy, Debug, PartialEq, Eq, Structural)]
pub enum Side {
    Bid,
    Ask,
}

#[derive(Clone, Copy, Debug, PartialEq, Eq, Structural)]
pub struct Order {
    pub id: u64,
    pub side: Side,
    pub price: u64,
    pub qty: u64,
}

#[derive(Clone, Copy, Debug, PartialEq, Eq, Structural)]
pub struct Trade {
    pub maker_id: u64,
    pub taker_id: u64,
    pub price: u64,
    pub qty: u64,
}

#[derive(Clone, Copy, Debug, PartialEq, Eq, Structural)]
pub enum CancelResult {
    Canceled { remaining_qty: u64 },
    NotFound,
}

#[derive(Clone, Debug)]
pub enum Event {
    Trade(Trade),
    BookUpdate { side: Side, price: u64, new_level_qty: u64 },
}

// ------------------------------------------------------------------ model

/// A price level as the contracts see it: its price and its FIFO queue.
pub struct LevelView {
    pub price: u64,
    pub orders: Seq<Order>,
}

/// The book as the contracts see it: both sides as level queues, best
/// price first, and the index of live orders by id (each as it was when it
/// rested).
pub struct BookView {
    pub bids: Seq<LevelView>,
    pub asks: Seq<LevelView>,
    pub index: Map<u64, Order>,
}

/// What matching a taker against one side produces.
pub struct MatchOutcome {
    pub events: Seq<Event>,
    pub levels: Seq<LevelView>,
    pub remaining: u64,
    /// The makers filled in full, in the order they were filled.
    pub filled: Seq<Filled>,
}

/// A maker filled in full, and whether an order with its id still rests in
/// its level afterwards.
pub struct Filled {
    pub maker: Order,
    pub id_still_at_level: bool,
}

/// Some order of `s` has id `id`.
pub open spec fn has_id(s: Seq<Order>, id: u64) -> bool {
    exists|k: int| 0 <= k < s.len() && #[trigger] s[k].id == id
}

pub open spec fn opposite(side: Side) -> Side {
    match side {
        Side::Bid => Side::Ask,
        Side::Ask => Side::Bid,
    }
}

/// Price `a` has strictly higher priority than price `b` on `side`.
pub open spec fn strictly_better(side: Side, a: u64, b: u64) -> bool {
    match side {
        Side::Bid => a > b,
        Side::Ask => a < b,
    }
}

/// A taker on `side` with limit `limit` may trade at `best_opposite`.
pub open spec fn crosses_spec(side: Side, limit: u64, best_opposite: u64) -> bool {
    match side {
        Side::Bid => limit >= best_opposite,
        Side::Ask => limit <= best_opposite,
    }
}

pub open spec fn rests_at(side: Side, price: u64, o: Order) -> bool {
    &&& o.side == side
    &&& o.price == price
    &&& o.qty > 0
}

/// A level is nonempty, holds only live orders of its side at its price, and
/// its total quantity fits in a `u64`.
pub open spec fn level_wf(side: Side, l: LevelView) -> bool {
    &&& l.orders.len() > 0
    &&& qty_sum(l.orders) <= u64::MAX
    &&& forall|k: int| 0 <= k < l.orders.len() ==> rests_at(side, l.price, #[trigger] l.orders[k])
}

/// Levels are well formed and in strict price priority, best first.
pub open spec fn side_wf(side: Side, levels: Seq<LevelView>) -> bool {
    &&& forall|i: int, j: int|
        #![trigger levels[i], levels[j]]
        0 <= i < j < levels.len() ==> strictly_better(side, levels[i].price, levels[j].price)
    &&& forall|i: int| 0 <= i < levels.len() ==> level_wf(side, #[trigger] levels[i])
}

/// Both sides are well formed and the book is not crossed.
pub open spec fn book_wf(b: BookView) -> bool {
    &&& side_wf(Side::Bid, b.bids)
    &&& side_wf(Side::Ask, b.asks)
    &&& (b.bids.len() > 0 && b.asks.len() > 0 ==> b.bids[0].price < b.asks[0].price)
}

pub open spec fn side_levels(b: BookView, side: Side) -> Seq<LevelView> {
    match side {
        Side::Bid => b.bids,
        Side::Ask => b.asks,
    }
}

pub open spec fn with_side(b: BookView, side: Side, levels: Seq<LevelView>) -> BookView {
    match side {
        Side::Bid => BookView { bids: levels, asks: b.asks, index: b.index },
        Side::Ask => BookView { bids: b.bids, asks: levels, index: b.index },
    }
}

/// Total quantity of a queue of orders.
pub open spec fn qty_sum(s: Seq<Order>) -> nat
    decreases s.len(),
{
    if s.len() == 0 {
        0
    } else {
        qty_sum(s.drop_last()) + s.last().qty as nat
    }
}

/// Total quantity resting on a side.
pub open spec fn side_qty(levels: Seq<LevelView>) -> nat
    decreases levels.len(),
{
    if levels.len() == 0 {
        0
    } else {
        side_qty(levels.drop_last()) + qty_sum(levels.last().orders)
    }
}

/// Total quantity resting in the book.
pub open spec fn total_qty(b: BookView) -> nat {
    side_qty(b.bids) + side_qty(b.asks)
}

/// The number of leading levels whose price is strictly better than `price`:
/// where a level at `price` is, or would go.
pub open spec fn level_pos(levels: Seq<LevelView>, side: Side, price: u64) -> nat
    decreases levels.len(),
{
    if levels.len() == 0 || !strictly_better(side, levels[0].price, price) {
        0
    } else {
        1 + level_pos(levels.drop_first(), side, price)
    }
}

/// Quantity resting at `price` on a side (0 when there is no such level).
pub open spec fn level_qty_at(levels: Seq<LevelView>, side: Side, price: u64) -> nat {
    let j = level_pos(levels, side, price);
    if j < levels.len() && levels[j as int].price == price {
        qty_sum(levels[j as int].orders)
    } else {
        0
    }
}

/// `o` joins the back of the queue at its price; a missing level is created
/// in price order.
pub open spec fn rest_levels(levels: Seq<LevelView>, o: Order) -> Seq<LevelView> {
    let j = level_pos(levels, o.side, o.price) as int;
    if j < levels.len() && levels[j].price == o.price {
        levels.update(j, LevelView { price: o.price, orders: levels[j].orders.push(o) })
    } else {
        levels.insert(j, LevelView { price: o.price, orders: seq![o] })
    }
}

/// The side without its head order: the best level loses its first order,
/// and leaves the side if that empties it.
pub open spec fn drop_head_order(levels: Seq<LevelView>) -> Seq<LevelView> {
    let left = levels[0].orders.drop_first();
    if left.len() == 0 {
        levels.drop_first()
    } else {
        levels.update(0, LevelView { price: levels[0].price, orders: left })
    }
}

/// Matching `taker` against the opposite side `levels`: while the taker has
/// quantity and its limit crosses the best level, it trades with the order at
/// the head of that level, at the level's price. A maker that is filled
/// leaves its level (and an emptied level leaves the side), with a
/// `BookUpdate` of the quantity left at that price; a maker filled in part
/// keeps its place.
pub open spec fn match_spec(levels: Seq<LevelView>, taker: Order) -> MatchOutcome
    decreases levels.len(), levels[0].orders.len(),
{
    if taker.qty == 0 || levels.len() == 0 || levels[0].orders.len() == 0 || !crosses_spec(
        taker.side,
        taker.price,
        levels[0].price,
    ) {
        MatchOutcome { events: Seq::empty(), levels, remaining: taker.qty, filled: Seq::empty() }
    } else {
        let top = levels[0];
        let maker = top.orders[0];
        let fill = if taker.qty < maker.qty {
            taker.qty
        } else {
            maker.qty
        };
        let trade = Event::Trade(
            Trade { maker_id: maker.id, taker_id: taker.id, price: top.price, qty: fill },
        );
        if fill < maker.qty {
            let maker_left = Order {
                id: maker.id,
                side: maker.side,
                price: maker.price,
                qty: (maker.qty - fill) as u64,
            };
            MatchOutcome {
                events: seq![trade],
                levels: levels.update(
                    0,
                    LevelView { price: top.price, orders: top.orders.update(0, maker_left) },
                ),
                remaining: 0,
                filled: Seq::empty(),
            }
        } else {
            let taker_left = Order {
                id: taker.id,
                side: taker.side,
                price: taker.price,
                qty: (taker.qty - fill) as u64,
            };
            let r = match_spec(drop_head_order(levels), taker_left);
            MatchOutcome {
                events: seq![
                    trade,
                    Event::BookUpdate {
                        side: opposite(taker.side),
                        price: top.price,
                        new_level_qty: qty_sum(top.orders.drop_first()) as u64,
                    },
                ] + r.events,
                levels: r.levels,
                remaining: r.remaining,
                filled: seq![
                    Filled {
                        maker,
                        id_still_at_level: has_id(top.orders.drop_first(), maker.id),
                    },
                ] + r.filled,
            }
        }
    }
}

/// Volume resting on the opposite side `levels` at prices the taker's limit
/// crosses (levels are best first, so these are the leading levels).
pub open spec fn crossing_qty(levels: Seq<LevelView>, taker: Order) -> nat
    decreases levels.len(),
{
    if levels.len() == 0 || !crosses_spec(taker.side, taker.price, levels[0].price) {
        0
    } else {
        qty_sum(levels[0].orders) + crossing_qty(levels.drop_first(), taker)
    }
}

/// The index after the makers `fills` were filled in full, one after the
/// other: a maker's entry is released when it still locates the maker (same
/// side and price) and no order with its id is left at that level.
pub open spec fn release_filled(m: Map<u64, Order>, fills: Seq<Filled>) -> Map<u64, Order>
    decreases fills.len(),
{
    if fills.len() == 0 {
        m
    } else {
        let f = fills[0];
        let id = f.maker.id;
        let m2 = if !f.id_still_at_level && m.contains_key(id) && m[id].side == f.maker.side
            && m[id].price == f.maker.price {
            m.remove(id)
        } else {
            m
        };
        release_filled(m2, fills.drop_first())
    }
}

/// `m` without the keys in `ids`.
pub open spec fn remove_keys(m: Map<u64, Order>, ids: Seq<u64>) -> Map<u64, Order>
    decreases ids.len(),
{
    if ids.len() == 0 {
        m
    } else {
        remove_keys(m.remove(ids[0]), ids.drop_first())
    }
}

/// The taker as it rests after matching left it `remaining`.
pub open spec fn rested_order(order: Order, remaining: u64) -> Order {
    Order { id: order.id, side: order.side, price: order.price, qty: remaining }
}

/// Whether the quantity at the level where `order`'s remainder would rest
/// fits in a `u64` (summing it is where a submission can overflow).
pub open spec fn submit_fits(b: BookView, order: Order) -> bool {
    let m = match_spec(side_levels(b, opposite(order.side)), order);
    m.remaining > 0 ==> level_qty_at(side_levels(b, order.side), order.side, order.price)
        + m.remaining <= u64::MAX
}

/// The book after `order` is submitted, and the events it causes: the
/// matching events, then, if a remainder rests, a `BookUpdate` with the new
/// quantity of its level. Makers filled in full are released from the index
/// (see `release_filled`); a remainder that rests is recorded in it.
pub open spec fn submit_spec(b: BookView, order: Order) -> (BookView, Seq<Event>) {
    let m = match_spec(side_levels(b, opposite(order.side)), order);
    let index = release_filled(b.index, m.filled);
    let sided = with_side(b, opposite(order.side), m.levels);
    let matched = BookView { bids: sided.bids, asks: sided.asks, index };
    if m.remaining > 0 {
        let rested = rested_order(order, m.remaining);
        let own = rest_levels(side_levels(b, order.side), rested);
        let placed = with_side(matched, order.side, own);
        (
            BookView {
                bids: placed.bids,
                asks: placed.asks,
                index: index.insert(order.id, rested),
            },
            m.events.push(
                Event::BookUpdate {
                    side: order.side,
                    price: order.price,
                    new_level_qty: level_qty_at(own, order.side, order.price) as u64,
                },
            ),
        )
    } else {
        (matched, m.events)
    }
}

/// `s` without the orders whose id is `id`, in the same order.
pub open spec fn without_id(s: Seq<Order>, id: u64) -> Seq<Order>
    decreases s.len(),
{
    if s.len() == 0 {
        s
    } else {
        let r = without_id(s.drop_last(), id);
        if s.last().id == id {
            r
        } else {
            r.push(s.last())
        }
    }
}

/// The level at `price` loses the orders with id `id`; an emptied level leaves.
pub open spec fn cancel_levels(levels: Seq<LevelView>, side: Side, price: u64, id: u64) -> Seq<
    LevelView,
> {
    let j = level_pos(levels, side, price) as int;
    if j < levels.len() && levels[j].price == price {
        let kept = without_id(levels[j].orders, id);
        if kept.len() == 0 {
            levels.remove(j)
        } else {
            levels.update(j, LevelView { price, orders: kept })
        }
    } else {
        levels
    }
}

/// Cancelling `id`: unknown ids are `NotFound` and change nothing; a known id
/// leaves the index, its orders leave the level at its recorded price, and
/// the result is `Canceled` with remaining quantity 0.
pub open spec fn cancel_spec(b: BookView, id: u64) -> (BookView, CancelResult) {
    if b.index.contains_key(id) {
        let o = b.index[id];
        let changed = with_side(
            b,
            o.side,
            cancel_levels(side_levels(b, o.side), o.side, o.price, id),
        );
        (
            BookView { bids: changed.bids, asks: changed.asks, index: b.index.remove(id) },
            CancelResult::Canceled { remaining_qty: 0 },
        )
    } else {
        (b, CancelResult::NotFound)
    }
}


// ------------------------------------------------------------------ lemmas

/// Characterizes `level_pos` by the index it returns.
pub(crate) proof fn lemma_level_pos_at(levels: Seq<LevelView>, side: Side, price: u64, j: int)
    requires
        0 <= j <= levels.len(),
        forall|k: int| 0 <= k < j ==> strictly_better(side, #[trigger] levels[k].price, price),
        j == levels.len() || !strictly_better(side, levels[j].price, price),
    ensures
        level_pos(levels, side, price) == j,
    decreases j,
{
    if j > 0 {
        let rest = levels.drop_first();
        assert forall|k: int| 0 <= k < j - 1 implies strictly_better(
            side,
            #[trigger] rest[k].price,
            price,
        ) by {
            assert(rest[k] == levels[k + 1]);
        }
        lemma_level_pos_at(rest, side, price, j - 1);
    }
}

/// The levels before `level_pos` are strictly better; the one at it is not.
pub(crate) proof fn lemma_level_pos_props(levels: Seq<LevelView>, side: Side, price: u64)
    ensures
        level_pos(levels, side, price) <= levels.len(),
        forall|k: int|
            0 <= k < level_pos(levels, side, price) ==> strictly_better(
                side,
                #[trigger] levels[k].price,
                price,
            ),
        level_pos(levels, side, price) < levels.len() ==> !strictly_better(
            side,
            levels[level_pos(levels, side, price) as int].price,
            price,
        ),
    decreases levels.len(),
{
    if levels.len() > 0 && strictly_better(side, levels[0].price, price) {
        let rest = levels.drop_first();
        lemma_level_pos_props(rest, side, price);
        assert forall|k: int| 0 <= k < level_pos(levels, side, price) implies strictly_better(
            side,
            #[trigger] levels[k].price,
            price,
        ) by {
            if k > 0 {
                assert(levels[k] == rest[k - 1]);
            }
        }
    }
}

pub(crate) proof fn lemma_qty_sum_concat(a: Seq<Order>, b: Seq<Order>)
    ensures
        qty_sum(a + b) == qty_sum(a) + qty_sum(b),
    decreases b.len(),
{
    if b.len() == 0 {
        assert(a + b =~= a);
    } else {
        lemma_qty_sum_concat(a, b.drop_last());
        assert((a + b).drop_last() =~= a + b.drop_last());
    }
}

proof fn lemma_qty_sum_prefix(s: Seq<Order>, i: int)
    requires
        0 <= i <= s.len(),
    ensures
        qty_sum(s.take(i)) <= qty_sum(s),
{
    lemma_qty_sum_concat(s.take(i), s.skip(i));
    assert(s.take(i) + s.skip(i) =~= s);
}

pub(crate) proof fn lemma_side_qty_concat(a: Seq<LevelView>, b: Seq<LevelView>)
    ensures
        side_qty(a + b) == side_qty(a) + side_qty(b),
    decreases b.len(),
{
    if b.len() == 0 {
        assert(a + b =~= a);
    } else {
        lemma_side_qty_concat(a, b.drop_last());
        assert((a + b).drop_last() =~= a + b.drop_last());
    }
}

proof fn lemma_side_qty_prefix(s: Seq<LevelView>, i: int)
    requires
        0 <= i <= s.len(),
    ensures
        side_qty(s.take(i)) <= side_qty(s),
{
    lemma_side_qty_concat(s.take(i), s.skip(i));
    assert(s.take(i) + s.skip(i) =~= s);
}

/// Resting `o` adds its quantity to the level at its price.
proof fn lemma_rest_level_qty(levels: Seq<LevelView>, o: Order)
    ensures
        level_qty_at(rest_levels(levels, o), o.side, o.price) == level_qty_at(
            levels,
            o.side,
            o.price,
        ) + o.qty,
{
    lemma_level_pos_props(levels, o.side, o.price);
    let j = level_pos(levels, o.side, o.price) as int;
    let r = rest_levels(levels, o);
    if j < levels.len() && levels[j].price == o.price {
        assert(r[j].orders.drop_last() =~= levels[j].orders);
        assert(qty_sum(r[j].orders) == qty_sum(levels[j].orders) + o.qty);
    } else {
        assert(r[j].orders.drop_last() =~= Seq::<Order>::empty());
        assert(qty_sum(r[j].orders) == qty_sum(Seq::<Order>::empty()) + o.qty);
    }
    assert forall|k: int| 0 <= k < j implies strictly_better(
        o.side,
        #[trigger] r[k].price,
        o.price,
    ) by {
        assert(r[k] == levels[k]);
    }
    lemma_level_pos_at(r, o.side, o.price, j);
}

/// Dropping the head order keeps a side well formed and never improves its
/// best price.
pub(crate) proof fn lemma_drop_head_keeps_side(levels: Seq<LevelView>, side: Side)
    requires
        side_wf(side, levels),
        levels.len() > 0,
    ensures
        side_wf(side, drop_head_order(levels)),
        drop_head_order(levels).len() > 0 ==> (drop_head_order(levels)[0].price
            == levels[0].price || strictly_better(
            side,
            levels[0].price,
            drop_head_order(levels)[0].price,
        )),
{
    let top = levels[0];
    let left = top.orders.drop_first();
    let next = drop_head_order(levels);
    assert(level_wf(side, top));
    lemma_qty_sum_front(top.orders);
    assert forall|i: int| 0 <= i < next.len() implies level_wf(side, #[trigger] next[i]) by {
        if left.len() > 0 && i == 0 {
            assert(forall|k: int|
                0 <= k < next[0].orders.len() ==> next[0].orders[k] == top.orders[k + 1]);
        } else if left.len() > 0 {
            assert(next[i] == levels[i]);
        } else {
            assert(next[i] == levels[i + 1]);
        }
    }
    assert forall|i: int, j: int|
        0 <= i < j < next.len() implies strictly_better(
        side,
        #[trigger] next[i].price,
        #[trigger] next[j].price,
    ) by {
        if left.len() > 0 {
            assert(next[i].price == levels[i].price && next[j].price == levels[j].price);
        } else {
            assert(next[i] == levels[i + 1] && next[j] == levels[j + 1]);
        }
    }
    if next.len() > 0 && left.len() == 0 {
        assert(next[0] == levels[1]);
        assert(strictly_better(side, levels[0].price, levels[1].price));
    }
}

/// Matching keeps the opposite side well formed, never improves its best
/// price, and leaves a remainder only when the taker no longer crosses.
pub(crate) proof fn lemma_match_keeps_side(levels: Seq<LevelView>, taker: Order)
    requires
        side_wf(opposite(taker.side), levels),
    ensures
        ({
            let m = match_spec(levels, taker);
            &&& side_wf(opposite(taker.side), m.levels)
            &&& m.remaining <= taker.qty
            &&& m.remaining > 0 ==> (m.levels.len() == 0 || !crosses_spec(
                taker.side,
                taker.price,
                m.levels[0].price,
            ))
            &&& m.levels.len() > 0 ==> levels.len() > 0 && (m.levels[0].price == levels[0].price
                || strictly_better(opposite(taker.side), levels[0].price, m.levels[0].price))
        }),
    decreases levels.len(), levels[0].orders.len(),
{
    let side = opposite(taker.side);
    if taker.qty == 0 || levels.len() == 0 || levels[0].orders.len() == 0 || !crosses_spec(
        taker.side,
        taker.price,
        levels[0].price,
    ) {
    } else {
        let top = levels[0];
        let maker = top.orders[0];
        let fill = if taker.qty < maker.qty {
            taker.qty
        } else {
            maker.qty
        };
        assert(level_wf(side, top));
        if fill < maker.qty {
            let maker_left = Order {
                id: maker.id,
                side: maker.side,
                price: maker.price,
                qty: (maker.qty - fill) as u64,
            };
            let nl = levels.update(
                0,
                LevelView { price: top.price, orders: top.orders.update(0, maker_left) },
            );
            lemma_qty_sum_front(top.orders);
            lemma_qty_sum_front(nl[0].orders);
            assert(nl[0].orders.drop_first() =~= top.orders.drop_first());
            assert forall|i: int| 0 <= i < nl.len() implies level_wf(side, #[trigger] nl[i]) by {
                if i == 0 {
                    assert forall|k: int| 0 <= k < nl[0].orders.len() implies rests_at(
                        side,
                        nl[0].price,
                        #[trigger] nl[0].orders[k],
                    ) by {
                        if k > 0 {
                            assert(nl[0].orders[k] == top.orders[k]);
                        }
                    }
                } else {
                    assert(nl[i] == levels[i]);
                }
            }
            assert forall|i: int, j: int|
                0 <= i < j < nl.len() implies strictly_better(
                side,
                #[trigger] nl[i].price,
                #[trigger] nl[j].price,
            ) by {
                assert(nl[i].price == levels[i].price && nl[j].price == levels[j].price);
            }
        } else {
            let taker_left = Order {
                id: taker.id,
                side: taker.side,
                price: taker.price,
                qty: (taker.qty - fill) as u64,
            };
            let next = drop_head_order(levels);
            lemma_drop_head_keeps_side(levels, side);
            lemma_match_keeps_side(next, taker_left);
        }
    }
}

/// Resting keeps a side well formed; its best price is then the old best or
/// the new order's price.
proof fn lemma_rest_keeps_side(levels: Seq<LevelView>, o: Order)
    requires
        side_wf(o.side, levels),
        o.qty > 0,
        level_qty_at(levels, o.side, o.price) + o.qty <= u64::MAX,
    ensures
        side_wf(o.side, rest_levels(levels, o)),
        rest_levels(levels, o).len() > 0,
        rest_levels(levels, o)[0].price == o.price || (levels.len() > 0 && rest_levels(
            levels,
            o,
        )[0].price == levels[0].price),
{
    let side = o.side;
    lemma_level_pos_props(levels, side, o.price);
    let j = level_pos(levels, side, o.price) as int;
    let r = rest_levels(levels, o);
    if j < levels.len() && levels[j].price == o.price {
        assert(level_wf(side, levels[j]));
        assert(r[j].orders.drop_last() =~= levels[j].orders);
        assert(qty_sum(r[j].orders) == qty_sum(levels[j].orders) + o.qty);
        assert forall|i: int| 0 <= i < r.len() implies level_wf(side, #[trigger] r[i]) by {
            if i == j {
                assert forall|k: int| 0 <= k < r[j].orders.len() implies rests_at(
                    side,
                    r[j].price,
                    #[trigger] r[j].orders[k],
                ) by {
                    if k < levels[j].orders.len() {
                        assert(r[j].orders[k] == levels[j].orders[k]);
                    }
                }
            } else {
                assert(r[i] == levels[i]);
            }
        }
        assert forall|a: int, c: int|
            0 <= a < c < r.len() implies strictly_better(
            side,
            #[trigger] r[a].price,
            #[trigger] r[c].price,
        ) by {
            assert(r[a].price == levels[a].price && r[c].price == levels[c].price);
        }
        if j > 0 {
            assert(r[0] == levels[0]);
        }
    } else {
        assert(r[j].orders.drop_last() =~= Seq::<Order>::empty());
        assert(qty_sum(Seq::<Order>::empty()) == 0);
        assert(qty_sum(r[j].orders) == qty_sum(r[j].orders.drop_last()) + o.qty);
        assert forall|i: int| 0 <= i < r.len() implies level_wf(side, #[trigger] r[i]) by {
            if i < j {
                assert(r[i] == levels[i]);
            } else if i > j {
                assert(r[i] == levels[i - 1]);
            }
        }
        assert forall|a: int, c: int|
            0 <= a < c < r.len() implies strictly_better(
            side,
            #[trigger] r[a].price,
            #[trigger] r[c].price,
        ) by {
            if c < j {
                assert(r[a] == levels[a] && r[c] == levels[c]);
            } else if c == j {
                assert(r[a] == levels[a]);
            } else if a == j {
                assert(r[c] == levels[c - 1]);
                if c - 1 > j {
                    assert(strictly_better(side, levels[j].price, levels[c - 1].price));
                }
            } else if a < j {
                assert(r[a] == levels[a] && r[c] == levels[c - 1]);
                if c - 1 > j {
                    assert(strictly_better(side, levels[j].price, levels[c - 1].price));
                }
                assert(strictly_better(side, levels[a].price, o.price));
            } else {
                assert(r[a] == levels[a - 1] && r[c] == levels[c - 1]);
            }
        }
        if j > 0 {
            assert(r[0] == levels[0]);
        }
    }
}

proof fn lemma_without_id_keeps(s: Seq<Order>, id: u64, side: Side, price: u64)
    requires
        forall|k: int| 0 <= k < s.len() ==> rests_at(side, price, #[trigger] s[k]),
    ensures
        forall|k: int|
            0 <= k < without_id(s, id).len() ==> rests_at(
                side,
                price,
                #[trigger] without_id(s, id)[k],
            ),
        without_id(s, id).len() <= s.len(),
        qty_sum(without_id(s, id)) <= qty_sum(s),
    decreases s.len(),
{
    if s.len() > 0 {
        let d = s.drop_last();
        assert forall|k: int| 0 <= k < d.len() implies rests_at(side, price, #[trigger] d[k]) by {
            assert(d[k] == s[k]);
        }
        lemma_without_id_keeps(d, id, side, price);
        assert(rests_at(side, price, s[s.len() - 1]));
        let w = without_id(s, id);
        if s.last().id != id {
            assert(w.drop_last() =~= without_id(d, id));
        }
    }
}

/// Cancelling keeps a side well formed and never improves its best price.
proof fn lemma_cancel_keeps_side(levels: Seq<LevelView>, side: Side, price: u64, id: u64)
    requires
        side_wf(side, levels),
    ensures
        side_wf(side, cancel_levels(levels, side, price, id)),
        cancel_levels(levels, side, price, id).len() > 0 ==> levels.len() > 0 && (cancel_levels(
            levels,
            side,
            price,
            id,
        )[0].price == levels[0].price || strictly_better(
            side,
            levels[0].price,
            cancel_levels(levels, side, price, id)[0].price,
        )),
{
    lemma_level_pos_props(levels, side, price);
    let j = level_pos(levels, side, price) as int;
    let r = cancel_levels(levels, side, price, id);
    if j < levels.len() && levels[j].price == price {
        assert(level_wf(side, levels[j]));
        let kept = without_id(levels[j].orders, id);
        lemma_without_id_keeps(levels[j].orders, id, side, price);
        if kept.len() == 0 {
            assert forall|i: int| 0 <= i < r.len() implies level_wf(side, #[trigger] r[i]) by {
                if i < j {
                    assert(r[i] == levels[i]);
                } else {
                    assert(r[i] == levels[i + 1]);
                }
            }
            assert forall|a: int, c: int|
                0 <= a < c < r.len() implies strictly_better(
                side,
                #[trigger] r[a].price,
                #[trigger] r[c].price,
            ) by {
                let a2 = if a < j {
                    a
                } else {
                    a + 1
                };
                let c2 = if c < j {
                    c
                } else {
                    c + 1
                };
                assert(r[a] == levels[a2] && r[c] == levels[c2]);
            }
            if r.len() > 0 {
                if j == 0 {
                    assert(r[0] == levels[1]);
                } else {
                    assert(r[0] == levels[0]);
                }
            }
        } else {
            assert forall|i: int| 0 <= i < r.len() implies level_wf(side, #[trigger] r[i]) by {
                if i != j {
                    assert(r[i] == levels[i]);
                }
            }
            assert forall|a: int, c: int|
                0 <= a < c < r.len() implies strictly_better(
                side,
                #[trigger] r[a].price,
                #[trigger] r[c].price,
            ) by {
                assert(r[a].price == levels[a].price && r[c].price == levels[c].price);
            }
            assert(r[0].price == levels[0].price);
        }
    }
}

pub(crate) proof fn lemma_qty_sum_front(s: Seq<Order>)
    requires
        s.len() > 0,
    ensures
        qty_sum(s) == s[0].qty + qty_sum(s.drop_first()),
{
    lemma_qty_sum_concat(seq![s[0]], s.drop_first());
    assert(seq![s[0]] + s.drop_first() =~= s);
    assert(seq![s[0]].drop_last() =~= Seq::<Order>::empty());
    assert(qty_sum(Seq::<Order>::empty()) == 0);
    assert(qty_sum(seq![s[0]]) == qty_sum(seq![s[0]].drop_last()) + seq![s[0]].last().qty);
}

/// Law: matching leaves exactly the part of the taker's quantity that the
/// crossing volume of the opposite side cannot fill.
pub proof fn lemma_match_remaining(levels: Seq<LevelView>, taker: Order)
    requires
        side_wf(opposite(taker.side), levels),
    ensures
        match_spec(levels, taker).remaining == taker.qty - (if taker.qty < crossing_qty(
            levels,
            taker,
        ) {
            taker.qty as nat
        } else {
            crossing_qty(levels, taker)
        }),
    decreases levels.len(), levels[0].orders.len(),
{
    let side = opposite(taker.side);
    if levels.len() > 0 {
        assert(level_wf(side, levels[0]));
    }
    if taker.qty == 0 || levels.len() == 0 || levels[0].orders.len() == 0 || !crosses_spec(
        taker.side,
        taker.price,
        levels[0].price,
    ) {
    } else {
        let top = levels[0];
        let maker = top.orders[0];
        lemma_qty_sum_front(top.orders);
        let fill = if taker.qty < maker.qty {
            taker.qty
        } else {
            maker.qty
        };
        if fill >= maker.qty {
            let taker_left = Order {
                id: taker.id,
                side: taker.side,
                price: taker.price,
                qty: (taker.qty - fill) as u64,
            };
            let next = drop_head_order(levels);
            lemma_drop_head_keeps_side(levels, side);
            lemma_match_remaining(next, taker_left);
            let left = top.orders.drop_first();
            if left.len() > 0 {
                assert(next.drop_first() =~= levels.drop_first());
                assert(next[0].orders == left);
                assert(next[0].price == top.price);
                lemma_crossing_same_limit(levels.drop_first(), taker, taker_left);
                assert(crossing_qty(next, taker_left) == qty_sum(left) + crossing_qty(
                    levels.drop_first(),
                    taker,
                ));
            } else {
                assert(qty_sum(left) == 0);
                lemma_crossing_same_limit(next, taker, taker_left);
            }
        }
    }
}

/// The crossing volume depends only on the taker's side and limit.
proof fn lemma_crossing_same_limit(levels: Seq<LevelView>, a: Order, b: Order)
    requires
        a.side == b.side,
        a.price == b.price,
    ensures
        crossing_qty(levels, a) == crossing_qty(levels, b),
    decreases levels.len(),
{
    if levels.len() > 0 {
        lemma_crossing_same_limit(levels.drop_first(), a, b);
    }
}

/// Law: submitting any order to a well-formed book leaves it well formed:
/// every level keeps only live orders of its side at its price, levels stay in
/// strict price priority, and the book is never crossed.
pub proof fn lemma_submit_keeps_book_wf(b: BookView, order: Order)
    requires
        book_wf(b),
        submit_fits(b, order),
    ensures
        book_wf(submit_spec(b, order).0),
{
    let opp = opposite(order.side);
    lemma_match_keeps_side(side_levels(b, opp), order);
    let m = match_spec(side_levels(b, opp), order);
    if m.remaining > 0 {
        lemma_rest_keeps_side(side_levels(b, order.side), rested_order(order, m.remaining));
    }
}

/// Law: cancelling any id in a well-formed book leaves it well formed (and
/// so never crossed).
pub proof fn lemma_cancel_keeps_book_wf(b: BookView, id: u64)
    requires
        book_wf(b),
    ensures
        book_wf(cancel_spec(b, id).0),
{
    if b.index.contains_key(id) {
        let o = b.index[id];
        lemma_cancel_keeps_side(side_levels(b, o.side), o.side, o.price, id);
    }
}

// ------------------------------------------------------------------ levels

/// A price level: its price and the FIFO queue of orders resting there.
struct Level {
    price: u64,
    orders: VecDeque<Order>,
}

spec fn level_view(l: Level) -> LevelView {
    LevelView { price: l.price, orders: l.orders@ }
}

spec fn levels_view(v: VecDeque<Level>) -> Seq<LevelView> {
    v@.map_values(|l: Level| level_view(l))
}

/// A taker on `side` with limit `limit` may trade at `best_opposite`.
fn crosses(side: Side, limit: u64, best_opposite: u64) -> (r: bool)
    ensures
        r == crosses_spec(side, limit, best_opposite),
{
    match side {
        Side::Bid => limit >= best_opposite,
        Side::Ask => limit <= best_opposite,
    }
}

/// Price `a` has strictly higher priority than `b` on `side`.
fn better(side: Side, a: u64, b: u64) -> (r: bool)
    ensures
        r == strictly_better(side, a, b),
{
    match side {
        Side::Bid => a > b,
        Side::Ask => a < b,
    }
}

/// Index of the level at `price`, or of where it would go, found by binary
/// search over the side's levels (which are in strict price order).
fn find_level(levels: &VecDeque<Level>, side: Side, price: u64) -> (j: usize)
    requires
        side_wf(side, levels_view(*levels)),
    ensures
        j == level_pos(levels_view(*levels), side, price),
        j <= levels@.len(),
{
    let ghost lv = levels_view(*levels);
    let mut lo: usize = 0;
    let mut hi: usize = levels.len();
    while lo < hi
        invariant
            lv == levels_view(*levels),
            side_wf(side, lv),
            lo <= hi <= levels@.len(),
            forall|k: int| 0 <= k < lo ==> strictly_better(side, #[trigger] lv[k].price, price),
            forall|k: int|
                hi <= k < lv.len() ==> !strictly_better(side, #[trigger] lv[k].price, price),
        decreases hi - lo,
    {
        let mid = lo + (hi - lo) / 2;
        if better(side, levels[mid].price, price) {
            proof {
                assert forall|k: int| 0 <= k < mid + 1 implies strictly_better(
                    side,
                    #[trigger] lv[k].price,
                    price,
                ) by {
                    if k < mid {
                        assert(strictly_better(side, lv[k].price, lv[mid as int].price));
                    }
                }
            }
            lo = mid + 1;
        } else {
            proof {
                assert forall|k: int| mid <= k < lv.len() implies !strictly_better(
                    side,
                    #[trigger] lv[k].price,
                    price,
                ) by {
                    if k > mid {
                        assert(strictly_better(side, lv[mid as int].price, lv[k].price));
                    }
                }
            }
            hi = mid;
        }
    }
    proof {
        lemma_level_pos_at(lv, side, price, lo as int);
    }
    lo
}

/// Sum of the quantities of a queue of orders.
fn orders_qty(orders: &VecDeque<Order>) -> (q: u64)
    requires
        qty_sum(orders@) <= u64::MAX,
    ensures
        q == qty_sum(orders@),
{
    let mut total: u64 = 0;
    let mut i: usize = 0;
    while i < orders.len()
        invariant
            i <= orders@.len(),
            total == qty_sum(orders@.take(i as int)),
            qty_sum(orders@) <= u64::MAX,
        decreases orders@.len() - i,
    {
        proof {
            assert(orders@.take(i + 1).drop_last() =~= orders@.take(i as int));
            lemma_qty_sum_prefix(orders@, i + 1);
        }
        total = total + orders[i].qty;
        i += 1;
    }
    proof {
        assert(orders@.take(i as int) =~= orders@);
    }
    total
}

/// Sum of the quantities resting on a side.
fn levels_qty(levels: &VecDeque<Level>) -> (q: u64)
    requires
        side_qty(levels_view(*levels)) <= u64::MAX,
    ensures
        q == side_qty(levels_view(*levels)),
{
    let ghost lv = levels_view(*levels);
    let mut total: u64 = 0;
    let mut i: usize = 0;
    while i < levels.len()
        invariant
            lv == levels_view(*levels),
            i <= levels@.len(),
            total == side_qty(lv.take(i as int)),
            side_qty(lv) <= u64::MAX,
        decreases levels@.len() - i,
    {
        proof {
            assert(lv.take(i + 1).drop_last() =~= lv.take(i as int));
            lemma_side_qty_prefix(lv, i + 1);
        }
        let q = orders_qty(&levels[i].orders);
        total = total + q;
        i += 1;
    }
    proof {
        assert(lv.take(i as int) =~= lv);
    }
    total
}

/// `x` capped at `cap`.
pub open spec fn capped(x: nat, cap: nat) -> nat {
    if x < cap {
        x
    } else {
        cap
    }
}

/// `a + b` capped at `cap`, for `a <= cap`.
fn add_capped(a: u64, b: u64, cap: u64) -> (r: u64)
    requires
        a <= cap,
    ensures
        r == capped((a + b) as nat, cap as nat),
{
    if b >= cap - a {
        cap
    } else {
        a + b
    }
}

/// Sum of the quantities of a queue of orders, capped at `cap`.
fn orders_qty_capped(orders: &VecDeque<Order>, cap: u64) -> (q: u64)
    ensures
        q == capped(qty_sum(orders@), cap as nat),
{
    let mut total: u64 = 0;
    let mut i: usize = 0;
    while i < orders.len()
        invariant
            i <= orders@.len(),
            total == capped(qty_sum(orders@.take(i as int)), cap as nat),
        decreases orders@.len() - i,
    {
        proof {
            assert(orders@.take(i + 1).drop_last() =~= orders@.take(i as int));
        }
        total = add_capped(total, orders[i].qty, cap);
        i += 1;
    }
    proof {
        assert(orders@.take(i as int) =~= orders@);
    }
    total
}

/// Whether some order of the queue has id `id`.
fn orders_have_id(orders: &VecDeque<Order>, id: u64) -> (r: bool)
    ensures
        r == has_id(orders@, id),
{
    let mut i: usize = 0;
    while i < orders.len()
        invariant
            i <= orders@.len(),
            forall|k: int| 0 <= k < i ==> (#[trigger] orders@[k]).id != id,
        decreases orders@.len() - i,
    {
        if orders[i].id == id {
            return true;
        }
        i += 1;
    }
    false
}

/// Releases the index entry of a maker filled in full when it still locates
/// the maker and no order with its id is left in the maker's level.
fn release_maker(index: &mut BTreeMap<u64, Order>, maker: Order, still_at_level: bool)
    ensures
        final(index)@ == release_filled(
            old(index)@,
            seq![Filled { maker, id_still_at_level: still_at_level }],
        ),
{
    let ghost before = index@;
    let mut release = false;
    if !still_at_level {
        match index.get(&maker.id) {
            Some(entry) => {
                release = entry.side == maker.side && entry.price == maker.price;
            },
            None => {},
        }
    }
    if release {
        index.remove(&maker.id);
    }
    proof {
        let f0 = Filled { maker, id_still_at_level: still_at_level };
        let fs = seq![f0];
        assert(fs.drop_first() =~= Seq::<Filled>::empty());
        assert(fs[0] == f0);
        let id = maker.id;
        let cond = !still_at_level && before.contains_key(id) && before[id].side == maker.side
            && before[id].price == maker.price;
        assert(release == cond);
        if !release {
            assert(index@ =~= before);
        }
        assert(release_filled(before, fs) == release_filled(
            if cond {
                before.remove(id)
            } else {
                before
            },
            Seq::<Filled>::empty(),
        ));
    }
}

/// Releasing a first fill, then the others.
proof fn lemma_release_step(m: Map<u64, Order>, f0: Filled, rest: Seq<Filled>)
    ensures
        release_filled(m, seq![f0] + rest) == release_filled(release_filled(m, seq![f0]), rest),
{
    let fs = seq![f0] + rest;
    assert(fs[0] == f0);
    assert(fs.drop_first() =~= rest);
    assert(seq![f0][0] == f0);
    assert(seq![f0].drop_first() =~= Seq::<Filled>::empty());
    let id = f0.maker.id;
    let m2 = if !f0.id_still_at_level && m.contains_key(id) && m[id].side == f0.maker.side
        && m[id].price == f0.maker.price {
        m.remove(id)
    } else {
        m
    };
    assert(release_filled(m, fs) == release_filled(m2, rest));
    assert(release_filled(m2, Seq::<Filled>::empty()) == m2);
    assert(release_filled(m, seq![f0]) == release_filled(m2, Seq::<Filled>::empty()));
}

/// The queue without the orders whose id is `id`.
fn orders_without_id(orders: &VecDeque<Order>, id: u64) -> (r: VecDeque<Order>)
    ensures
        r@ == without_id(orders@, id),
{
    let mut kept: VecDeque<Order> = VecDeque::new();
    let mut i: usize = 0;
    while i < orders.len()
        invariant
            i <= orders@.len(),
            kept@ == without_id(orders@.take(i as int), id),
        decreases orders@.len() - i,
    {
        proof {
            assert(orders@.take(i + 1).drop_last() =~= orders@.take(i as int));
        }
        let o = orders[i];
        if o.id != id {
            kept.push_back(o);
        }
        i += 1;
    }
    proof {
        assert(orders@.take(i as int) =~= orders@);
    }
    kept
}


/// Matches `taker` against the opposite side `levels`, appending the events
/// to `events` and releasing the makers filled in full from `index`; returns
/// the quantity the taker has left.
fn match_against(
    levels: &mut VecDeque<Level>,
    index: &mut BTreeMap<u64, Order>,
    taker: Order,
    events: &mut Vec<Event>,
) -> (remaining: u64)
    requires
        side_wf(opposite(taker.side), levels_view(*old(levels))),
    ensures
        final(events)@ == old(events)@ + match_spec(levels_view(*old(levels)), taker).events,
        levels_view(*final(levels)) == match_spec(levels_view(*old(levels)), taker).levels,
        remaining == match_spec(levels_view(*old(levels)), taker).remaining,
        final(index)@ == release_filled(
            old(index)@,
            match_spec(levels_view(*old(levels)), taker).filled,
        ),
{
    let ghost goal = match_spec(levels_view(*levels), taker);
    let ghost start = events@;
    let ghost start_index = index@;
    let maker_side = match taker.side {
        Side::Bid => Side::Ask,
        Side::Ask => Side::Bid,
    };
    let mut t = taker;
    loop
        invariant
            t.id == taker.id,
            t.side == taker.side,
            t.price == taker.price,
            maker_side == opposite(taker.side),
            start == old(events)@,
            start_index == old(index)@,
            goal == match_spec(levels_view(*old(levels)), taker),
            side_wf(maker_side, levels_view(*levels)),
            events@ + match_spec(levels_view(*levels), t).events == start + goal.events,
            match_spec(levels_view(*levels), t).levels == goal.levels,
            match_spec(levels_view(*levels), t).remaining == goal.remaining,
            release_filled(index@, match_spec(levels_view(*levels), t).filled) == release_filled(
                start_index,
                goal.filled,
            ),
        decreases levels@.len(), if levels@.len() > 0 {
            levels@[0].orders@.len()
        } else {
            0
        },
    {
        let ghost lv = levels_view(*levels);
        assert(lv.len() == levels@.len());
        if t.qty == 0 || levels.len() == 0 {
            assert(match_spec(lv, t).events =~= Seq::<Event>::empty());
            assert(events@ + Seq::<Event>::empty() =~= events@);
            return t.qty;
        }
        let best_price = levels[0].price;
        assert(best_price == lv[0].price);
        if !crosses(t.side, t.price, best_price) {
            assert(match_spec(lv, t).events =~= Seq::<Event>::empty());
            assert(events@ + Seq::<Event>::empty() =~= events@);
            return t.qty;
        }
        assert(level_wf(maker_side, lv[0]));
        proof {
            lemma_qty_sum_front(lv[0].orders);
        }
        let mut level = levels.pop_front().unwrap();
        assert(levels_view(*levels) =~= lv.drop_first());
        let maker = level.orders.pop_front().unwrap();
        let fill = if t.qty < maker.qty {
            t.qty
        } else {
            maker.qty
        };
        let trade = Event::Trade(
            Trade { maker_id: maker.id, taker_id: t.id, price: best_price, qty: fill },
        );
        let ghost before = events@;
        events.push(trade);
        if fill < maker.qty {
            let maker_left = Order {
                id: maker.id,
                side: maker.side,
                price: maker.price,
                qty: maker.qty - fill,
            };
            level.orders.push_front(maker_left);
            levels.push_front(level);
            proof {
                assert(level.orders@ =~= lv[0].orders.update(0, maker_left));
                assert(levels_view(*levels) =~= lv.update(
                    0,
                    LevelView { price: best_price, orders: lv[0].orders.update(0, maker_left) },
                ));
                assert(events@ =~= before + seq![trade]);
                assert(events@ =~= start + goal.events);
            }
            return 0;
        }
        let q = if level.orders.len() > 0 {
            orders_qty(&level.orders)
        } else {
            0
        };
        proof {
            assert(level.orders@ =~= lv[0].orders.drop_first());
            if level.orders@.len() == 0 {
                assert(qty_sum(level.orders@) == 0);
            }
        }
        let update = Event::BookUpdate { side: maker_side, price: best_price, new_level_qty: q };
        events.push(update);
        let ghost index_before = index@;
        let still = orders_have_id(&level.orders, maker.id);
        release_maker(index, maker, still);
        let ghost t_old = t;
        t.qty = t.qty - fill;
        if level.orders.len() > 0 {
            levels.push_front(level);
            proof {
                assert(levels_view(*levels) =~= lv.update(
                    0,
                    LevelView { price: best_price, orders: lv[0].orders.drop_first() },
                ));
            }
        }
        proof {
            let next = levels_view(*levels);
            let r = match_spec(next, t);
            assert(match_spec(lv, t_old).events =~= seq![trade, update] + r.events);
            assert(events@ =~= before + seq![trade, update]);
            assert(events@ + r.events =~= before + match_spec(lv, t_old).events);
            let fs = match_spec(lv, t_old).filled;
            let f0 = Filled { maker, id_still_at_level: still };
            assert(fs =~= seq![f0] + r.filled);
            assert(fs[0] == f0);
            assert(fs.drop_first() =~= r.filled);
            assert(seq![f0].drop_first() =~= Seq::<Filled>::empty());
            lemma_release_step(index_before, f0, r.filled);
            assert(release_filled(index_before, fs) == release_filled(index@, r.filled));
            lemma_drop_head_keeps_side(lv, maker_side);
        }
    }
}

/// Puts `o` at the back of the queue at its price, creating the level in
/// price order if it is missing.
fn rest_order(levels: &mut VecDeque<Level>, o: Order)
    requires
        side_wf(o.side, levels_view(*old(levels))),
    ensures
        levels_view(*final(levels)) == rest_levels(levels_view(*old(levels)), o),
{
    let ghost lv = levels_view(*levels);
    let j = find_level(levels, o.side, o.price);
    if j < levels.len() && levels[j].price == o.price {
        let mut level = levels.remove(j).unwrap();
        level.orders.push_back(o);
        levels.insert(j, level);
        assert(levels_view(*levels) =~= rest_levels(lv, o));
    } else {
        let mut orders: VecDeque<Order> = VecDeque::new();
        orders.push_back(o);
        levels.insert(j, Level { price: o.price, orders });
        assert(levels_view(*levels) =~= rest_levels(lv, o));
    }
}

/// Removes the orders with id `id` from the level at `price`, and the level
/// itself if that empties it.
fn cancel_in_side(levels: &mut VecDeque<Level>, side: Side, price: u64, id: u64)
    requires
        side_wf(side, levels_view(*old(levels))),
    ensures
        levels_view(*final(levels)) == cancel_levels(levels_view(*old(levels)), side, price, id),
{
    let ghost lv = levels_view(*levels);
    let j = find_level(levels, side, price);
    if j < levels.len() && levels[j].price == price {
        assert(level_wf(side, lv[j as int]));
        let mut level = levels.remove(j).unwrap();
        let before = level.orders.len();
        level.orders = orders_without_id(&level.orders, id);
        let remove_whole_level = level.orders.len() != before && level.orders.len() == 0;
        if !remove_whole_level {
            levels.insert(j, level);
        }
        assert(levels_view(*levels) =~= cancel_levels(lv, side, price, id));
    }
}


// ------------------------------------------------------------------ book

/// A limit order book for one instrument.
pub struct Book {
    /// Bid levels, highest price first.
    bids: VecDeque<Level>,
    /// Ask levels, lowest price first.
    asks: VecDeque<Level>,
    /// Order id -> live order (as it was when it rested).
    index: BTreeMap<u64, Order>,
}

impl View for Book {
    type V = BookView;

    closed spec fn view(&self) -> BookView {
        BookView {
            bids: levels_view(self.bids),
            asks: levels_view(self.asks),
            index: self.index@,
        }
    }
}

impl Book {
    /// The book's invariant: see `book_wf`.
    pub open spec fn wf(&self) -> bool {
        book_wf(self@)
    }

    /// An empty book.
    pub fn new() -> (b: Self)
        ensures
            b.wf(),
            b@.bids == Seq::<LevelView>::empty(),
            b@.asks == Seq::<LevelView>::empty(),
            b@.index == Map::<u64, Order>::empty(),
            index_coherent(b@),
    {
        let b = Book { bids: VecDeque::new(), asks: VecDeque::new(), index: BTreeMap::new() };
        assert(b@.bids =~= Seq::<LevelView>::empty());
        assert(b@.asks =~= Seq::<LevelView>::empty());
        proof {
            lemma_empty_book_coherent(b@);
        }
        b
    }

    /// The highest bid price, if any bid rests.
    pub fn best_bid(&self) -> (r: Option<u64>)
        ensures
            r == (if self@.bids.len() > 0 {
                Some(self@.bids[0].price)
            } else {
                None
            }),
    {
        if self.bids.len() > 0 {
            Some(self.bids[0].price)
        } else {
            None
        }
    }

    /// The lowest ask price, if any ask rests.
    pub fn best_ask(&self) -> (r: Option<u64>)
        ensures
            r == (if self@.asks.len() > 0 {
                Some(self@.asks[0].price)
            } else {
                None
            }),
    {
        if self.asks.len() > 0 {
            Some(self.asks[0].price)
        } else {
            None
        }
    }

    /// Submit an aggressive/limit order; matches against the opposite side
    /// within its limit, remainder rests. Returns the resulting events.
    pub fn submit(&mut self, order: Order) -> (events: Vec<Event>)
        requires
            old(self).wf(),
            order.qty > 0,
            submit_fits(old(self)@, order),
        ensures
            final(self).wf(),
            (final(self)@, events@) == submit_spec(old(self)@, order),
            index_coherent(old(self)@) && !old(self)@.index.contains_key(order.id)
                ==> index_coherent(final(self)@),
    {
        proof {
            lemma_submit_keeps_book_wf(self@, order);
            if index_coherent(self@) && !self@.index.contains_key(order.id) {
                lemma_submit_keeps_index_coherent(self@, order);
            }
        }
        let ghost b = self@;
        let mut events: Vec<Event> = Vec::new();
        let remaining = match order.side {
            Side::Bid => match_against(&mut self.asks, &mut self.index, order, &mut events),
            Side::Ask => match_against(&mut self.bids, &mut self.index, order, &mut events),
        };
        let ghost m = match_spec(side_levels(b, opposite(order.side)), order);
        assert(events@ =~= m.events);
        if remaining > 0 {
            let rested = Order { id: order.id, side: order.side, price: order.price, qty: remaining };
            match order.side {
                Side::Bid => rest_order(&mut self.bids, rested),
                Side::Ask => rest_order(&mut self.asks, rested),
            }
            self.index.insert(order.id, rested);
            proof {
                lemma_rest_level_qty(side_levels(b, order.side), rested);
            }
            let q = self.level_qty(order.side, order.price);
            events.push(Event::BookUpdate { side: order.side, price: order.price, new_level_qty: q });
        }
        events
    }

    /// Cancels the order with id `id`.
    pub fn cancel(&mut self, id: u64) -> (r: CancelResult)
        requires
            old(self).wf(),
        ensures
            final(self).wf(),
            (final(self)@, r) == cancel_spec(old(self)@, id),
            index_coherent(old(self)@) ==> index_coherent(final(self)@),
    {
        proof {
            lemma_cancel_keeps_book_wf(self@, id);
            if index_coherent(self@) {
                lemma_cancel_keeps_index_coherent(self@, id);
            }
        }
        let ghost b = self@;
        let removed = self.index.remove(&id);
        match removed {
            None => {
                assert(self.index@ =~= b.index);
                CancelResult::NotFound
            },
            Some(order) => {
                match order.side {
                    Side::Bid => cancel_in_side(&mut self.bids, order.side, order.price, id),
                    Side::Ask => cancel_in_side(&mut self.asks, order.side, order.price, id),
                }
                CancelResult::Canceled { remaining_qty: 0 }
            },
        }
    }

    /// Number of ids in the index.
    pub fn open_orders(&self) -> (n: usize)
        ensures
            n == self@.index.len(),
    {
        self.index.len()
    }

    /// Total quantity resting on both sides.
    pub fn total_quantity(&self) -> (q: u64)
        requires
            total_qty(self@) <= u64::MAX,
        ensures
            q == total_qty(self@),
    {
        let b = levels_qty(&self.bids);
        let a = levels_qty(&self.asks);
        b + a
    }

    /// Whether `submit(order)` can sum the quantity of the level where the
    /// order's remainder would rest: exactly the condition `submit_fits`.
    pub fn can_submit(&self, order: Order) -> (r: bool)
        requires
            self.wf(),
        ensures
            r == submit_fits(self@, order),
    {
        let opp_side = match order.side {
            Side::Bid => Side::Ask,
            Side::Ask => Side::Bid,
        };
        let opp = self.book_of(opp_side);
        let ghost lv = levels_view(*opp);
        let ghost total = crossing_qty(lv, order);
        let mut cross: u64 = 0;
        let mut i: usize = 0;
        proof {
            assert(lv.skip(0) =~= lv);
        }
        while i < opp.len() && crosses(order.side, order.price, opp[i].price)
            invariant
                lv == levels_view(*opp),
                total == crossing_qty(lv, order),
                i <= lv.len(),
                crossing_qty(lv.skip(i as int), order) <= total,
                cross == capped(
                    (total - crossing_qty(lv.skip(i as int), order)) as nat,
                    order.qty as nat,
                ),
            decreases lv.len() - i,
        {
            proof {
                assert(lv.skip(i as int).drop_first() =~= lv.skip(i + 1));
                assert(lv.skip(i as int)[0] == lv[i as int]);
            }
            let lq = orders_qty_capped(&opp[i].orders, order.qty);
            cross = add_capped(cross, lq, order.qty);
            i += 1;
        }
        proof {
            if i == lv.len() {
                assert(lv.skip(i as int) =~= Seq::<LevelView>::empty());
            } else {
                assert(lv.skip(i as int)[0] == lv[i as int]);
            }
            lemma_match_remaining(lv, order);
        }
        let rem = order.qty - cross;
        if rem == 0 {
            return true;
        }
        let own = self.book_of(order.side);
        let j = find_level(own, order.side, order.price);
        if j < own.len() && own[j].price == order.price {
            let cap = u64::MAX - rem + 1;
            let lq = orders_qty_capped(&own[j].orders, cap);
            lq < cap
        } else {
            true
        }
    }

    // -- internals --

    fn book_of(&self, side: Side) -> (levels: &VecDeque<Level>)
        ensures
            levels_view(*levels) == side_levels(self@, side),
    {
        match side {
            Side::Bid => &self.bids,
            Side::Ask => &self.asks,
        }
    }

    /// Quantity resting at `price` on `side`.
    fn level_qty(&self, side: Side, price: u64) -> (q: u64)
        requires
            side_wf(side, side_levels(self@, side)),
            level_qty_at(side_levels(self@, side), side, price) <= u64::MAX,
        ensures
            q == level_qty_at(side_levels(self@, side), side, price),
    {
        let levels = self.book_of(side);
        let j = find_level(levels, side, price);
        if j < levels.len() && levels[j].price == price {
            orders_qty(&levels[j].orders)
        } else {
            0
        }
    }
}

impl Default for Book {
    fn default() -> (b: Self)
        ensures
            b.wf(),
            b@.bids == Seq::<LevelView>::empty(),
            b@.asks == Seq::<LevelView>::empty(),
            b@.index == Map::<u64, Order>::empty(),
            index_coherent(b@),
    {
        Book::new()
    }
}

} // verus!
