//! Properties of the order book that span its operations: quantity is
//! conserved by matching; trades happen at resting makers' prices within the
//! taker's limit, consuming the opposite side's priority queue from its head;
//! cancels remove exactly the target and account for one index entry.

use crate::orderbook::{
    book_wf, cancel_levels, cancel_spec, crosses_spec, drop_head_order, lemma_drop_head_keeps_side,
    lemma_level_pos_at, lemma_level_pos_props, lemma_qty_sum_front, lemma_side_qty_concat, level_pos, level_wf,
    match_spec, opposite, qty_sum, rest_levels, rested_order, side_levels, side_qty, side_wf,
    release_filled, strictly_better, submit_spec, without_id, BookView, CancelResult, Event, Filled, LevelView, Order,
    Side,
};
use vstd::prelude::*;

verus! {

/// Quantity traded by the `Trade` events of a sequence.
pub open spec fn traded_qty(events: Seq<Event>) -> nat
    decreases events.len(),
{
    if events.len() == 0 {
        0
    } else {
        (match events[0] {
            Event::Trade(t) => t.qty as nat,
            Event::BookUpdate { .. } => 0nat,
        }) + traded_qty(events.drop_first())
    }
}

/// Some order with id `maker_id` rests at `price` in `levels`.
pub open spec fn maker_rested(levels: Seq<LevelView>, maker_id: u64, price: u64) -> bool {
    exists|i: int, q: int|
        #![trigger levels[i].orders[q]]
        0 <= i < levels.len() && 0 <= q < levels[i].orders.len() && levels[i].orders[q].id
            == maker_id && levels[i].orders[q].price == price
}

/// A trade event of `taker` against `levels`: it names the taker, has a
/// positive quantity, is priced within the taker's limit, and is priced at
/// the price of a maker that rested there.
pub open spec fn trade_respects(levels: Seq<LevelView>, taker: Order, e: Event) -> bool {
    match e {
        Event::Trade(t) => {
            &&& t.taker_id == taker.id
            &&& t.qty > 0
            &&& crosses_spec(taker.side, taker.price, t.price)
            &&& maker_rested(levels, t.maker_id, t.price)
        },
        Event::BookUpdate { .. } => true,
    }
}

/// A side's orders in priority order: best level first, FIFO within a level.
pub open spec fn priority_queue(levels: Seq<LevelView>) -> Seq<Order>
    decreases levels.len(),
{
    if levels.len() == 0 {
        Seq::empty()
    } else {
        levels[0].orders + priority_queue(levels.drop_first())
    }
}

/// The ids of a sequence of orders.
pub open spec fn order_ids(s: Seq<Order>) -> Seq<u64> {
    s.map_values(|o: Order| o.id)
}

/// The makers of a sequence of full fills.
pub open spec fn filled_makers(fills: Seq<Filled>) -> Seq<Order> {
    fills.map_values(|f: Filled| f.maker)
}

/// The maker ids of the trades among `events`, in order.
pub open spec fn maker_ids(events: Seq<Event>) -> Seq<u64>
    decreases events.len(),
{
    if events.len() == 0 {
        Seq::empty()
    } else {
        match events[0] {
            Event::Trade(t) => seq![t.maker_id] + maker_ids(events.drop_first()),
            Event::BookUpdate { .. } => maker_ids(events.drop_first()),
        }
    }
}

/// `s` without the orders whose id is `id` and whose price is `price`.
pub open spec fn without_order(s: Seq<Order>, id: u64, price: u64) -> Seq<Order>
    decreases s.len(),
{
    if s.len() == 0 {
        s
    } else {
        let r = without_order(s.drop_last(), id, price);
        if s.last().id == id && s.last().price == price {
            r
        } else {
            r.push(s.last())
        }
    }
}

// ------------------------------------------------------------------ helpers

proof fn lemma_qty_sum_single(o: Order)
    ensures
        qty_sum(seq![o]) == o.qty,
{
    assert(seq![o].drop_last() =~= Seq::<Order>::empty());
    assert(qty_sum(Seq::<Order>::empty()) == 0);
    assert(qty_sum(seq![o]) == qty_sum(seq![o].drop_last()) + seq![o].last().qty);
}

proof fn lemma_side_qty_single(l: LevelView)
    ensures
        side_qty(seq![l]) == qty_sum(l.orders),
{
    assert(seq![l].drop_last() =~= Seq::<LevelView>::empty());
    assert(side_qty(Seq::<LevelView>::empty()) == 0);
    assert(side_qty(seq![l]) == side_qty(seq![l].drop_last()) + qty_sum(seq![l].last().orders));
}

proof fn lemma_side_qty_front(l: Seq<LevelView>)
    requires
        l.len() > 0,
    ensures
        side_qty(l) == qty_sum(l[0].orders) + side_qty(l.drop_first()),
{
    lemma_side_qty_concat(seq![l[0]], l.drop_first());
    assert(seq![l[0]] + l.drop_first() =~= l);
    lemma_side_qty_single(l[0]);
}

proof fn lemma_traded_two(a: Event, b: Event, rest: Seq<Event>)
    requires
        b is BookUpdate,
    ensures
        traded_qty(seq![a, b] + rest) == traded_qty(seq![a]) + traded_qty(rest),
{
    let s = seq![a, b] + rest;
    let s1 = seq![b] + rest;
    assert(s.drop_first() =~= s1);
    assert(s1.drop_first() =~= rest);
    assert(s[0] == a);
    assert(s1[0] == b);
    assert(traded_qty(s1) == traded_qty(rest));
    assert(seq![a].drop_first() =~= Seq::<Event>::empty());
    assert(traded_qty(Seq::<Event>::empty()) == 0);
    assert(traded_qty(seq![a]) == (match a {
        Event::Trade(t) => t.qty as nat,
        Event::BookUpdate { .. } => 0nat,
    }) + traded_qty(seq![a].drop_first()));
}

pub(crate) proof fn lemma_traded_push_update(s: Seq<Event>, e: Event)
    requires
        e is BookUpdate,
    ensures
        traded_qty(s.push(e)) == traded_qty(s),
    decreases s.len(),
{
    if s.len() == 0 {
        assert(s.push(e).drop_first() =~= Seq::<Event>::empty());
        assert(s.push(e)[0] == e);
        assert(traded_qty(Seq::<Event>::empty()) == 0);
    } else {
        assert(s.push(e).drop_first() =~= s.drop_first().push(e));
        assert(s.push(e)[0] == s[0]);
        lemma_traded_push_update(s.drop_first(), e);
    }
}

/// Dropping the head order removes exactly its quantity from the side.
proof fn lemma_drop_head_qty(levels: Seq<LevelView>)
    requires
        levels.len() > 0,
        levels[0].orders.len() > 0,
    ensures
        side_qty(drop_head_order(levels)) + levels[0].orders[0].qty == side_qty(levels),
{
    let top = levels[0];
    let left = top.orders.drop_first();
    lemma_side_qty_front(levels);
    lemma_qty_sum_front(top.orders);
    if left.len() > 0 {
        let next = drop_head_order(levels);
        lemma_side_qty_front(next);
        assert(next.drop_first() =~= levels.drop_first());
    } else {
        assert(qty_sum(left) == 0);
    }
}

/// Every order of the side without its head order rested in the side.
proof fn lemma_drop_head_rested(levels: Seq<LevelView>, id: u64, price: u64)
    requires
        levels.len() > 0,
        levels[0].orders.len() > 0,
        maker_rested(drop_head_order(levels), id, price),
    ensures
        maker_rested(levels, id, price),
{
    let next = drop_head_order(levels);
    let left = levels[0].orders.drop_first();
    let (i, q) = choose|i: int, q: int|
        #![trigger next[i].orders[q]]
        0 <= i < next.len() && 0 <= q < next[i].orders.len() && next[i].orders[q].id == id
            && next[i].orders[q].price == price;
    if left.len() > 0 {
        if i == 0 {
            assert(next[0].orders == left);
            assert(next[0].orders[q] == levels[0].orders[q + 1]);
        } else {
            assert(next[i] == levels[i]);
        }
    } else {
        assert(next[i] == levels[i + 1]);
    }
}

/// Resting `o` adds exactly its quantity to the side.
proof fn lemma_rest_side_qty(levels: Seq<LevelView>, o: Order)
    ensures
        side_qty(rest_levels(levels, o)) == side_qty(levels) + o.qty,
{
    lemma_level_pos_props(levels, o.side, o.price);
    let j = level_pos(levels, o.side, o.price) as int;
    let r = rest_levels(levels, o);
    if j < levels.len() && levels[j].price == o.price {
        let x = levels[j];
        let y = LevelView { price: o.price, orders: x.orders.push(o) };
        assert(levels =~= levels.take(j) + seq![x] + levels.skip(j + 1));
        assert(r =~= levels.take(j) + seq![y] + levels.skip(j + 1));
        lemma_side_qty_concat(levels.take(j) + seq![x], levels.skip(j + 1));
        lemma_side_qty_concat(levels.take(j), seq![x]);
        lemma_side_qty_concat(levels.take(j) + seq![y], levels.skip(j + 1));
        lemma_side_qty_concat(levels.take(j), seq![y]);
        lemma_side_qty_single(x);
        lemma_side_qty_single(y);
        assert(y.orders.drop_last() =~= x.orders);
    } else {
        let y = LevelView { price: o.price, orders: seq![o] };
        assert(levels =~= levels.take(j) + levels.skip(j));
        assert(r =~= levels.take(j) + seq![y] + levels.skip(j));
        lemma_side_qty_concat(levels.take(j), levels.skip(j));
        lemma_side_qty_concat(levels.take(j) + seq![y], levels.skip(j));
        lemma_side_qty_concat(levels.take(j), seq![y]);
        lemma_side_qty_single(y);
        lemma_qty_sum_single(o);
    }
}

/// Matching conserves quantity: what trades leaves both the taker and the
/// opposite side.
pub(crate) proof fn lemma_match_conserves(levels: Seq<LevelView>, taker: Order)
    ensures
        traded_qty(match_spec(levels, taker).events) + match_spec(levels, taker).remaining
            == taker.qty,
        side_qty(match_spec(levels, taker).levels) + traded_qty(match_spec(levels, taker).events)
            == side_qty(levels),
    decreases levels.len(), levels[0].orders.len(),
{
    if taker.qty == 0 || levels.len() == 0 || levels[0].orders.len() == 0 || !crosses_spec(
        taker.side,
        taker.price,
        levels[0].price,
    ) {
        assert(traded_qty(Seq::<Event>::empty()) == 0);
    } else {
        let top = levels[0];
        let maker = top.orders[0];
        let fill = if taker.qty < maker.qty {
            taker.qty
        } else {
            maker.qty
        };
        let m = match_spec(levels, taker);
        assert(traded_qty(Seq::<Event>::empty()) == 0);
        lemma_side_qty_front(levels);
        lemma_qty_sum_front(top.orders);
        if fill < maker.qty {
            let nl = m.levels;
            lemma_side_qty_front(nl);
            assert(nl.drop_first() =~= levels.drop_first());
            lemma_qty_sum_front(nl[0].orders);
            assert(nl[0].orders.drop_first() =~= top.orders.drop_first());
            assert(m.events.drop_first() =~= Seq::<Event>::empty());
            assert(traded_qty(m.events) == fill);
            assert(nl[0].orders[0].qty == maker.qty - fill);
            assert(m.remaining == 0);
        } else {
            let taker_left = Order {
                id: taker.id,
                side: taker.side,
                price: taker.price,
                qty: (taker.qty - fill) as u64,
            };
            let next = drop_head_order(levels);
            lemma_drop_head_qty(levels);
            lemma_match_conserves(next, taker_left);
            let r = match_spec(next, taker_left);
            let trade = m.events[0];
            lemma_traded_two(trade, m.events[1], r.events);
            assert(m.events =~= seq![trade, m.events[1]] + r.events);
            assert(seq![trade].drop_first() =~= Seq::<Event>::empty());
            assert(traded_qty(seq![trade]) == fill);
            assert(traded_qty(m.events) == fill + traded_qty(r.events));
            assert(m.remaining == r.remaining);
            assert(m.levels == r.levels);
        }
    }
}

/// Every trade of a match respects the taker's limit and the makers' prices.
proof fn lemma_match_trades(levels: Seq<LevelView>, taker: Order)
    requires
        side_wf(opposite(taker.side), levels),
    ensures
        forall|k: int|
            0 <= k < match_spec(levels, taker).events.len() ==> trade_respects(
                levels,
                taker,
                #[trigger] match_spec(levels, taker).events[k],
            ),
    decreases levels.len(), levels[0].orders.len(),
{
    let side = opposite(taker.side);
    if taker.qty == 0 || levels.len() == 0 || levels[0].orders.len() == 0 || !crosses_spec(
        taker.side,
        taker.price,
        levels[0].price,
    ) {
    } else {
        let top = levels[0];
        let maker = top.orders[0];
        let m = match_spec(levels, taker);
        assert(level_wf(side, top));
        assert(top.orders[0] == levels[0].orders[0]);
        assert(maker_rested(levels, maker.id, top.price));
        let fill = if taker.qty < maker.qty {
            taker.qty
        } else {
            maker.qty
        };
        if fill >= maker.qty {
            let taker_left = Order {
                id: taker.id,
                side: taker.side,
                price: taker.price,
                qty: (taker.qty - fill) as u64,
            };
            let next = drop_head_order(levels);
            lemma_drop_head_keeps_side(levels, side);
            lemma_match_trades(next, taker_left);
            let r = match_spec(next, taker_left);
            assert forall|k: int| 0 <= k < m.events.len() implies trade_respects(
                levels,
                taker,
                #[trigger] m.events[k],
            ) by {
                if k >= 2 {
                    assert(m.events[k] == r.events[k - 2]);
                    assert(trade_respects(next, taker_left, r.events[k - 2]));
                    match r.events[k - 2] {
                        Event::Trade(t) => {
                            lemma_drop_head_rested(levels, t.maker_id, t.price);
                        },
                        Event::BookUpdate { .. } => {},
                    }
                }
            }
        }
    }
}

proof fn lemma_queue_front(levels: Seq<LevelView>)
    requires
        levels.len() > 0,
        levels[0].orders.len() > 0,
    ensures
        priority_queue(levels).len() > 0,
        priority_queue(levels)[0] == levels[0].orders[0],
{
}

proof fn lemma_queue_update_head(levels: Seq<LevelView>, o: Order)
    requires
        levels.len() > 0,
        levels[0].orders.len() > 0,
    ensures
        priority_queue(
            levels.update(0, LevelView { price: levels[0].price, orders: levels[0].orders.update(0, o) }),
        ) == priority_queue(levels).update(0, o),
{
    let nl = levels.update(
        0,
        LevelView { price: levels[0].price, orders: levels[0].orders.update(0, o) },
    );
    assert(nl.drop_first() =~= levels.drop_first());
    assert(priority_queue(nl) =~= priority_queue(levels).update(0, o));
}

proof fn lemma_queue_drop_head(levels: Seq<LevelView>)
    requires
        levels.len() > 0,
        levels[0].orders.len() > 0,
    ensures
        priority_queue(drop_head_order(levels)) == priority_queue(levels).drop_first(),
{
    let left = levels[0].orders.drop_first();
    let next = drop_head_order(levels);
    if left.len() == 0 {
        assert(priority_queue(levels) =~= levels[0].orders + priority_queue(levels.drop_first()));
        assert(priority_queue(levels).drop_first() =~= priority_queue(levels.drop_first()));
    } else {
        assert(next.drop_first() =~= levels.drop_first());
        assert(priority_queue(next) =~= priority_queue(levels).drop_first());
    }
}

proof fn lemma_events_two(a: Event, b: Event, rest: Seq<Event>)
    requires
        a is Trade,
        b is BookUpdate,
    ensures
        maker_ids(seq![a, b] + rest) == seq![a->Trade_0.maker_id] + maker_ids(rest),
{
    let s = seq![a, b] + rest;
    let s1 = seq![b] + rest;
    assert(s.drop_first() =~= s1);
    assert(s1.drop_first() =~= rest);
    assert(s[0] == a);
    assert(s1[0] == b);
    assert(maker_ids(s1) == maker_ids(rest));
    assert(maker_ids(s) == seq![a->Trade_0.maker_id] + maker_ids(s1));
}

proof fn lemma_events_push_update(s: Seq<Event>, e: Event)
    requires
        e is BookUpdate,
    ensures
        maker_ids(s.push(e)) == maker_ids(s),
    decreases s.len(),
{
    let t = s.push(e);
    if s.len() == 0 {
        assert(t.drop_first() =~= Seq::<Event>::empty());
        assert(t[0] == e);
        assert(maker_ids(Seq::<Event>::empty()) =~= Seq::<u64>::empty());
        assert(maker_ids(t) == maker_ids(t.drop_first()));
        assert(maker_ids(s) =~= Seq::<u64>::empty());
    } else {
        assert(t.drop_first() =~= s.drop_first().push(e));
        assert(t[0] == s[0]);
        lemma_events_push_update(s.drop_first(), e);
        match s[0] {
            Event::Trade(x) => {
                assert(maker_ids(t) == seq![x.maker_id] + maker_ids(t.drop_first()));
                assert(maker_ids(s) == seq![x.maker_id] + maker_ids(s.drop_first()));
            },
            Event::BookUpdate { .. } => {
                assert(maker_ids(t) == maker_ids(t.drop_first()));
                assert(maker_ids(s) == maker_ids(s.drop_first()));
            },
        }
    }
}

/// Matching consumes the opposite side's priority queue from its head: the
/// makers traded with are the head of the queue in order; the makers filled
/// in full are a prefix of them and leave the queue; a maker filled in part
/// keeps its place at the head with less quantity.
pub(crate) proof fn lemma_match_priority(levels: Seq<LevelView>, taker: Order)
    requires
        side_wf(opposite(taker.side), levels),
    ensures
        ({
            let q = priority_queue(levels);
            let m = match_spec(levels, taker);
            let makers = maker_ids(m.events);
            let f = m.filled.len();
            let after = priority_queue(m.levels);
            &&& makers.len() <= q.len()
            &&& makers == order_ids(q.take(makers.len() as int))
            &&& filled_makers(m.filled) == q.take(f as int)
            &&& forall|k: int|
                0 <= k < f && (#[trigger] m.filled[k]).id_still_at_level ==> exists|j: int|
                    k < j < q.len() && #[trigger] q[j].id == q[k].id
            &&& (makers.len() == f || makers.len() == f + 1)
            &&& makers.len() == f ==> after == q.skip(f as int)
            &&& makers.len() == f + 1 ==> {
                &&& after.len() == q.len() - f
                &&& after.drop_first() == q.skip(f + 1int)
                &&& after[0].id == q[f as int].id
                &&& after[0].price == q[f as int].price
                &&& after[0].qty < q[f as int].qty
            }
        }),
    decreases levels.len(), levels[0].orders.len(),
{
    let side = opposite(taker.side);
    let q = priority_queue(levels);
    let m = match_spec(levels, taker);
    if taker.qty == 0 || levels.len() == 0 || levels[0].orders.len() == 0 || !crosses_spec(
        taker.side,
        taker.price,
        levels[0].price,
    ) {
        assert(maker_ids(m.events) =~= Seq::<u64>::empty());
        assert(q.take(0) =~= Seq::<Order>::empty());
        assert(order_ids(q.take(0)) =~= Seq::<u64>::empty());
        assert(q.skip(0) =~= q);
    } else {
        let top = levels[0];
        let maker = top.orders[0];
        let fill = if taker.qty < maker.qty {
            taker.qty
        } else {
            maker.qty
        };
        assert(level_wf(side, top));
        lemma_queue_front(levels);
        let trade = m.events[0];
        if fill < maker.qty {
            let maker_left = Order {
                id: maker.id,
                side: maker.side,
                price: maker.price,
                qty: (maker.qty - fill) as u64,
            };
            lemma_queue_update_head(levels, maker_left);
            assert(m.events.drop_first() =~= Seq::<Event>::empty());
            assert(maker_ids(Seq::<Event>::empty()) =~= Seq::<u64>::empty());
            assert(maker_ids(m.events) =~= seq![maker.id]);
            assert(order_ids(q.take(1)) =~= seq![maker.id]);
            assert(q.take(0) =~= Seq::<Order>::empty());
            assert(filled_makers(m.filled) =~= Seq::<Order>::empty());
            assert(priority_queue(m.levels).drop_first() =~= q.skip(1));
        } else {
            let taker_left = Order {
                id: taker.id,
                side: taker.side,
                price: taker.price,
                qty: (taker.qty - fill) as u64,
            };
            let next = drop_head_order(levels);
            lemma_drop_head_keeps_side(levels, side);
            lemma_queue_drop_head(levels);
            lemma_match_priority(next, taker_left);
            let r = match_spec(next, taker_left);
            let q2 = priority_queue(next);
            lemma_events_two(trade, m.events[1], r.events);
            assert(m.events =~= seq![trade, m.events[1]] + r.events);
            let n = maker_ids(r.events).len() as int;
            let f2 = r.filled.len() as int;
            assert(q2 =~= q.drop_first());
            assert(q.take(n + 1) =~= seq![q[0]] + q2.take(n));
            assert(order_ids(q.take(n + 1)) =~= seq![maker.id] + order_ids(q2.take(n)));
            assert(q.take(f2 + 1) =~= seq![q[0]] + q2.take(f2));
            let f0 = m.filled[0];
            assert(m.filled =~= seq![f0] + r.filled);
            assert(filled_makers(m.filled) =~= seq![maker] + filled_makers(r.filled));
            assert forall|k: int|
                0 <= k < f2 + 1 && (#[trigger] m.filled[k]).id_still_at_level implies exists|
                j: int,
            | k < j < q.len() && #[trigger] q[j].id == q[k].id by {
                if k == 0 {
                    let left = top.orders.drop_first();
                    let i = choose|i: int| 0 <= i < left.len() && #[trigger] left[i].id == maker.id;
                    assert(q[i + 1] == left[i]);
                } else {
                    assert(m.filled[k] == r.filled[k - 1]);
                    let j2 = choose|j2: int|
                        k - 1 < j2 < q2.len() && #[trigger] q2[j2].id == q2[k - 1].id;
                    assert(q[j2 + 1] == q2[j2]);
                    assert(q[k] == q2[k - 1]);
                }
            }
            assert(q2.skip(f2) =~= q.skip(f2 + 1));
            if n == f2 + 1 {
                assert(q2.skip(f2 + 1) =~= q.skip(f2 + 2));
                assert(q2[f2] == q[f2 + 1]);
            }
        }
    }
}

proof fn lemma_without_order_concat(a: Seq<Order>, b: Seq<Order>, id: u64, price: u64)
    ensures
        without_order(a + b, id, price) == without_order(a, id, price) + without_order(
            b,
            id,
            price,
        ),
    decreases b.len(),
{
    if b.len() == 0 {
        assert(a + b =~= a);
        assert(without_order(a, id, price) + without_order(b, id, price) =~= without_order(
            a,
            id,
            price,
        ));
    } else {
        lemma_without_order_concat(a, b.drop_last(), id, price);
        assert((a + b).drop_last() =~= a + b.drop_last());
        assert((a + b).last() == b.last());
        let wa = without_order(a, id, price);
        let wb = without_order(b.drop_last(), id, price);
        assert((wa + wb).push(b.last()) =~= wa + wb.push(b.last()));
    }
}

proof fn lemma_without_order_none(s: Seq<Order>, id: u64, price: u64)
    requires
        forall|k: int| 0 <= k < s.len() ==> (#[trigger] s[k]).price != price,
    ensures
        without_order(s, id, price) == s,
    decreases s.len(),
{
    if s.len() > 0 {
        let d = s.drop_last();
        assert forall|k: int| 0 <= k < d.len() implies (#[trigger] d[k]).price != price by {
            assert(d[k] == s[k]);
        }
        lemma_without_order_none(d, id, price);
        assert(d.push(s.last()) =~= s);
    }
}

proof fn lemma_without_order_level(s: Seq<Order>, id: u64, price: u64)
    requires
        forall|k: int| 0 <= k < s.len() ==> (#[trigger] s[k]).price == price,
    ensures
        without_order(s, id, price) == without_id(s, id),
    decreases s.len(),
{
    if s.len() > 0 {
        let d = s.drop_last();
        assert forall|k: int| 0 <= k < d.len() implies (#[trigger] d[k]).price == price by {
            assert(d[k] == s[k]);
        }
        lemma_without_order_level(d, id, price);
    }
}

/// When no level of a well-formed side is at `price`, no queued order is.
proof fn lemma_queue_avoids_price(levels: Seq<LevelView>, side: Side, price: u64)
    requires
        side_wf(side, levels),
        forall|i: int| 0 <= i < levels.len() ==> (#[trigger] levels[i]).price != price,
    ensures
        forall|k: int|
            0 <= k < priority_queue(levels).len() ==> (#[trigger] priority_queue(levels)[k]).price
                != price,
    decreases levels.len(),
{
    if levels.len() > 0 {
        let rest = levels.drop_first();
        assert(level_wf(side, levels[0]));
        assert forall|i: int, j: int|
            0 <= i < j < rest.len() implies strictly_better(
            side,
            #[trigger] rest[i].price,
            #[trigger] rest[j].price,
        ) by {
            assert(rest[i] == levels[i + 1] && rest[j] == levels[j + 1]);
        }
        assert forall|i: int| 0 <= i < rest.len() implies level_wf(side, #[trigger] rest[i])
            && rest[i].price != price by {
            assert(rest[i] == levels[i + 1]);
        }
        lemma_queue_avoids_price(rest, side, price);
        let q = priority_queue(levels);
        let a = levels[0].orders;
        assert forall|k: int| 0 <= k < q.len() implies (#[trigger] q[k]).price != price by {
            if k < a.len() {
                assert(q[k] == a[k]);
            } else {
                assert(q[k] == priority_queue(rest)[k - a.len()]);
            }
        }
    }
}

/// Cancelling at `price` removes from the priority queue exactly the orders
/// with the id at that price.
pub(crate) proof fn lemma_cancel_queue(levels: Seq<LevelView>, side: Side, price: u64, id: u64)
    requires
        side_wf(side, levels),
    ensures
        priority_queue(cancel_levels(levels, side, price, id)) == without_order(
            priority_queue(levels),
            id,
            price,
        ),
    decreases levels.len(),
{
    let q = priority_queue(levels);
    if levels.len() == 0 {
        assert(without_order(q, id, price) =~= q);
    } else {
        let rest = levels.drop_first();
        let top = levels[0];
        assert(level_wf(side, top));
        assert forall|i: int, j: int|
            0 <= i < j < rest.len() implies strictly_better(
            side,
            #[trigger] rest[i].price,
            #[trigger] rest[j].price,
        ) by {
            assert(rest[i] == levels[i + 1] && rest[j] == levels[j + 1]);
        }
        assert forall|i: int| 0 <= i < rest.len() implies level_wf(side, #[trigger] rest[i]) by {
            assert(rest[i] == levels[i + 1]);
        }
        lemma_without_order_concat(top.orders, priority_queue(rest), id, price);
        if strictly_better(side, top.price, price) {
            lemma_cancel_queue(rest, side, price, id);
            lemma_level_pos_props(levels, side, price);
            lemma_level_pos_props(rest, side, price);
            let j = level_pos(levels, side, price) as int;
            assert(j == level_pos(rest, side, price) + 1);
            let c = cancel_levels(levels, side, price, id);
            let cr = cancel_levels(rest, side, price, id);
            assert(c =~= seq![top] + cr);
            assert(c.drop_first() =~= cr);
            assert forall|k: int| 0 <= k < top.orders.len() implies (
            #[trigger] top.orders[k]).price != price by {}
            lemma_without_order_none(top.orders, id, price);
        } else {
            assert(level_pos(levels, side, price) == 0);
            assert forall|i: int| 0 <= i < rest.len() implies (#[trigger] rest[i]).price
                != price by {
                assert(rest[i] == levels[i + 1]);
                assert(strictly_better(side, levels[0].price, levels[i + 1].price));
            }
            lemma_queue_avoids_price(rest, side, price);
            lemma_without_order_none(priority_queue(rest), id, price);
            if top.price == price {
                lemma_without_order_level(top.orders, id, price);
                let kept = without_id(top.orders, id);
                let c = cancel_levels(levels, side, price, id);
                if kept.len() == 0 {
                    assert(c =~= rest);
                    assert(kept + priority_queue(rest) =~= priority_queue(rest));
                } else {
                    assert(c.drop_first() =~= rest);
                }
            } else {
                assert(forall|i: int| 0 <= i < levels.len() ==> (#[trigger] levels[i]).price
                    != price) by {
                    assert forall|i: int| 0 <= i < levels.len() implies (
                    #[trigger] levels[i]).price != price by {
                        if i > 0 {
                            assert(levels[i] == rest[i - 1]);
                        }
                    }
                }
                lemma_queue_avoids_price(levels, side, price);
                lemma_without_order_none(q, id, price);
            }
        }
    }
}

proof fn lemma_without_id_absent(s: Seq<Order>, id: u64)
    requires
        forall|k: int| 0 <= k < s.len() ==> (#[trigger] s[k]).id != id,
    ensures
        without_id(s, id) == s,
    decreases s.len(),
{
    if s.len() > 0 {
        let d = s.drop_last();
        assert forall|k: int| 0 <= k < d.len() implies (#[trigger] d[k]).id != id by {
            assert(d[k] == s[k]);
        }
        lemma_without_id_absent(d, id);
        assert(d.push(s.last()) =~= s);
    }
}

/// Resting `o` and then cancelling its id at its price gives the side back,
/// when no order of the side has that id.
proof fn lemma_rest_then_cancel(levels: Seq<LevelView>, o: Order)
    requires
        side_wf(o.side, levels),
        forall|i: int, k: int|
            0 <= i < levels.len() && 0 <= k < levels[i].orders.len() ==> (
            #[trigger] levels[i].orders[k]).id != o.id,
    ensures
        cancel_levels(rest_levels(levels, o), o.side, o.price, o.id) == levels,
{
    lemma_level_pos_props(levels, o.side, o.price);
    let j = level_pos(levels, o.side, o.price) as int;
    let r = rest_levels(levels, o);
    assert forall|k: int| 0 <= k < j implies strictly_better(
        o.side,
        #[trigger] r[k].price,
        o.price,
    ) by {
        assert(r[k] == levels[k]);
    }
    lemma_level_pos_at(r, o.side, o.price, j);
    if j < levels.len() && levels[j].price == o.price {
        let x = levels[j].orders;
        assert(forall|k: int| 0 <= k < x.len() ==> (#[trigger] x[k]).id != o.id);
        lemma_without_id_absent(x, o.id);
        assert(r[j].orders.drop_last() =~= x);
        assert(without_id(r[j].orders, o.id) == without_id(x, o.id));
        assert(level_wf(o.side, levels[j]));
        assert(x.len() > 0);
        assert(r.update(j, LevelView { price: o.price, orders: x }) =~= levels);
    } else {
        assert(r[j].orders.drop_last() =~= Seq::<Order>::empty());
        assert(without_id(r[j].orders, o.id) == without_id(Seq::<Order>::empty(), o.id));
        assert(without_id(Seq::<Order>::empty(), o.id).len() == 0);
        assert(r.remove(j) =~= levels);
    }
}

// ------------------------------------------------------------------ laws

/// Law (cancel undoes a resting submission): submitting an order that does
/// not cross the opposite side, under an id that neither rests on its side
/// nor is in the index, and then cancelling that id, leaves the book exactly
/// as it was, and the cancel succeeds.
pub proof fn lemma_submit_then_cancel(b: BookView, order: Order)
    requires
        book_wf(b),
        order.qty > 0,
        !b.index.contains_key(order.id),
        forall|i: int, k: int|
            0 <= i < side_levels(b, order.side).len() && 0 <= k < side_levels(
                b,
                order.side,
            )[i].orders.len() ==> (#[trigger] side_levels(b, order.side)[i].orders[k]).id
                != order.id,
        side_levels(b, opposite(order.side)).len() == 0 || !crosses_spec(
            order.side,
            order.price,
            side_levels(b, opposite(order.side))[0].price,
        ),
    ensures
        cancel_spec(submit_spec(b, order).0, order.id) == (
        b,
        CancelResult::Canceled { remaining_qty: 0 },
        ),
{
    let opp = opposite(order.side);
    let m = match_spec(side_levels(b, opp), order);
    assert(m.filled =~= Seq::<Filled>::empty());
    assert(release_filled(b.index, m.filled) == b.index);
    assert(rested_order(order, m.remaining) == order);
    lemma_rest_then_cancel(side_levels(b, order.side), order);
    let after = submit_spec(b, order).0;
    assert(after.index.remove(order.id) =~= b.index);
    let c = cancel_spec(after, order.id).0;
    assert(c.bids =~= b.bids);
    assert(c.asks =~= b.asks);
}

/// Law (determinism): what a submission or a cancel returns, and the book it
/// leaves, depend only on the book's view and the input; two books that
/// agree, given the same input, agree again afterwards and return equal
/// results.
pub proof fn lemma_deterministic(b1: BookView, b2: BookView, order: Order, id: u64)
    requires
        b1 == b2,
    ensures
        submit_spec(b1, order) == submit_spec(b2, order),
        cancel_spec(b1, id) == cancel_spec(b2, id),
{
}

/// Law (conservation of quantity): a submission trades at most the order's
/// quantity; the opposite side loses exactly what traded, and the order's
/// own side gains exactly what did not.
pub proof fn lemma_submit_conserves_qty(b: BookView, order: Order)
    ensures
        ({
            let (after, events) = submit_spec(b, order);
            let traded = traded_qty(events);
            &&& traded <= order.qty
            &&& side_qty(side_levels(after, opposite(order.side))) + traded == side_qty(
                side_levels(b, opposite(order.side)),
            )
            &&& side_qty(side_levels(after, order.side)) + traded == side_qty(
                side_levels(b, order.side),
            ) + order.qty
        }),
{
    let opp = opposite(order.side);
    let m = match_spec(side_levels(b, opp), order);
    lemma_match_conserves(side_levels(b, opp), order);
    if m.remaining > 0 {
        let rested = rested_order(order, m.remaining);
        lemma_rest_side_qty(side_levels(b, order.side), rested);
        lemma_traded_push_update(m.events, submit_spec(b, order).1.last());
        assert(submit_spec(b, order).1 =~= m.events.push(submit_spec(b, order).1.last()));
    }
}

/// Law (price-time priority): every trade a submission causes names the
/// submitted order as taker, has a positive quantity, is priced within the
/// order's limit, and is priced at the price where its maker rested in the
/// book before the submission.
pub proof fn lemma_submit_trades_at_maker_price(b: BookView, order: Order)
    requires
        book_wf(b),
    ensures
        forall|k: int|
            0 <= k < submit_spec(b, order).1.len() ==> trade_respects(
                side_levels(b, opposite(order.side)),
                order,
                #[trigger] submit_spec(b, order).1[k],
            ),
{
    let opp = opposite(order.side);
    let m = match_spec(side_levels(b, opp), order);
    lemma_match_trades(side_levels(b, opp), order);
    let ev = submit_spec(b, order).1;
    assert forall|k: int| 0 <= k < ev.len() implies trade_respects(
        side_levels(b, opp),
        order,
        #[trigger] ev[k],
    ) by {
        if k < m.events.len() {
            assert(ev[k] == m.events[k]);
        }
    }
}

/// Law (limit prices): a submission never trades through the submitted
/// order's limit: every trade of a bid is priced at or below the bid's price,
/// and every trade of an ask at or above the ask's price.
pub proof fn lemma_submit_trades_within_limit(b: BookView, order: Order)
    requires
        book_wf(b),
    ensures
        forall|k: int|
            0 <= k < submit_spec(b, order).1.len() ==> match #[trigger] submit_spec(b, order).1[k] {
                Event::Trade(t) => {
                    &&& order.side == Side::Bid ==> t.price <= order.price
                    &&& order.side == Side::Ask ==> t.price >= order.price
                },
                Event::BookUpdate { .. } => true,
            },
{
    lemma_submit_trades_at_maker_price(b, order);
    let ev = submit_spec(b, order).1;
    assert forall|k: int| 0 <= k < ev.len() implies match #[trigger] ev[k] {
        Event::Trade(t) => {
            &&& order.side == Side::Bid ==> t.price <= order.price
            &&& order.side == Side::Ask ==> t.price >= order.price
        },
        Event::BookUpdate { .. } => true,
    } by {
        assert(trade_respects(side_levels(b, opposite(order.side)), order, ev[k]));
    }
}

/// Law (price-time priority): a submission trades with the makers at the
/// head of the opposite side's priority queue (best price first, FIFO within
/// a price), in queue order. Afterwards the opposite queue is what followed
/// them, except that a maker filled in part keeps its place at the head with
/// less quantity.
pub proof fn lemma_submit_price_time_priority(b: BookView, order: Order)
    requires
        book_wf(b),
    ensures
        ({
            let opp = opposite(order.side);
            let q = priority_queue(side_levels(b, opp));
            let (after, events) = submit_spec(b, order);
            let makers = maker_ids(events);
            let n = makers.len() as int;
            let rest = priority_queue(side_levels(after, opp));
            &&& n <= q.len()
            &&& makers == order_ids(q.take(n))
            &&& rest == q.skip(n) || {
                &&& n > 0
                &&& rest.len() == q.len() - n + 1
                &&& rest.drop_first() == q.skip(n)
                &&& rest[0].id == q[n - 1].id
                &&& rest[0].price == q[n - 1].price
                &&& rest[0].qty < q[n - 1].qty
            }
        }),
{
    let opp = opposite(order.side);
    let m = match_spec(side_levels(b, opp), order);
    lemma_match_priority(side_levels(b, opp), order);
    if m.remaining > 0 {
        let ev = submit_spec(b, order).1;
        lemma_events_push_update(m.events, ev.last());
        assert(ev =~= m.events.push(ev.last()));
    }
}

/// Law: in a well-formed book every bid price is below every ask price.
pub proof fn lemma_book_not_crossed(b: BookView)
    requires
        book_wf(b),
    ensures
        forall|i: int, j: int|
            0 <= i < b.bids.len() && 0 <= j < b.asks.len() ==> #[trigger] b.bids[i].price
                < #[trigger] b.asks[j].price,
{
    assert forall|i: int, j: int|
        0 <= i < b.bids.len() && 0 <= j < b.asks.len() implies #[trigger] b.bids[i].price
        < #[trigger] b.asks[j].price by {
        if i > 0 {
            assert(b.bids[0].price > b.bids[i].price);
        }
        if j > 0 {
            assert(b.asks[0].price < b.asks[j].price);
        }
    }
}

/// Law (cancels remove exactly the target): after a successful cancel the
/// cancelled order's side holds, in priority order, exactly the orders it
/// held before except those with the cancelled id at its recorded price; the
/// other side is unchanged. A cancel that finds nothing changes nothing.
pub proof fn lemma_cancel_removes_only_target(b: BookView, id: u64)
    requires
        book_wf(b),
    ensures
        b.index.contains_key(id) ==> ({
            let o = b.index[id];
            let after = cancel_spec(b, id).0;
            &&& priority_queue(side_levels(after, o.side)) == without_order(
                priority_queue(side_levels(b, o.side)),
                id,
                o.price,
            )
            &&& side_levels(after, opposite(o.side)) == side_levels(b, opposite(o.side))
        }),
        !b.index.contains_key(id) ==> cancel_spec(b, id).0 == b,
{
    if b.index.contains_key(id) {
        let o = b.index[id];
        lemma_cancel_queue(side_levels(b, o.side), o.side, o.price, id);
    }
}

/// Law: a cancel succeeds exactly for the ids in the index, and a second
/// cancel of the same id finds nothing.
pub proof fn lemma_cancel_twice(b: BookView, id: u64)
    ensures
        (cancel_spec(b, id).1 is Canceled) == b.index.contains_key(id),
        cancel_spec(cancel_spec(b, id).0, id).1 == CancelResult::NotFound,
{
}

/// Law (open-order accounting): a successful cancel removes exactly one id
/// from the index; a cancel that finds nothing changes nothing.
pub proof fn lemma_cancel_accounting(b: BookView, id: u64)
    requires
        b.index.dom().finite(),
    ensures
        cancel_spec(b, id).1 is Canceled ==> cancel_spec(b, id).0.index.len() + 1
            == b.index.len(),
        cancel_spec(b, id).1 is NotFound ==> cancel_spec(b, id).0 == b,
{
}

/// Law (open-order accounting): a submission releases from the index the
/// makers it fills in full (see `release_filled`), and adds its own id
/// exactly when a remainder rests.
pub proof fn lemma_submit_accounting(b: BookView, order: Order)
    ensures
        ({
            let after = submit_spec(b, order).0;
            let m = match_spec(side_levels(b, opposite(order.side)), order);
            &&& m.remaining > 0 ==> after.index == release_filled(b.index, m.filled).insert(
                order.id,
                rested_order(order, m.remaining),
            )
            &&& m.remaining == 0 ==> after.index == release_filled(b.index, m.filled)
        }),
{
}

} // verus!
