//! The order index and the resting orders: when the ids of resting orders
//! are distinct, the index holds exactly the resting orders, each under its
//! id with its side and price. Submitting under a fresh id and cancelling
//! keep this so; then `open_orders` counts the resting orders and a cancel
//! succeeds exactly for a resting order.

use crate::book_laws::{
    filled_makers, lemma_match_conserves, lemma_traded_push_update, traded_qty, lemma_cancel_queue, lemma_match_priority, order_ids, priority_queue,
    without_order,
};
use crate::orderbook::{
    book_wf, cancel_spec, level_pos, level_wf, lemma_level_pos_props, lemma_match_keeps_side,
    lemma_qty_sum_concat, lemma_side_qty_concat, qty_sum, side_qty, total_qty,
    match_spec, opposite, release_filled, remove_keys, rest_levels, rested_order, side_levels, side_wf,
    submit_spec, BookView, CancelResult, Filled, LevelView, Order, Side,
};
use vstd::prelude::*;

verus! {

/// The orders resting in the book: the bids, then the asks, each side in
/// priority order.
pub open spec fn resting_orders(b: BookView) -> Seq<Order> {
    priority_queue(b.bids) + priority_queue(b.asks)
}

/// `m` indexes exactly the orders of `r`: their ids are distinct, each is
/// indexed under its id with its side and price, nothing else is indexed,
/// and the index is finite.
#[verifier::opaque]
pub open spec fn indexes(m: Map<u64, Order>, r: Seq<Order>) -> bool {
    &&& forall|a: int, c: int|
        #![trigger r[a], r[c]]
        0 <= a < r.len() && 0 <= c < r.len() && a != c ==> r[a].id != r[c].id
    &&& forall|a: int|
        0 <= a < r.len() ==> m.contains_key(#[trigger] r[a].id) && m[r[a].id].side == r[a].side
            && m[r[a].id].price == r[a].price
    &&& forall|id: u64|
        #[trigger] m.contains_key(id) ==> exists|a: int| 0 <= a < r.len() && #[trigger] r[a].id == id
    &&& m.dom().finite()
}

/// The book's index holds exactly its resting orders (see `indexes`).
pub open spec fn index_coherent(b: BookView) -> bool {
    indexes(b.index, resting_orders(b))
}

// ------------------------------------------------------------------ sequences

proof fn lemma_indexes_remove(m: Map<u64, Order>, r: Seq<Order>, a: int)
    requires
        indexes(m, r),
        0 <= a < r.len(),
    ensures
        indexes(m.remove(r[a].id), r.remove(a)),
{
    reveal(indexes);
    let id = r[a].id;
    let m2 = m.remove(id);
    let r2 = r.remove(a);
    assert forall|x: int, y: int|
        0 <= x < r2.len() && 0 <= y < r2.len() && x != y implies #[trigger] r2[x].id
        != #[trigger] r2[y].id by {
        let x2 = if x < a {
            x
        } else {
            x + 1
        };
        let y2 = if y < a {
            y
        } else {
            y + 1
        };
        assert(r2[x] == r[x2] && r2[y] == r[y2]);
    }
    assert forall|x: int| 0 <= x < r2.len() implies m2.contains_key(#[trigger] r2[x].id)
        && m2[r2[x].id].side == r2[x].side && m2[r2[x].id].price == r2[x].price by {
        let x2 = if x < a {
            x
        } else {
            x + 1
        };
        assert(r2[x] == r[x2]);
        assert(r[x2].id != r[a].id);
    }
    assert forall|k: u64| #[trigger] m2.contains_key(k) implies exists|x: int|
        0 <= x < r2.len() && #[trigger] r2[x].id == k by {
        assert(m.contains_key(k));
        let c = choose|c: int| 0 <= c < r.len() && #[trigger] r[c].id == k;
        assert(c != a);
        let x = if c < a {
            c
        } else {
            c - 1
        };
        assert(r2[x] == r[c]);
    }
}

proof fn lemma_indexes_insert(m: Map<u64, Order>, r: Seq<Order>, pos: int, o: Order)
    requires
        indexes(m, r),
        !m.contains_key(o.id),
        0 <= pos <= r.len(),
    ensures
        indexes(m.insert(o.id, o), r.insert(pos, o)),
{
    reveal(indexes);
    let m2 = m.insert(o.id, o);
    let r2 = r.insert(pos, o);
    assert forall|x: int|
        0 <= x < r2.len() && x != pos implies #[trigger] r2[x] == r[if x < pos {
            x
        } else {
            x - 1
        }] by {}
    assert forall|x: int| 0 <= x < r.len() implies (#[trigger] r[x]).id != o.id by {
        assert(m.contains_key(r[x].id));
    }
    assert forall|x: int, y: int|
        0 <= x < r2.len() && 0 <= y < r2.len() && x != y implies #[trigger] r2[x].id
        != #[trigger] r2[y].id by {
        let x2 = if x < pos {
            x
        } else {
            x - 1
        };
        let y2 = if y < pos {
            y
        } else {
            y - 1
        };
        if x != pos && y != pos {
            assert(r2[x] == r[x2] && r2[y] == r[y2]);
        } else if x == pos {
            assert(r2[y] == r[y2]);
        } else {
            assert(r2[x] == r[x2]);
        }
    }
    assert forall|x: int| 0 <= x < r2.len() implies m2.contains_key(#[trigger] r2[x].id)
        && m2[r2[x].id].side == r2[x].side && m2[r2[x].id].price == r2[x].price by {
        if x != pos {
            let x2 = if x < pos {
                x
            } else {
                x - 1
            };
            assert(r2[x] == r[x2]);
        }
    }
    assert forall|k: u64| #[trigger] m2.contains_key(k) implies exists|x: int|
        0 <= x < r2.len() && #[trigger] r2[x].id == k by {
        if k == o.id {
            assert(r2[pos].id == k);
        } else {
            assert(m.contains_key(k));
            let c = choose|c: int| 0 <= c < r.len() && #[trigger] r[c].id == k;
            let x = if c < pos {
                c
            } else {
                c + 1
            };
            assert(r2[x] == r[c]);
        }
    }
}

proof fn lemma_indexes_update(m: Map<u64, Order>, r: Seq<Order>, a: int, o: Order)
    requires
        indexes(m, r),
        0 <= a < r.len(),
        o.id == r[a].id,
        o.side == r[a].side,
        o.price == r[a].price,
    ensures
        indexes(m, r.update(a, o)),
{
    reveal(indexes);
    let r2 = r.update(a, o);
    assert forall|x: int, y: int|
        0 <= x < r2.len() && 0 <= y < r2.len() && x != y implies #[trigger] r2[x].id
        != #[trigger] r2[y].id by {
        assert(r2[x].id == r[x].id && r2[y].id == r[y].id);
    }
    assert forall|x: int| 0 <= x < r2.len() implies m.contains_key(#[trigger] r2[x].id)
        && m[r2[x].id].side == r2[x].side && m[r2[x].id].price == r2[x].price by {
        assert(r2[x].id == r[x].id);
    }
    assert forall|k: u64| #[trigger] m.contains_key(k) implies exists|x: int|
        0 <= x < r2.len() && #[trigger] r2[x].id == k by {
        let c = choose|c: int| 0 <= c < r.len() && #[trigger] r[c].id == k;
        assert(r2[c].id == r[c].id);
    }
}

/// Removing the first `f` orders of a block `q` of `r`, and their ids from
/// the index, keeps the index exact.
proof fn lemma_indexes_drop_block(m: Map<u64, Order>, r: Seq<Order>, off: int, q: Seq<Order>, f: int)
    requires
        indexes(m, r),
        0 <= off,
        off + q.len() <= r.len(),
        r.subrange(off, off + q.len()) == q,
        0 <= f <= q.len(),
    ensures
        indexes(
            remove_keys(m, order_ids(q.take(f))),
            r.take(off) + q.skip(f) + r.skip(off + q.len()),
        ),
    decreases f,
{
    if f == 0 {
        assert(order_ids(q.take(0)) =~= Seq::<u64>::empty());
        assert(r.take(off) + q.skip(0) + r.skip(off + q.len()) =~= r);
    } else {
        assert(r[off] == q[0]);
        lemma_indexes_remove(m, r, off);
        let r2 = r.remove(off);
        let q2 = q.drop_first();
        let m2 = m.remove(q[0].id);
        assert(r2.subrange(off, off + q2.len()) =~= q2);
        lemma_indexes_drop_block(m2, r2, off, q2, f - 1);
        let ids = order_ids(q.take(f));
        assert(ids[0] == q[0].id);
        assert(ids.drop_first() =~= order_ids(q2.take(f - 1)));
        assert(r2.take(off) + q2.skip(f - 1) + r2.skip(off + q2.len()) =~= r.take(off) + q.skip(f)
            + r.skip(off + q.len()));
    }
}


// ------------------------------------------------------------------ queues

proof fn lemma_queue_concat(a: Seq<LevelView>, b: Seq<LevelView>)
    ensures
        priority_queue(a + b) == priority_queue(a) + priority_queue(b),
    decreases a.len(),
{
    if a.len() == 0 {
        assert(a + b =~= b);
        assert(priority_queue(a) =~= Seq::<Order>::empty());
        assert(priority_queue(a) + priority_queue(b) =~= priority_queue(b));
    } else {
        lemma_queue_concat(a.drop_first(), b);
        assert((a + b).drop_first() =~= a.drop_first() + b);
        assert((a + b)[0] == a[0]);
        assert(priority_queue(a + b) =~= priority_queue(a) + priority_queue(b));
    }
}

proof fn lemma_queue_single(l: LevelView)
    ensures
        priority_queue(seq![l]) == l.orders,
{
    assert(seq![l].drop_first() =~= Seq::<LevelView>::empty());
    assert(priority_queue(Seq::<LevelView>::empty()) =~= Seq::<Order>::empty());
    assert(l.orders + Seq::<Order>::empty() =~= l.orders);
}

/// Every order queued on a well-formed side is of that side.
proof fn lemma_queue_sides(levels: Seq<LevelView>, side: Side)
    requires
        side_wf(side, levels),
    ensures
        forall|k: int|
            0 <= k < priority_queue(levels).len() ==> (#[trigger] priority_queue(levels)[k]).side
                == side,
    decreases levels.len(),
{
    if levels.len() > 0 {
        let rest = levels.drop_first();
        assert(level_wf(side, levels[0]));
        assert forall|i: int, j: int|
            0 <= i < j < rest.len() implies crate::orderbook::strictly_better(
            side,
            #[trigger] rest[i].price,
            #[trigger] rest[j].price,
        ) by {
            assert(rest[i] == levels[i + 1] && rest[j] == levels[j + 1]);
        }
        assert forall|i: int| 0 <= i < rest.len() implies level_wf(side, #[trigger] rest[i]) by {
            assert(rest[i] == levels[i + 1]);
        }
        lemma_queue_sides(rest, side);
        let q = priority_queue(levels);
        let a = levels[0].orders;
        assert forall|k: int| 0 <= k < q.len() implies (#[trigger] q[k]).side == side by {
            if k < a.len() {
                assert(q[k] == a[k]);
            } else {
                assert(q[k] == priority_queue(rest)[k - a.len()]);
            }
        }
    }
}

/// Resting `o` inserts it into the side's priority queue.
proof fn lemma_queue_rest(levels: Seq<LevelView>, o: Order) -> (pos: int)
    ensures
        0 <= pos <= priority_queue(levels).len(),
        ({
            let j = level_pos(levels, o.side, o.price) as int;
            pos == priority_queue(levels.take(j)).len() + if j < levels.len() && levels[j].price
                == o.price {
                levels[j].orders.len() as int
            } else {
                0int
            }
        }),
        priority_queue(rest_levels(levels, o)) == priority_queue(levels).insert(pos, o),
{
    lemma_level_pos_props(levels, o.side, o.price);
    let j = level_pos(levels, o.side, o.price) as int;
    let r = rest_levels(levels, o);
    let front = levels.take(j);
    if j < levels.len() && levels[j].price == o.price {
        let x = levels[j];
        let y = LevelView { price: o.price, orders: x.orders.push(o) };
        let back = levels.skip(j + 1);
        assert(levels =~= front + (seq![x] + back));
        assert(r =~= front + (seq![y] + back));
        lemma_queue_concat(front, seq![x] + back);
        lemma_queue_concat(seq![x], back);
        lemma_queue_concat(front, seq![y] + back);
        lemma_queue_concat(seq![y], back);
        lemma_queue_single(x);
        lemma_queue_single(y);
        let pos = (priority_queue(front).len() + x.orders.len()) as int;
        assert(priority_queue(r) =~= priority_queue(levels).insert(pos, o));
        pos
    } else {
        let y = LevelView { price: o.price, orders: seq![o] };
        let back = levels.skip(j);
        assert(levels =~= front + back);
        assert(r =~= front + (seq![y] + back));
        lemma_queue_concat(front, back);
        lemma_queue_concat(front, seq![y] + back);
        lemma_queue_concat(seq![y], back);
        lemma_queue_single(y);
        let pos = priority_queue(front).len() as int;
        assert(priority_queue(r) =~= priority_queue(levels).insert(pos, o));
        pos
    }
}

/// A price property every level of a well-formed side has, every queued
/// order has.
proof fn lemma_queue_prices(levels: Seq<LevelView>, side: Side, good: spec_fn(u64) -> bool)
    requires
        side_wf(side, levels),
        forall|i: int| 0 <= i < levels.len() ==> good(#[trigger] levels[i].price),
    ensures
        forall|k: int|
            0 <= k < priority_queue(levels).len() ==> good(
                #[trigger] priority_queue(levels)[k].price,
            ),
    decreases levels.len(),
{
    if levels.len() > 0 {
        let rest = levels.drop_first();
        assert(level_wf(side, levels[0]));
        assert forall|i: int, j: int|
            0 <= i < j < rest.len() implies crate::orderbook::strictly_better(
            side,
            #[trigger] rest[i].price,
            #[trigger] rest[j].price,
        ) by {
            assert(rest[i] == levels[i + 1] && rest[j] == levels[j + 1]);
        }
        assert forall|i: int| 0 <= i < rest.len() implies level_wf(side, #[trigger] rest[i])
            && good(rest[i].price) by {
            assert(rest[i] == levels[i + 1]);
        }
        lemma_queue_prices(rest, side, good);
        let q = priority_queue(levels);
        let a = levels[0].orders;
        assert forall|k: int| 0 <= k < q.len() implies good(#[trigger] q[k].price) by {
            if k < a.len() {
                assert(q[k] == a[k]);
                assert(crate::orderbook::rests_at(side, levels[0].price, a[k]));
            } else {
                assert(q[k] == priority_queue(rest)[k - a.len()]);
            }
        }
    }
}

/// Resting `o` on a well-formed side puts it right after the last queued
/// order whose price is at least as good as its own.
proof fn lemma_queue_rest_at_back(levels: Seq<LevelView>, o: Order) -> (pos: int)
    requires
        side_wf(o.side, levels),
    ensures
        0 <= pos <= priority_queue(levels).len(),
        priority_queue(rest_levels(levels, o)) == priority_queue(levels).insert(pos, o),
        forall|k: int|
            0 <= k < pos ==> {
                &&& o.side == Side::Bid ==> (#[trigger] priority_queue(levels)[k]).price
                    >= o.price
                &&& o.side == Side::Ask ==> priority_queue(levels)[k].price <= o.price
            },
        forall|k: int|
            pos <= k < priority_queue(levels).len() ==> {
                &&& o.side == Side::Bid ==> (#[trigger] priority_queue(levels)[k]).price
                    < o.price
                &&& o.side == Side::Ask ==> priority_queue(levels)[k].price > o.price
            },
{
    let side = o.side;
    let p = o.price;
    lemma_level_pos_props(levels, side, p);
    let j = level_pos(levels, side, p) as int;
    let pos = lemma_queue_rest(levels, o);
    let q = priority_queue(levels);
    let front = levels.take(j);
    let better = |x: u64| crate::orderbook::strictly_better(side, x, p);
    let at_or_better = |x: u64| x == p || crate::orderbook::strictly_better(side, x, p);
    let worse = |x: u64| crate::orderbook::strictly_better(side, p, x);
    let same = j < levels.len() && levels[j].price == p;
    let back = if same {
        levels.skip(j + 1)
    } else {
        levels.skip(j)
    };
    let mid = if same {
        seq![levels[j]]
    } else {
        Seq::<LevelView>::empty()
    };
    assert(levels =~= front + (mid + back));
    lemma_queue_concat(front, mid + back);
    lemma_queue_concat(mid, back);
    if same {
        lemma_queue_single(levels[j]);
    } else {
        assert(priority_queue(mid) =~= Seq::<Order>::empty());
    }
    // the sub-sides are well formed
    assert forall|i: int, k: int|
        0 <= i < k < front.len() implies crate::orderbook::strictly_better(
        side,
        #[trigger] front[i].price,
        #[trigger] front[k].price,
    ) by {
        assert(front[i] == levels[i] && front[k] == levels[k]);
    }
    assert forall|i: int| 0 <= i < front.len() implies level_wf(side, #[trigger] front[i])
        && better(front[i].price) by {
        assert(front[i] == levels[i]);
    }
    lemma_queue_prices(front, side, better);
    let d = if same {
        j + 1
    } else {
        j
    };
    assert forall|i: int, k: int|
        0 <= i < k < back.len() implies crate::orderbook::strictly_better(
        side,
        #[trigger] back[i].price,
        #[trigger] back[k].price,
    ) by {
        assert(back[i] == levels[i + d] && back[k] == levels[k + d]);
    }
    assert forall|i: int| 0 <= i < back.len() implies level_wf(side, #[trigger] back[i])
        && worse(back[i].price) by {
        assert(back[i] == levels[i + d]);
        if i + d > j {
            assert(crate::orderbook::strictly_better(side, levels[j].price, levels[i + d].price));
        }
    }
    lemma_queue_prices(back, side, worse);
    let qf = priority_queue(front);
    let qm = priority_queue(mid);
    let qb = priority_queue(back);
    assert(q =~= qf + (qm + qb));
    if same {
        assert(level_wf(side, levels[j]));
        assert(qm == levels[j].orders);
        assert forall|k: int| 0 <= k < qm.len() implies (#[trigger] qm[k]).price == p by {
            assert(crate::orderbook::rests_at(side, levels[j].price, qm[k]));
        }
    }
    assert(pos == qf.len() + qm.len());
    assert forall|k: int| 0 <= k < pos implies at_or_better(#[trigger] q[k].price) by {
        if k < qf.len() {
            assert(q[k] == qf[k]);
            assert(better(qf[k].price));
        } else {
            assert(q[k] == qm[k - qf.len()]);
        }
    }
    assert forall|k: int| pos <= k < q.len() implies worse(#[trigger] q[k].price) by {
        assert(q[k] == qb[k - pos]);
    }
    pos
}

/// With distinct ids, removing the orders with the id of `q[a]` at its price
/// removes exactly `q[a]`.
proof fn lemma_without_order_at(q: Seq<Order>, a: int)
    requires
        0 <= a < q.len(),
        forall|x: int, y: int|
            #![trigger q[x], q[y]]
            0 <= x < q.len() && 0 <= y < q.len() && x != y ==> q[x].id != q[y].id,
    ensures
        without_order(q, q[a].id, q[a].price) == q.remove(a),
    decreases q.len(),
{
    let id = q[a].id;
    let p = q[a].price;
    let d = q.drop_last();
    if a == q.len() - 1 {
        assert forall|k: int| 0 <= k < d.len() implies (#[trigger] d[k]).id != id by {
            assert(d[k] == q[k]);
        }
        lemma_without_order_absent(d, id, p);
        assert(q.remove(a) =~= d);
    } else {
        assert forall|x: int, y: int|
            0 <= x < d.len() && 0 <= y < d.len() && x != y implies #[trigger] d[x].id
            != #[trigger] d[y].id by {
            assert(d[x] == q[x] && d[y] == q[y]);
        }
        assert(d[a] == q[a]);
        lemma_without_order_at(d, a);
        assert(q.last().id != id);
        assert(d.remove(a).push(q.last()) =~= q.remove(a));
    }
}

proof fn lemma_without_order_absent(s: Seq<Order>, id: u64, price: u64)
    requires
        forall|k: int| 0 <= k < s.len() ==> (#[trigger] s[k]).id != id,
    ensures
        without_order(s, id, price) == s,
    decreases s.len(),
{
    if s.len() > 0 {
        let d = s.drop_last();
        assert forall|k: int| 0 <= k < d.len() implies (#[trigger] d[k]).id != id by {
            assert(d[k] == s[k]);
        }
        lemma_without_order_absent(d, id, price);
        assert(d.push(s.last()) =~= s);
    }
}


proof fn lemma_remove_keys_sub(m: Map<u64, Order>, ids: Seq<u64>, k: u64)
    requires
        remove_keys(m, ids).contains_key(k),
    ensures
        m.contains_key(k),
    decreases ids.len(),
{
    if ids.len() > 0 {
        lemma_remove_keys_sub(m.remove(ids[0]), ids.drop_first(), k);
    }
}

proof fn lemma_remove_keys_finite(m: Map<u64, Order>, ids: Seq<u64>)
    requires
        m.dom().finite(),
    ensures
        remove_keys(m, ids).dom().finite(),
    decreases ids.len(),
{
    if ids.len() > 0 {
        lemma_remove_keys_finite(m.remove(ids[0]), ids.drop_first());
    }
}

// ------------------------------------------------------------------ laws

/// Law: an empty book's index is exact.
pub proof fn lemma_empty_book_coherent(b: BookView)
    requires
        b.bids.len() == 0,
        b.asks.len() == 0,
        b.index == Map::<u64, Order>::empty(),
    ensures
        index_coherent(b),
{
    reveal(indexes);
    assert(priority_queue(b.bids) =~= Seq::<Order>::empty());
    assert(priority_queue(b.asks) =~= Seq::<Order>::empty());
    assert(resting_orders(b) =~= Seq::<Order>::empty());
}

/// Law (open-order count): with an exact index, the number of ids in the
/// index (what `open_orders` returns) is the number of resting orders.
pub proof fn lemma_coherent_open_orders(b: BookView)
    requires
        index_coherent(b),
    ensures
        b.index.len() == resting_orders(b).len(),
{
    reveal(indexes);
    let r = resting_orders(b);
    let ids = order_ids(r);
    assert forall|x: int, y: int|
        0 <= x < ids.len() && 0 <= y < ids.len() && x != y implies ids[x] != ids[y] by {
        assert(r[x].id != r[y].id);
    }
    assert(ids.no_duplicates());
    ids.unique_seq_to_set();
    assert forall|k: u64| #[trigger] b.index.contains_key(k) <==> ids.to_set().contains(k) by {
        if b.index.contains_key(k) {
            let a = choose|a: int| 0 <= a < r.len() && #[trigger] r[a].id == k;
            assert(ids[a] == k);
        }
        if ids.to_set().contains(k) {
            let a = choose|a: int| 0 <= a < ids.len() && ids[a] == k;
            assert(r[a].id == k);
        }
    }
    assert(b.index.dom() =~= ids.to_set());
}

/// Law: with an exact index, a cancel succeeds exactly when an order with
/// that id rests in the book.
pub proof fn lemma_coherent_cancel_result(b: BookView, id: u64)
    requires
        index_coherent(b),
    ensures
        (cancel_spec(b, id).1 is Canceled) == (exists|a: int|
            0 <= a < resting_orders(b).len() && #[trigger] resting_orders(b)[a].id == id),
{
    reveal(indexes);
    let r = resting_orders(b);
    if exists|a: int| 0 <= a < r.len() && #[trigger] r[a].id == id {
        let a = choose|a: int| 0 <= a < r.len() && #[trigger] r[a].id == id;
        assert(b.index.contains_key(r[a].id));
    }
}

/// With an exact index, a successful cancel removes from the resting orders
/// exactly the one with the cancelled id.
proof fn lemma_cancel_removes_one(b: BookView, id: u64) -> (a: int)
    requires
        book_wf(b),
        index_coherent(b),
        b.index.contains_key(id),
    ensures
        0 <= a < resting_orders(b).len(),
        resting_orders(b)[a].id == id,
        resting_orders(cancel_spec(b, id).0) == resting_orders(b).remove(a),
        a < priority_queue(b.bids).len() ==> priority_queue(cancel_spec(b, id).0.bids)
            == priority_queue(b.bids).remove(a) && cancel_spec(b, id).0.asks == b.asks,
        a >= priority_queue(b.bids).len() ==> priority_queue(cancel_spec(b, id).0.asks)
            == priority_queue(b.asks).remove(a - priority_queue(b.bids).len())
            && cancel_spec(b, id).0.bids == b.bids,
{
    reveal(indexes);
    let o = b.index[id];
    let u = priority_queue(b.bids);
    let v = priority_queue(b.asks);
    let r = u + v;
    let a = choose|a: int| 0 <= a < r.len() && #[trigger] r[a].id == id;
    assert(r[a].side == o.side && r[a].price == o.price);
    lemma_queue_sides(b.bids, Side::Bid);
    lemma_queue_sides(b.asks, Side::Ask);
    lemma_cancel_queue(side_levels(b, o.side), o.side, o.price, id);
    let after = cancel_spec(b, id).0;
    if a < u.len() {
        assert(r[a] == u[a]);
        assert(o.side == Side::Bid);
        assert forall|x: int, y: int|
            0 <= x < u.len() && 0 <= y < u.len() && x != y implies #[trigger] u[x].id
            != #[trigger] u[y].id by {
            assert(r[x] == u[x] && r[y] == u[y]);
        }
        lemma_without_order_at(u, a);
        assert(resting_orders(after) =~= r.remove(a));
    } else {
        let a2 = a - u.len();
        assert(r[a] == v[a2]);
        assert(o.side == Side::Ask);
        assert forall|x: int, y: int|
            0 <= x < v.len() && 0 <= y < v.len() && x != y implies #[trigger] v[x].id
            != #[trigger] v[y].id by {
            assert(r[x + u.len()] == v[x] && r[y + u.len()] == v[y]);
        }
        lemma_without_order_at(v, a2);
        assert(resting_orders(after) =~= r.remove(a));
    }
    a
}

/// Law: cancelling keeps the index exact: the cancelled order leaves both
/// the book and the index.
pub proof fn lemma_cancel_keeps_index_coherent(b: BookView, id: u64)
    requires
        book_wf(b),
        index_coherent(b),
    ensures
        index_coherent(cancel_spec(b, id).0),
{
    if b.index.contains_key(id) {
        let a = lemma_cancel_removes_one(b, id);
        lemma_indexes_remove(b.index, resting_orders(b), a);
    }
}

proof fn lemma_queue_qty(levels: Seq<LevelView>)
    ensures
        side_qty(levels) == qty_sum(priority_queue(levels)),
    decreases levels.len(),
{
    if levels.len() > 0 {
        lemma_side_qty_concat(seq![levels[0]], levels.drop_first());
        assert(seq![levels[0]] + levels.drop_first() =~= levels);
        assert(seq![levels[0]].drop_last() =~= Seq::<LevelView>::empty());
        assert(side_qty(Seq::<LevelView>::empty()) == 0);
        assert(side_qty(seq![levels[0]]) == side_qty(seq![levels[0]].drop_last()) + qty_sum(
            seq![levels[0]].last().orders,
        ));
        lemma_queue_qty(levels.drop_first());
        lemma_qty_sum_concat(levels[0].orders, priority_queue(levels.drop_first()));
    } else {
        assert(priority_queue(levels) =~= Seq::<Order>::empty());
    }
}

proof fn lemma_qty_sum_remove(s: Seq<Order>, a: int)
    requires
        0 <= a < s.len(),
    ensures
        qty_sum(s.remove(a)) + s[a].qty == qty_sum(s),
{
    let x = seq![s[a]];
    assert(s =~= s.take(a) + x + s.skip(a + 1));
    assert(s.remove(a) =~= s.take(a) + s.skip(a + 1));
    lemma_qty_sum_concat(s.take(a) + x, s.skip(a + 1));
    lemma_qty_sum_concat(s.take(a), x);
    lemma_qty_sum_concat(s.take(a), s.skip(a + 1));
    assert(x.drop_last() =~= Seq::<Order>::empty());
    assert(qty_sum(Seq::<Order>::empty()) == 0);
    assert(qty_sum(x) == qty_sum(x.drop_last()) + x.last().qty);
}

/// Law (cancel accounting): with an exact index, a cancel of a resting order
/// removes exactly its remaining quantity from the book and exactly one id
/// from the index; a cancel of an id that does not rest changes nothing.
pub proof fn lemma_cancel_quantity(b: BookView, id: u64)
    requires
        book_wf(b),
        index_coherent(b),
    ensures
        forall|a: int|
            0 <= a < resting_orders(b).len() && #[trigger] resting_orders(b)[a].id == id ==> {
                &&& cancel_spec(b, id).1 == CancelResult::Canceled { remaining_qty: 0 }
                &&& total_qty(cancel_spec(b, id).0) + resting_orders(b)[a].qty == total_qty(b)
                &&& resting_orders(cancel_spec(b, id).0).len() + 1 == resting_orders(b).len()
                &&& cancel_spec(b, id).0.index.len() + 1 == b.index.len()
            },
        (forall|a: int|
            0 <= a < resting_orders(b).len() ==> #[trigger] resting_orders(b)[a].id != id)
            ==> cancel_spec(b, id) == (b, CancelResult::NotFound),
{
    reveal(indexes);
    let r = resting_orders(b);
    if b.index.contains_key(id) {
        let a = lemma_cancel_removes_one(b, id);
        let after = cancel_spec(b, id).0;
        let u = priority_queue(b.bids);
        let v = priority_queue(b.asks);
        lemma_queue_qty(b.bids);
        lemma_queue_qty(b.asks);
        lemma_queue_qty(after.bids);
        lemma_queue_qty(after.asks);
        if a < u.len() {
            assert(r[a] == u[a]);
            lemma_qty_sum_remove(u, a);
        } else {
            assert(r[a] == v[a - u.len()]);
            lemma_qty_sum_remove(v, a - u.len());
        }
        lemma_cancel_keeps_index_coherent(b, id);
        lemma_coherent_open_orders(b);
        lemma_coherent_open_orders(after);
        assert forall|c: int|
            0 <= c < r.len() && #[trigger] r[c].id == id implies c == a by {}
    } else {
        assert forall|c: int| 0 <= c < r.len() implies #[trigger] r[c].id != id by {
            assert(b.index.contains_key(r[c].id));
        }
    }
}

/// After matching, the opposite queue is what followed the makers filled in
/// full, with at most its head's quantity changed.
proof fn lemma_match_queue_shape(levels: Seq<LevelView>, order: Order)
    requires
        side_wf(opposite(order.side), levels),
    ensures
        ({
            let q = priority_queue(levels);
            let m = match_spec(levels, order);
            let f = m.filled.len() as int;
            let a = priority_queue(m.levels);
            &&& f <= q.len()
            &&& filled_makers(m.filled) == q.take(f)
            &&& forall|k: int|
                0 <= k < f && (#[trigger] m.filled[k]).id_still_at_level ==> exists|j: int|
                    k < j < q.len() && #[trigger] q[j].id == q[k].id
            &&& a == q.skip(f) || (f < q.len() && a == q.skip(f).update(0, a[0]) && a[0].id
                == q[f].id && a[0].side == q[f].side && a[0].price == q[f].price)
        }),
{
    let opp = opposite(order.side);
    let q = priority_queue(levels);
    let m = match_spec(levels, order);
    let f = m.filled.len() as int;
    let a = priority_queue(m.levels);
    lemma_match_priority(levels, order);
    lemma_match_keeps_side(levels, order);
    let n = crate::book_laws::maker_ids(m.events).len() as int;
    if n != f {
        lemma_queue_sides(m.levels, opp);
        lemma_queue_sides(levels, opp);
        assert(a.len() > 0);
        assert forall|k: int| 1 <= k < a.len() implies a[k] == q.skip(f)[k] by {
            assert(a[k] == a.drop_first()[k - 1]);
            assert(a.drop_first()[k - 1] == q.skip(f + 1)[k - 1]);
        }
        assert(a =~= q.skip(f).update(0, a[0]));
    }
}

/// With an exact index, releasing makers filled in full from the head of a
/// block `q` of the resting orders removes exactly their ids.
proof fn lemma_release_is_remove(
    m: Map<u64, Order>,
    r: Seq<Order>,
    off: int,
    q: Seq<Order>,
    fills: Seq<Filled>,
)
    requires
        indexes(m, r),
        0 <= off,
        off + q.len() <= r.len(),
        r.subrange(off, off + q.len()) == q,
        fills.len() <= q.len(),
        filled_makers(fills) == q.take(fills.len() as int),
        forall|k: int|
            0 <= k < fills.len() && (#[trigger] fills[k]).id_still_at_level ==> exists|j: int|
                k < j < q.len() && #[trigger] q[j].id == q[k].id,
    ensures
        release_filled(m, fills) == remove_keys(m, order_ids(q.take(fills.len() as int))),
    decreases fills.len(),
{
    let f = fills.len() as int;
    if f == 0 {
        assert(order_ids(q.take(0)) =~= Seq::<u64>::empty());
    } else {
        reveal(indexes);
        let f0 = fills[0];
        assert(filled_makers(fills)[0] == f0.maker);
        assert(f0.maker == q[0]);
        assert(r[off] == q[0]);
        if f0.id_still_at_level {
            let j = choose|j: int| 0 < j < q.len() && #[trigger] q[j].id == q[0].id;
            assert(r[off + j] == q[j]);
            assert(false);
        }
        assert(m.contains_key(r[off].id));
        lemma_indexes_remove(m, r, off);
        let r2 = r.remove(off);
        let q2 = q.drop_first();
        let fs2 = fills.drop_first();
        assert(r2.subrange(off, off + q2.len()) =~= q2);
        assert forall|k: int| 0 <= k < fs2.len() implies #[trigger] filled_makers(fs2)[k] == q2.take(
            fs2.len() as int,
        )[k] by {
            assert(fs2[k] == fills[k + 1]);
            assert(filled_makers(fills)[k + 1] == fills[k + 1].maker);
            assert(q.take(f)[k + 1] == q[k + 1]);
        }
        assert(filled_makers(fs2) =~= q2.take(fs2.len() as int));
        assert forall|k: int|
            0 <= k < fs2.len() && (#[trigger] fs2[k]).id_still_at_level implies exists|j: int|
                k < j < q2.len() && #[trigger] q2[j].id == q2[k].id by {
            assert(fs2[k] == fills[k + 1]);
            let j = choose|j: int| k + 1 < j < q.len() && #[trigger] q[j].id == q[k + 1].id;
            assert(q2[j - 1] == q[j]);
        }
        lemma_release_is_remove(m.remove(q[0].id), r2, off, q2, fs2);
        let ids = order_ids(q.take(f));
        assert(ids[0] == q[0].id);
        assert(ids.drop_first() =~= order_ids(q2.take(f - 1)));
    }
}

/// Replacing a block `q` of the resting orders by what matching leaves of it,
/// and removing the filled makers' ids from the index, keeps the index exact.
proof fn lemma_indexes_replace_block(
    m: Map<u64, Order>,
    front: Seq<Order>,
    q: Seq<Order>,
    back: Seq<Order>,
    f: int,
    a: Seq<Order>,
)
    requires
        indexes(m, front + q + back),
        0 <= f <= q.len(),
        a == q.skip(f) || (f < q.len() && a == q.skip(f).update(0, a[0]) && a[0].id == q[f].id
            && a[0].side == q[f].side && a[0].price == q[f].price),
    ensures
        indexes(remove_keys(m, order_ids(q.take(f))), front + a + back),
{
    let r = front + q + back;
    let off = front.len() as int;
    assert(r.subrange(off, off + q.len()) =~= q);
    lemma_indexes_drop_block(m, r, off, q, f);
    let m1 = remove_keys(m, order_ids(q.take(f)));
    let r1 = r.take(off) + q.skip(f) + r.skip(off + q.len());
    assert(r.take(off) =~= front);
    assert(r.skip(off + q.len()) =~= back);
    if a == q.skip(f) {
        assert(r1 =~= front + a + back);
    } else {
        assert(q.skip(f)[0] == q[f]);
        assert(r1[off] == q[f]);
        lemma_indexes_update(m1, r1, off, a[0]);
        assert(r1.update(off, a[0]) =~= front + a + back);
    }
}

/// Resting `rested` on its side of a book whose index is exact for the
/// resting orders `r1x` keeps it exact.
proof fn lemma_rest_keeps_indexes(
    m1: Map<u64, Order>,
    a: Seq<Order>,
    own: Seq<LevelView>,
    rested: Order,
)
    requires
        rested.side == Side::Bid ==> indexes(m1, priority_queue(own) + a),
        rested.side == Side::Ask ==> indexes(m1, a + priority_queue(own)),
        !m1.contains_key(rested.id),
    ensures
        rested.side == Side::Bid ==> indexes(
            m1.insert(rested.id, rested),
            priority_queue(rest_levels(own, rested)) + a,
        ),
        rested.side == Side::Ask ==> indexes(
            m1.insert(rested.id, rested),
            a + priority_queue(rest_levels(own, rested)),
        ),
{
    let pos = lemma_queue_rest(own, rested);
    let u = priority_queue(own);
    if rested.side == Side::Bid {
        lemma_indexes_insert(m1, u + a, pos, rested);
        assert((u + a).insert(pos, rested) =~= u.insert(pos, rested) + a);
    } else {
        lemma_indexes_insert(m1, a + u, a.len() + pos, rested);
        assert((a + u).insert(a.len() + pos, rested) =~= a + u.insert(pos, rested));
    }
}

/// Law: submitting under an id that is not in the index keeps the index
/// exact: makers filled in full leave it, a maker filled in part stays under
/// its id, and a remainder that rests joins it.
#[verifier::rlimit(40)]
pub proof fn lemma_submit_keeps_index_coherent(b: BookView, order: Order)
    requires
        book_wf(b),
        index_coherent(b),
        !b.index.contains_key(order.id),
    ensures
        index_coherent(submit_spec(b, order).0),
{
    let opp = opposite(order.side);
    let levels = side_levels(b, opp);
    let m = match_spec(levels, order);
    lemma_match_queue_shape(levels, order);
    let q = priority_queue(levels);
    let f = m.filled.len() as int;
    let u = priority_queue(b.bids);
    let v = priority_queue(b.asks);
    let m1 = remove_keys(b.index, order_ids(q.take(f)));
    let a = priority_queue(m.levels);
    let e = Seq::<Order>::empty();
    if opp == Side::Bid {
        assert(u + v =~= e + q + v);
        assert((u + v).subrange(0, q.len() as int) =~= q);
        lemma_release_is_remove(b.index, u + v, 0, q, m.filled);
        lemma_indexes_replace_block(b.index, e, q, v, f, a);
        assert(e + a + v =~= a + v);
    } else {
        assert(u + v =~= u + q + e);
        assert((u + v).subrange(u.len() as int, (u.len() + q.len()) as int) =~= q);
        lemma_release_is_remove(b.index, u + v, u.len() as int, q, m.filled);
        lemma_indexes_replace_block(b.index, u, q, e, f, a);
        assert(u + a + e =~= u + a);
    }
    let after = submit_spec(b, order).0;
    if m.remaining == 0 {
        assert(resting_orders(after) == (if opp == Side::Bid {
            a + v
        } else {
            u + a
        }));
    } else {
        let rested = rested_order(order, m.remaining);
        if m1.contains_key(order.id) {
            lemma_remove_keys_sub(b.index, order_ids(q.take(f)), order.id);
        }
        if order.side == Side::Bid {
            lemma_rest_keeps_indexes(m1, a, b.bids, rested);
            assert(resting_orders(after) == priority_queue(rest_levels(b.bids, rested)) + a);
        } else {
            lemma_rest_keeps_indexes(m1, a, b.asks, rested);
            assert(resting_orders(after) == a + priority_queue(rest_levels(b.asks, rested)));
        }
    }
}


/// Law (time priority within a level): a submission leaves the order's own
/// side as it was when the order trades in full; otherwise the remainder
/// (the order with its untraded quantity) joins the side's priority queue
/// right behind every order priced at least as well as it, which includes
/// every order already resting at its price, and ahead of every order priced
/// worse.
pub proof fn lemma_submit_rests_at_back_of_level(b: BookView, order: Order)
    requires
        book_wf(b),
    ensures
        ({
            let q = priority_queue(side_levels(b, order.side));
            let (after, events) = submit_spec(b, order);
            let q2 = priority_queue(side_levels(after, order.side));
            let traded = traded_qty(events);
            &&& traded <= order.qty
            &&& traded == order.qty ==> q2 == q
            &&& traded < order.qty ==> exists|pos: int|
                #![trigger q.insert(pos, order)]
                {
                    &&& 0 <= pos <= q.len()
                    &&& q2 == q.insert(
                        pos,
                        Order {
                            id: order.id,
                            side: order.side,
                            price: order.price,
                            qty: (order.qty - traded) as u64,
                        },
                    )
                    &&& forall|k: int|
                        0 <= k < pos ==> {
                            &&& order.side == Side::Bid ==> (#[trigger] q[k]).price >= order.price
                            &&& order.side == Side::Ask ==> q[k].price <= order.price
                        }
                    &&& forall|k: int|
                        pos <= k < q.len() ==> {
                            &&& order.side == Side::Bid ==> (#[trigger] q[k]).price < order.price
                            &&& order.side == Side::Ask ==> q[k].price > order.price
                        }
                }
        }),
{
    let opp = opposite(order.side);
    let m = match_spec(side_levels(b, opp), order);
    lemma_match_conserves(side_levels(b, opp), order);
    let q = priority_queue(side_levels(b, order.side));
    let ev = submit_spec(b, order).1;
    if m.remaining > 0 {
        lemma_traded_push_update(m.events, ev.last());
        assert(ev =~= m.events.push(ev.last()));
        let rested = rested_order(order, m.remaining);
        let pos = lemma_queue_rest_at_back(side_levels(b, order.side), rested);
        let q2 = priority_queue(side_levels(submit_spec(b, order).0, order.side));
        assert(q2 == q.insert(pos, rested));
        assert(q.insert(pos, order) == q.insert(pos, order));
    } else {
        assert(ev == m.events);
    }
}

} // verus!
