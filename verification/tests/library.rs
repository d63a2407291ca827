use lob_engine::{
    execute_schedule, fill_child, pov_slices, twap_slices, vwap_buckets, vwap_slices, Book, CancelResult, Event,
    Lcg, Order, Side, Trade,
};

fn mk(id: u64, side: Side, price: u64, qty: u64) -> Order {
    Order { id, side, price, qty }
}

fn trades(events: &[Event]) -> Vec<Trade> {
    events
        .iter()
        .filter_map(|e| match e {
            Event::Trade(t) => Some(*t),
            _ => None,
        })
        .collect()
}

fn traded(events: &[Event]) -> u64 {
    trades(events).iter().map(|t| t.qty).sum()
}

// ------------------------------------------------------------------ lcg

#[test]
fn lcg_step_is_exact() {
    let mut rng = Lcg::new(0);
    // state 1 after seeding: 1 * mul + inc
    assert_eq!(rng.next_u64(), 7806831264735756412);
    let expected = 7806831264735756412u64
        .wrapping_mul(6364136223846793005)
        .wrapping_add(1442695040888963407);
    assert_eq!(rng.next_u64(), expected);
}

#[test]
fn lcg_seed_gets_low_bit_set() {
    let mut a = Lcg::new(2);
    let mut b = Lcg::new(3);
    assert_eq!(a.next_u64(), b.next_u64());
}

#[test]
fn lcg_below_bounds() {
    let mut rng = Lcg::new(99);
    for n in 1..200u64 {
        assert!(rng.below(n) < n);
    }
    assert_eq!(rng.below(0), 0);
    assert_eq!(rng.below(1), 0);
}

#[test]
fn lcg_same_seed_same_stream() {
    let mut a = Lcg::new(42);
    let mut b = Lcg::new(42);
    for _ in 0..100 {
        assert_eq!(a.next_u64(), b.next_u64());
    }
}

// ------------------------------------------------------------------ book

#[test]
fn empty_book() {
    let book = Book::new();
    assert_eq!(book.best_bid(), None);
    assert_eq!(book.best_ask(), None);
    assert_eq!(book.open_orders(), 0);
    assert_eq!(book.total_quantity(), 0);
    let d = Book::default();
    assert_eq!(d.best_bid(), None);
    assert_eq!(d.open_orders(), 0);
}

#[test]
fn resting_reports_cumulative_level_quantity() {
    let mut book = Book::new();
    let ev = book.submit(mk(1, Side::Ask, 1010, 4));
    assert_eq!(ev.len(), 1);
    match ev[0] {
        Event::BookUpdate { side, price, new_level_qty } => {
            assert_eq!(side, Side::Ask);
            assert_eq!(price, 1010);
            assert_eq!(new_level_qty, 4);
        }
        _ => panic!("expected book update"),
    }
    let ev = book.submit(mk(2, Side::Ask, 1010, 6));
    match ev[0] {
        Event::BookUpdate { new_level_qty, .. } => assert_eq!(new_level_qty, 10),
        _ => panic!("expected book update"),
    }
    assert_eq!(book.best_ask(), Some(1010));
    assert_eq!(book.open_orders(), 2);
    assert_eq!(book.total_quantity(), 10);
}

#[test]
fn full_fill_reports_quantity_left_at_level() {
    let mut book = Book::new();
    book.submit(mk(1, Side::Bid, 1000, 3));
    book.submit(mk(2, Side::Bid, 1000, 5));
    let ev = book.submit(mk(3, Side::Ask, 1000, 3));
    assert_eq!(ev.len(), 2);
    match ev[0] {
        Event::Trade(t) => {
            assert_eq!(t, Trade { maker_id: 1, taker_id: 3, price: 1000, qty: 3 });
        }
        _ => panic!("expected trade"),
    }
    match ev[1] {
        Event::BookUpdate { side, price, new_level_qty } => {
            assert_eq!(side, Side::Bid);
            assert_eq!(price, 1000);
            assert_eq!(new_level_qty, 5);
        }
        _ => panic!("expected book update"),
    }
    assert_eq!(book.best_bid(), Some(1000));
    assert_eq!(book.total_quantity(), 5);
    assert_eq!(book.open_orders(), 1);
}

#[test]
fn last_update_per_level_matches_resting_quantity() {
    let mut book = Book::new();
    book.submit(mk(1, Side::Bid, 1000, 5));
    book.submit(mk(2, Side::Bid, 1000, 7));
    book.submit(mk(3, Side::Bid, 1001, 3));
    let ev = book.submit(mk(9, Side::Ask, 999, 8));
    let mut last_1000 = None;
    let mut last_1001 = None;
    for e in &ev {
        if let Event::BookUpdate { side: Side::Bid, price, new_level_qty } = e {
            if *price == 1000 {
                last_1000 = Some(*new_level_qty);
            }
            if *price == 1001 {
                last_1001 = Some(*new_level_qty);
            }
        }
    }
    assert_eq!(last_1000, Some(7));
    assert_eq!(last_1001, Some(0));
    assert_eq!(book.open_orders(), 1);
}

#[test]
fn partial_fill_reports_only_the_trade() {
    let mut book = Book::new();
    book.submit(mk(1, Side::Ask, 1010, 10));
    book.submit(mk(2, Side::Ask, 1010, 10));
    let ev = book.submit(mk(3, Side::Bid, 1010, 4));
    assert_eq!(ev.len(), 1);
    assert_eq!(trades(&ev), vec![Trade { maker_id: 1, taker_id: 3, price: 1010, qty: 4 }]);
    assert_eq!(book.open_orders(), 2);
    assert_eq!(book.total_quantity(), 16);
}

#[test]
fn trades_stay_within_limit_and_remainder_rests() {
    let mut book = Book::new();
    book.submit(mk(1, Side::Ask, 1000, 2));
    book.submit(mk(2, Side::Ask, 1003, 2));
    book.submit(mk(3, Side::Ask, 1010, 2));
    let ev = book.submit(mk(4, Side::Bid, 1005, 10));
    let t = trades(&ev);
    assert_eq!(t.len(), 2);
    assert_eq!((t[0].maker_id, t[0].price, t[0].qty), (1, 1000, 2));
    assert_eq!((t[1].maker_id, t[1].price, t[1].qty), (2, 1003, 2));
    for tr in &t {
        assert!(tr.price <= 1005);
        assert_eq!(tr.taker_id, 4);
    }
    match ev.last() {
        Some(Event::BookUpdate { side, price, new_level_qty }) => {
            assert_eq!((*side, *price, *new_level_qty), (Side::Bid, 1005, 6));
        }
        _ => panic!("expected resting update"),
    }
    assert_eq!(book.best_bid(), Some(1005));
    assert_eq!(book.best_ask(), Some(1010));
}

#[test]
fn quantity_is_conserved_by_submission() {
    let mut book = Book::new();
    book.submit(mk(1, Side::Ask, 1000, 5));
    book.submit(mk(2, Side::Ask, 1001, 5));
    book.submit(mk(3, Side::Bid, 990, 7));
    let before = book.total_quantity();
    let ev = book.submit(mk(4, Side::Bid, 1001, 12));
    let tq = traded(&ev);
    assert_eq!(tq, 10);
    assert_eq!(book.total_quantity() + 2 * tq, before + 12);
}

#[test]
fn aggressive_order_fully_filled_does_not_rest() {
    let mut book = Book::new();
    book.submit(mk(1, Side::Bid, 1000, 10));
    let ev = book.submit(mk(2, Side::Ask, 999, 4));
    assert_eq!(ev.len(), 1);
    assert_eq!(book.open_orders(), 1);
    assert_eq!(book.best_ask(), None);
    assert_eq!(book.cancel(2), CancelResult::NotFound);
}

#[test]
fn filled_order_leaves_the_index() {
    let mut book = Book::new();
    book.submit(mk(1, Side::Bid, 1000, 10));
    let ev = book.submit(mk(2, Side::Ask, 1000, 10)); // fills order 1 in full
    assert_eq!(trades(&ev), vec![Trade { maker_id: 1, taker_id: 2, price: 1000, qty: 10 }]);
    assert_eq!(book.best_bid(), None);
    assert_eq!(book.best_ask(), None);
    assert_eq!(book.total_quantity(), 0);
    assert_eq!(book.open_orders(), 0);
    assert_eq!(book.cancel(1), CancelResult::NotFound);
}

#[test]
fn reused_id_keeps_entry_of_order_still_resting() {
    // the index entry for id 1 locates the bid at 1000
    let mut book = Book::new();
    book.submit(mk(1, Side::Bid, 1001, 5));
    book.submit(mk(1, Side::Bid, 1000, 3));
    book.submit(mk(2, Side::Ask, 1001, 5)); // fills the bid at 1001 in full
    assert_eq!(book.best_bid(), Some(1000));
    assert_eq!(book.cancel(1), CancelResult::Canceled { remaining_qty: 0 });
    assert_eq!(book.best_bid(), None);
    assert_eq!(book.total_quantity(), 0);
}

#[test]
fn reused_id_in_same_level_keeps_entry() {
    let mut book = Book::new();
    book.submit(mk(1, Side::Bid, 1000, 3));
    book.submit(mk(1, Side::Bid, 1000, 4));
    book.submit(mk(2, Side::Ask, 1000, 3)); // fills the first in full
    assert_eq!(book.total_quantity(), 4);
    assert_eq!(book.cancel(1), CancelResult::Canceled { remaining_qty: 0 });
    assert_eq!(book.total_quantity(), 0);
    assert_eq!(book.best_bid(), None);
}

#[test]
fn submit_then_cancel_restores_book() {
    let mut book = Book::new();
    book.submit(mk(1, Side::Bid, 1000, 4));
    book.submit(mk(2, Side::Ask, 1005, 6));
    let before = (book.best_bid(), book.best_ask(), book.total_quantity(), book.open_orders());
    book.submit(mk(3, Side::Bid, 1002, 9));
    assert_eq!(book.best_bid(), Some(1002));
    assert_eq!(book.cancel(3), CancelResult::Canceled { remaining_qty: 0 });
    let after = (book.best_bid(), book.best_ask(), book.total_quantity(), book.open_orders());
    assert_eq!(before, after);
}

#[test]
fn cancel_last_order_removes_level() {
    let mut book = Book::new();
    book.submit(mk(1, Side::Ask, 1005, 3));
    book.submit(mk(2, Side::Ask, 1007, 3));
    assert_eq!(book.best_ask(), Some(1005));
    assert_eq!(book.cancel(1), CancelResult::Canceled { remaining_qty: 0 });
    assert_eq!(book.best_ask(), Some(1007));
    assert_eq!(book.total_quantity(), 3);
}

#[test]
fn can_submit_detects_level_overflow() {
    let mut book = Book::new();
    book.submit(mk(1, Side::Bid, 1000, u64::MAX));
    // a bid joining the full level would overflow its quantity
    assert!(!book.can_submit(mk(2, Side::Bid, 1000, 1)));
    // a bid at another price starts its own level
    assert!(book.can_submit(mk(3, Side::Bid, 999, 1)));
    // an ask that is filled in full never rests
    assert!(book.can_submit(mk(4, Side::Ask, 1000, 5)));
    assert!(book.can_submit(mk(5, Side::Ask, 990, u64::MAX)));
    let mut book = Book::new();
    book.submit(mk(1, Side::Ask, 1000, 3));
    book.submit(mk(2, Side::Bid, 999, u64::MAX - 2));
    // what is left after crossing rests on a fresh level at 1000
    assert!(book.can_submit(mk(3, Side::Bid, 1000, u64::MAX)));
    assert!(book.can_submit(mk(4, Side::Bid, 999, 2)));
    assert!(!book.can_submit(mk(5, Side::Bid, 999, 3)));
}

#[test]
fn cancel_on_empty_book_is_not_found() {
    let mut book = Book::new();
    assert_eq!(book.cancel(0), CancelResult::NotFound);
    assert_eq!(book.open_orders(), 0);
}

// ------------------------------------------------------------------ schedules

#[test]
fn twap_splits_evenly_over_tape() {
    let s = twap_slices(500, 10_000, 10);
    assert_eq!(s.len(), 10);
    for (i, (idx, q)) in s.iter().enumerate() {
        assert_eq!(*idx, i * 50);
        assert_eq!(*q, 1000);
    }
    let total: u64 = s.iter().map(|(_, q)| q).sum();
    assert_eq!(total, 10_000);
}

#[test]
fn twap_remainder_goes_to_first_slices() {
    assert_eq!(twap_slices(0, 7, 3), vec![(0, 3), (0, 2), (0, 2)]);
    assert_eq!(twap_slices(10, 2, 5), vec![(0, 1), (2, 1)]);
    assert_eq!(twap_slices(10, 5, 0), vec![(0, 5)]);
    assert_eq!(twap_slices(10, 0, 4), vec![]);
}

#[test]
fn vwap_last_slice_takes_what_is_left() {
    let s = vwap_slices(100, 100, 4, &vec![30, 20, 25]);
    assert_eq!(s, vec![(0, 30), (25, 20), (50, 25), (75, 25)]);
    let s = vwap_slices(100, 50, 4, &vec![0, 20, 30]);
    assert_eq!(s, vec![(25, 20), (50, 30)]);
    // proposals over the parent are capped at what is left
    let s = vwap_slices(5, 3, 5, &vec![1, 1, 1, 1]);
    assert_eq!(s, vec![(0, 1), (1, 1), (2, 1)]);
    let s = vwap_slices(4, 10, 3, &vec![7, 7]);
    assert_eq!(s, vec![(0, 7), (1, 3)]);
    let total: u64 = vwap_slices(500, 10_000, 10, &vec![900; 9]).iter().map(|(_, q)| q).sum();
    assert_eq!(total, 10_000);
}

#[test]
fn vwap_buckets_cover_the_tape() {
    assert_eq!(vwap_buckets(10, 3), vec![(0, 3), (3, 6), (6, 10)]);
    // more slices than ticks: every bucket still spans a tick
    assert_eq!(vwap_buckets(2, 4), vec![(0, 1), (0, 1), (1, 2), (1, 2)]);
}

fn synthetic_qty(n: usize) -> Vec<u64> {
    (0..n).map(|i| 100 + ((i * 37) % 200) as u64).collect()
}

#[test]
fn schedules_sum_to_parent_qty_on_synthetic_tape() {
    let qtys = synthetic_qty(500);
    let parent = 10_000u64;
    let k = 10usize;
    let twap: u64 = twap_slices(qtys.len(), parent, k).iter().map(|(_, q)| q).sum();
    assert_eq!(twap, parent);
    // VWAP weights: the volume of each bucket plus one, as shares of the total
    let w: Vec<f64> = vwap_buckets(qtys.len(), k)
        .iter()
        .map(|&(lo, hi)| qtys[lo..hi].iter().map(|q| *q as f64).sum::<f64>() + 1.0)
        .collect();
    let wsum: f64 = w.iter().sum();
    let head: Vec<u64> =
        (0..k - 1).map(|i| ((w[i] / wsum) * parent as f64).round() as u64).collect();
    let vwap: u64 = vwap_slices(qtys.len(), parent, k, &head).iter().map(|(_, q)| q).sum();
    assert_eq!(vwap, parent);
}

#[test]
fn pov_children_follow_budget_and_stride() {
    let s = pov_slices(100, 50, 10, 40);
    assert_eq!(s.len(), 10);
    for (i, (idx, q)) in s.iter().enumerate() {
        assert_eq!(*idx, i * 10);
        assert_eq!(*q, 4);
    }
    // budget capped by the parent; last child smaller
    let s = pov_slices(10, 7, 2, 1000);
    assert_eq!(s, vec![(0, 3), (5, 3)]);
    // zero budget still schedules one unit per child
    let s = pov_slices(3, 10, 3, 0);
    assert_eq!(s, vec![(0, 1), (1, 1), (2, 1)]);
}

#[test]
fn fill_walks_forward_until_filled() {
    let tape = vec![5u64, 3, 10];
    let f = fill_child(&tape, 1, 8);
    assert_eq!(f.takes, vec![3, 5]);
    assert_eq!(f.filled, 8);
    let f = fill_child(&tape, 1, 100);
    assert_eq!(f.takes, vec![3, 10]);
    assert_eq!(f.filled, 13);
    let f = fill_child(&tape, 3, 5);
    assert!(f.takes.is_empty());
    assert_eq!(f.filled, 0);
}

#[test]
fn schedule_fills_full_parent_on_deep_tape() {
    let tape: Vec<u64> = (0..500u64).map(|i| 100 + (i * 37) % 200).collect();
    let children = twap_slices(tape.len(), 5_000, 10);
    let e = execute_schedule(&tape, &children);
    assert_eq!(e.filled_qty, 5_000);
    assert_eq!(e.fills.len(), 10);
    let shallow = vec![1u64; 4];
    let children = twap_slices(shallow.len(), 8, 2);
    let e = execute_schedule(&shallow, &children);
    // child at 0 takes 4 ticks of 1; child at 2 takes 2
    assert_eq!(e.filled_qty, 6);
}
