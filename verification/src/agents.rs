//! Execution schedules over a historical trade tape, integer parts.
//!
//! Agents produce child-order schedules (TWAP / VWAP / POV) as
//! `(start_index_in_tape, qty)` pairs; a child is filled by walking forward
//! through the tape's traded volume from its start index. The weights of
//! VWAP, the volume budget of POV and all prices are floating point and are
//! computed by the caller; everything about indices and quantities is here.

use vstd::prelude::*;

verus! {

#[derive(Clone, Copy, Debug, PartialEq, Eq, Structural)]
pub enum Algo {
    Twap,
    Vwap,
    Pov,
}

#[derive(Clone, Copy, Debug, PartialEq, Eq, Structural)]
pub enum ExecSide {
    Buy,
    Sell,
}

// ------------------------------------------------------------------ model

pub open spec fn at_least_one(x: nat) -> nat {
    if x == 0 {
        1
    } else {
        x
    }
}

pub open spec fn min_nat(a: nat, b: nat) -> nat {
    if a < b {
        a
    } else {
        b
    }
}

/// Sum of a sequence of quantities.
pub open spec fn qty_total(s: Seq<u64>) -> nat
    decreases s.len(),
{
    if s.len() == 0 {
        0
    } else {
        qty_total(s.drop_last()) + s.last() as nat
    }
}

/// Sum of the quantities of a schedule.
pub open spec fn slices_total(s: Seq<(usize, u64)>) -> nat
    decreases s.len(),
{
    if s.len() == 0 {
        0
    } else {
        slices_total(s.drop_last()) + s.last().1 as nat
    }
}

/// The schedule without its zero-quantity children, in the same order.
pub open spec fn drop_empty(s: Seq<(usize, u64)>) -> Seq<(usize, u64)>
    decreases s.len(),
{
    if s.len() == 0 {
        s
    } else if s.last().1 > 0 {
        drop_empty(s.drop_last()).push(s.last())
    } else {
        drop_empty(s.drop_last())
    }
}

/// Start of child `i` of `k` over a tape of `n` ticks: `i * n / k`.
pub open spec fn slice_start(i: int, n: nat, k: nat) -> int {
    (i * n) / (k as int)
}

/// TWAP before zero children are dropped: `k` children at evenly spaced
/// starts, each `parent / k`, the first `parent % k` of them one more.
pub open spec fn twap_raw(n: nat, parent: nat, k: nat) -> Seq<(usize, u64)> {
    Seq::new(
        k,
        |i: int|
            (
                slice_start(i, n, k) as usize,
                ((parent / k) as int + if i < (parent % k) as int {
                    1int
                } else {
                    0int
                }) as u64,
            ),
    )
}

/// The TWAP schedule for a tape of `tape_len` ticks.
pub open spec fn twap_spec(tape_len: usize, parent_qty: u64, n_slices: usize) -> Seq<(usize, u64)> {
    drop_empty(twap_raw(at_least_one(tape_len as nat), parent_qty as nat, at_least_one(n_slices as nat)))
}

/// What the first `i` proposed VWAP quantities assign of the parent: their
/// sum, capped at the parent.
pub open spec fn vwap_assigned(parent: nat, head: Seq<u64>, i: int) -> nat {
    min_nat(qty_total(head.take(i)), parent)
}

/// VWAP before zero children are dropped: `k` children at evenly spaced
/// starts; each of the first `k - 1` takes its proposed quantity, capped at
/// what is left of the parent, and the last takes all that is left.
pub open spec fn vwap_raw(n: nat, parent: nat, k: nat, head: Seq<u64>) -> Seq<(usize, u64)> {
    Seq::new(
        k,
        |i: int|
            (
                slice_start(i, n, k) as usize,
                if i == k - 1 {
                    (parent - vwap_assigned(parent, head, i)) as u64
                } else {
                    (vwap_assigned(parent, head, i + 1) - vwap_assigned(parent, head, i)) as u64
                },
            ),
    )
}

/// Tick range `[lo, hi)` whose traded volume weighs VWAP child `i` of `k`
/// over a tape of `n` ticks: from the child's start to the next child's
/// start, at least one tick, both ends capped at `n`.
pub open spec fn vwap_bucket(i: int, n: nat, k: nat) -> (usize, usize) {
    let lo = slice_start(i, n, k);
    let next = slice_start(i + 1, n, k);
    let hi = if next > lo + 1 {
        next
    } else {
        lo + 1
    };
    (
        (if lo < n {
            lo
        } else {
            n as int
        }) as usize,
        (if hi < n {
            hi
        } else {
            n as int
        }) as usize,
    )
}

/// The VWAP schedule for a tape of `tape_len` ticks, given the proposed
/// quantities of all children but the last.
pub open spec fn vwap_spec(tape_len: usize, parent_qty: u64, n_slices: usize, head: Seq<u64>) -> Seq<
    (usize, u64),
> {
    drop_empty(
        vwap_raw(at_least_one(tape_len as nat), parent_qty as nat, at_least_one(n_slices as nat), head),
    )
}

/// POV children from index `i` on: while quantity remains and the index is
/// inside the tape, a child of `min(per, remaining)`, then `stride` ticks on.
pub open spec fn pov_from(i: nat, remaining: nat, per: nat, stride: nat, n: nat) -> Seq<(usize, u64)>
    decreases
            if i < n {
                n - i
            } else {
                0
            },
{
    if remaining == 0 || i >= n || stride == 0 {
        Seq::empty()
    } else {
        let q = min_nat(per, remaining);
        seq![(i as usize, q as u64)] + pov_from(i + stride, (remaining - q) as nat, per, stride, n)
    }
}

/// Per-child quantity of POV: the budget capped by the parent, split over
/// the slices, at least 1.
pub open spec fn pov_per_slice(parent_qty: u64, n_slices: usize, budget: u64) -> nat {
    at_least_one(min_nat(budget as nat, parent_qty as nat) / at_least_one(n_slices as nat))
}

/// Distance between POV children: the tape split over the slices, at least 1.
pub open spec fn pov_stride(tape_len: usize, n_slices: usize) -> nat {
    at_least_one(at_least_one(tape_len as nat) / at_least_one(n_slices as nat))
}

/// The POV schedule for a tape of `tape_len` ticks and a volume budget.
pub open spec fn pov_spec(tape_len: usize, parent_qty: u64, n_slices: usize, budget: u64) -> Seq<
    (usize, u64),
> {
    drop_empty(
        pov_from(
            0,
            parent_qty as nat,
            pov_per_slice(parent_qty, n_slices, budget),
            pov_stride(tape_len, n_slices),
            at_least_one(tape_len as nat),
        ),
    )
}

/// What a child of `qty` takes from each tick it walks over.
pub open spec fn takes_spec(ticks: Seq<u64>, qty: nat) -> Seq<u64>
    decreases ticks.len(),
{
    if qty == 0 || ticks.len() == 0 {
        Seq::empty()
    } else {
        let t = min_nat(ticks[0] as nat, qty);
        seq![t as u64] + takes_spec(ticks.drop_first(), (qty - t) as nat)
    }
}

/// Quantity a child `(start, qty)` fills: its quantity, capped by the volume
/// traded from its start on.
pub open spec fn child_fill(tape_qty: Seq<u64>, start: int, qty: nat) -> nat {
    min_nat(qty, qty_total(tape_qty.skip(start)))
}

/// Quantity a whole schedule fills.
pub open spec fn schedule_fill(tape_qty: Seq<u64>, children: Seq<(usize, u64)>) -> nat
    decreases children.len(),
{
    if children.len() == 0 {
        0
    } else {
        schedule_fill(tape_qty, children.drop_last()) + child_fill(
            tape_qty,
            children.last().0 as int,
            children.last().1 as nat,
        )
    }
}


// ------------------------------------------------------------------ lemmas

proof fn lemma_qty_total_concat(a: Seq<u64>, b: Seq<u64>)
    ensures
        qty_total(a + b) == qty_total(a) + qty_total(b),
    decreases b.len(),
{
    if b.len() == 0 {
        assert(a + b =~= a);
    } else {
        lemma_qty_total_concat(a, b.drop_last());
        assert((a + b).drop_last() =~= a + b.drop_last());
    }
}

proof fn lemma_qty_total_front(s: Seq<u64>)
    requires
        s.len() > 0,
    ensures
        qty_total(s) == s[0] + qty_total(s.drop_first()),
{
    lemma_qty_total_concat(seq![s[0]], s.drop_first());
    assert(seq![s[0]] + s.drop_first() =~= s);
    assert(seq![s[0]].drop_last() =~= Seq::<u64>::empty());
    assert(qty_total(Seq::<u64>::empty()) == 0);
    assert(qty_total(seq![s[0]]) == qty_total(seq![s[0]].drop_last()) + seq![s[0]].last());
}

proof fn lemma_slices_total_concat(a: Seq<(usize, u64)>, b: Seq<(usize, u64)>)
    ensures
        slices_total(a + b) == slices_total(a) + slices_total(b),
    decreases b.len(),
{
    if b.len() == 0 {
        assert(a + b =~= a);
    } else {
        lemma_slices_total_concat(a, b.drop_last());
        assert((a + b).drop_last() =~= a + b.drop_last());
    }
}

/// Dropping zero children keeps the total and any bound on the starts.
proof fn lemma_drop_empty(s: Seq<(usize, u64)>, n: nat)
    requires
        forall|c: int| 0 <= c < s.len() ==> (#[trigger] s[c]).0 < n,
    ensures
        slices_total(drop_empty(s)) == slices_total(s),
        forall|c: int|
            0 <= c < drop_empty(s).len() ==> (#[trigger] drop_empty(s)[c]).0 < n
                && drop_empty(s)[c].1 > 0,
    decreases s.len(),
{
    if s.len() > 0 {
        let d = s.drop_last();
        assert forall|c: int| 0 <= c < d.len() implies (#[trigger] d[c]).0 < n by {
            assert(d[c] == s[c]);
        }
        lemma_drop_empty(d, n);
        if s.last().1 > 0 {
            assert(drop_empty(s).drop_last() =~= drop_empty(d));
        }
    }
}

/// Child `i < k` of a tape of `n > 0` ticks starts inside the tape.
proof fn lemma_slice_start_bound(i: int, n: nat, k: nat)
    requires
        0 <= i < k,
        n > 0,
    ensures
        0 <= slice_start(i, n, k) < n,
{
    let p = i * n;
    assert(p >= 0) by (nonlinear_arith)
        requires
            i >= 0,
            n >= 0,
            p == i * n,
    ;
    vstd::arithmetic::div_mod::lemma_fundamental_div_mod(p, k as int);
    let q = p / (k as int);
    let r = p % (k as int);
    vstd::arithmetic::div_mod::lemma_mod_bound(p, k as int);
    vstd::arithmetic::div_mod::lemma_div_pos_is_pos(p, k as int);
    assert(q < n) by (nonlinear_arith)
        requires
            p == i * n,
            p == (k as int) * q + r,
            0 <= r,
            0 <= i < k,
            n > 0,
    ;
}

/// `i * n` fits in `usize` for `i < k` when `(k - 1) * n` does.
proof fn lemma_start_product_fits(i: int, n: int, k: int)
    requires
        0 <= i < k,
        0 <= n,
        (k - 1) * n <= usize::MAX,
    ensures
        0 <= i * n <= usize::MAX,
{
    assert(0 <= i * n <= (k - 1) * n) by (nonlinear_arith)
        requires
            0 <= i <= k - 1,
            0 <= n,
    ;
}

/// The children of TWAP sum to the parent.
proof fn lemma_twap_raw_total(n: nat, parent: nat, k: nat, m: int)
    requires
        k > 0,
        0 <= m <= k,
        parent <= u64::MAX,
    ensures
        slices_total(twap_raw(n, parent, k).take(m)) == (parent / k) * m + min_nat(
            m as nat,
            parent % k,
        ),
    decreases m,
{
    let raw = twap_raw(n, parent, k);
    if m > 0 {
        lemma_twap_raw_total(n, parent, k, m - 1);
        assert(raw.take(m).drop_last() =~= raw.take(m - 1));
        assert(raw.take(m).last() == raw[m - 1]);
        let base = parent / k;
        assert(base * m == base * (m - 1) + base) by (nonlinear_arith);
        vstd::arithmetic::div_mod::lemma_fundamental_div_mod(parent as int, k as int);
        assert(base * k <= parent) by (nonlinear_arith)
            requires
                parent == k * base + parent % k,
                parent % k >= 0,
        ;
        assert(base <= parent) by (nonlinear_arith)
            requires
                base * k <= parent,
                k >= 1,
                base >= 0,
        ;
        vstd::arithmetic::div_mod::lemma_mod_bound(parent as int, k as int);
        if m - 1 < parent % k {
            assert(base + 1 <= u64::MAX) by (nonlinear_arith)
                requires
                    parent == k * base + parent % k,
                    parent % k >= 1,
                    parent % k < k,
                    parent <= u64::MAX,
                    base >= 0,
            ;
        }
    } else {
        assert(raw.take(0) =~= Seq::<(usize, u64)>::empty());
    }
}


/// The children of VWAP sum to the parent.
proof fn lemma_vwap_raw_total(n: nat, parent: nat, k: nat, head: Seq<u64>, m: int)
    requires
        k > 0,
        head.len() + 1 == k,
        parent <= u64::MAX,
        0 <= m <= k,
    ensures
        m < k ==> slices_total(vwap_raw(n, parent, k, head).take(m)) == vwap_assigned(
            parent,
            head,
            m,
        ),
        m == k ==> slices_total(vwap_raw(n, parent, k, head).take(m)) == parent,
    decreases m,
{
    let raw = vwap_raw(n, parent, k, head);
    if m > 0 {
        lemma_vwap_raw_total(n, parent, k, head, m - 1);
        assert(raw.take(m).drop_last() =~= raw.take(m - 1));
        assert(raw.take(m).last() == raw[m - 1]);
        if m < k {
            assert(head.take(m).drop_last() =~= head.take(m - 1));
        }
    } else {
        assert(raw.take(0) =~= Seq::<(usize, u64)>::empty());
        assert(head.take(0) =~= Seq::<u64>::empty());
    }
}

/// POV children never exceed what remains to be scheduled.
proof fn lemma_pov_from_total(i: nat, remaining: nat, per: nat, stride: nat, n: nat)
    requires
        remaining <= u64::MAX,
        per >= 1,
    ensures
        slices_total(pov_from(i, remaining, per, stride, n)) <= remaining,
        forall|c: int|
            0 <= c < pov_from(i, remaining, per, stride, n).len() ==> (#[trigger] pov_from(
                i,
                remaining,
                per,
                stride,
                n,
            )[c]).0 < n,
    decreases
            if i < n {
                n - i
            } else {
                0
            },
{
    let s = pov_from(i, remaining, per, stride, n);
    if remaining == 0 || i >= n || stride == 0 {
    } else {
        let q = min_nat(per, remaining);
        let rest = pov_from(i + stride, (remaining - q) as nat, per, stride, n);
        lemma_pov_from_total(i + stride, (remaining - q) as nat, per, stride, n);
        lemma_slices_total_concat(seq![(i as usize, q as u64)], rest);
        assert(seq![(i as usize, q as u64)].drop_last() =~= Seq::<(usize, u64)>::empty());
        assert(slices_total(Seq::<(usize, u64)>::empty()) == 0);
        assert(slices_total(seq![(i as usize, q as u64)]) == q);
        assert forall|c: int| 0 <= c < s.len() implies (#[trigger] s[c]).0 < n by {
            if c > 0 {
                assert(s[c] == rest[c - 1]);
            }
        }
    }
}

/// What a child takes sums to its quantity capped by the volume it walks over.
proof fn lemma_takes_total(ticks: Seq<u64>, qty: nat)
    ensures
        qty_total(takes_spec(ticks, qty)) == min_nat(qty, qty_total(ticks)),
    decreases ticks.len(),
{
    if qty == 0 || ticks.len() == 0 {
        assert(qty_total(Seq::<u64>::empty()) == 0);
    } else {
        let t = min_nat(ticks[0] as nat, qty);
        let rest = takes_spec(ticks.drop_first(), (qty - t) as nat);
        lemma_takes_total(ticks.drop_first(), (qty - t) as nat);
        lemma_qty_total_front(ticks);
        lemma_qty_total_front(seq![t as u64] + rest);
        assert((seq![t as u64] + rest).drop_first() =~= rest);
    }
}

/// A schedule fills at most its total quantity.
proof fn lemma_schedule_fill_bound(tape_qty: Seq<u64>, children: Seq<(usize, u64)>)
    ensures
        schedule_fill(tape_qty, children) <= slices_total(children),
    decreases children.len(),
{
    if children.len() > 0 {
        lemma_schedule_fill_bound(tape_qty, children.drop_last());
    }
}

/// Law: when the tape's volume from each child's start covers that child,
/// a schedule fills its whole quantity.
pub proof fn lemma_deep_tape_fills_schedule(tape_qty: Seq<u64>, children: Seq<(usize, u64)>)
    requires
        forall|c: int|
            0 <= c < children.len() ==> (#[trigger] children[c]).1 <= qty_total(
                tape_qty.skip(children[c].0 as int),
            ),
    ensures
        schedule_fill(tape_qty, children) == slices_total(children),
    decreases children.len(),
{
    if children.len() > 0 {
        let d = children.drop_last();
        assert forall|c: int| 0 <= c < d.len() implies (#[trigger] d[c]).1 <= qty_total(
            tape_qty.skip(d[c].0 as int),
        ) by {
            assert(d[c] == children[c]);
        }
        lemma_deep_tape_fills_schedule(tape_qty, d);
        assert(children.last() == children[children.len() - 1]);
    }
}

/// Shape of the POV children from index `i` on.
proof fn lemma_pov_from_shape(i: nat, rem: nat, per: nat, stride: nat, n: nat)
    requires
        per >= 1,
        stride >= 1,
        rem <= u64::MAX,
        n <= usize::MAX,
    ensures
        ({
            let s = pov_from(i, rem, per, stride, n);
            &&& forall|c: int|
                0 <= c < s.len() ==> (#[trigger] s[c]).0 == i + c * stride && 0 < s[c].1 <= per
            &&& forall|c: int| 0 <= c < s.len() - 1 ==> (#[trigger] s[c]).1 == per
            &&& slices_total(s) <= rem
            &&& slices_total(s) < rem ==> slices_total(s) == per * s.len() && i + s.len() * stride
                >= n
            &&& s.len() > 0 ==> i + (s.len() - 1) * stride < n
            &&& s.len() == 0 ==> rem == 0 || i >= n
        }),
    decreases
            if i < n {
                n - i
            } else {
                0
            },
{
    let s = pov_from(i, rem, per, stride, n);
    if rem == 0 || i >= n {
        assert(slices_total(Seq::<(usize, u64)>::empty()) == 0);
    } else {
        let q = min_nat(per, rem);
        let head = seq![(i as usize, q as u64)];
        let rest = pov_from(i + stride, (rem - q) as nat, per, stride, n);
        lemma_pov_from_shape(i + stride, (rem - q) as nat, per, stride, n);
        lemma_slices_total_concat(head, rest);
        assert(head.drop_last() =~= Seq::<(usize, u64)>::empty());
        assert(slices_total(Seq::<(usize, u64)>::empty()) == 0);
        assert(slices_total(head) == q);
        assert(s == head + rest);
        assert forall|c: int| 0 <= c < s.len() implies (#[trigger] s[c]).0 == i + c * stride
            && 0 < s[c].1 <= per by {
            if c > 0 {
                assert(s[c] == rest[c - 1]);
                assert((i + stride) + (c - 1) * stride == i + c * stride) by (nonlinear_arith);
            }
        }
        assert forall|c: int| 0 <= c < s.len() - 1 implies (#[trigger] s[c]).1 == per by {
            if c > 0 {
                assert(s[c] == rest[c - 1]);
            } else {
                assert(rest.len() > 0);
                assert(q == per);
            }
        }
        if rest.len() > 0 {
            assert((i + stride) + (rest.len() - 1) * stride == i + (s.len() - 1) * stride)
                by (nonlinear_arith)
                requires
                    s.len() == rest.len() + 1,
            ;
        }
        if slices_total(s) < rem {
            assert(q == per);
            assert(per + per * rest.len() == per * s.len()) by (nonlinear_arith)
                requires
                    s.len() == rest.len() + 1,
            ;
            if rest.len() == 0 {
                assert(i + stride >= n);
            }
            assert((i + stride) + rest.len() * stride == i + s.len() * stride) by (nonlinear_arith)
                requires
                    s.len() == rest.len() + 1,
            ;
        }
    }
}

proof fn lemma_drop_empty_positive(s: Seq<(usize, u64)>)
    requires
        forall|c: int| 0 <= c < s.len() ==> (#[trigger] s[c]).1 > 0,
    ensures
        drop_empty(s) == s,
    decreases s.len(),
{
    if s.len() > 0 {
        let d = s.drop_last();
        assert forall|c: int| 0 <= c < d.len() implies (#[trigger] d[c]).1 > 0 by {
            assert(d[c] == s[c]);
        }
        lemma_drop_empty_positive(d);
        assert(d.push(s.last()) =~= s);
    }
}

/// Law (POV schedules until done): POV children start at the tape's start
/// and every `stride` ticks after, each takes the per-slice quantity (the
/// last may take less) and never more; POV keeps scheduling until the parent
/// is fully scheduled or the next start would be past the tape. So when the
/// per-slice quantity times the number of starts inside the tape,
/// `ceil(n / stride)`, covers the parent, the schedule totals exactly the
/// parent.
pub proof fn lemma_pov_schedules_until_done(
    tape_len: usize,
    parent_qty: u64,
    n_slices: usize,
    budget: u64,
)
    ensures
        ({
            let s = pov_spec(tape_len, parent_qty, n_slices, budget);
            let per = pov_per_slice(parent_qty, n_slices, budget);
            let stride = pov_stride(tape_len, n_slices);
            let n = at_least_one(tape_len as nat);
            &&& forall|c: int|
                0 <= c < s.len() ==> (#[trigger] s[c]).0 == c * stride && 0 < s[c].1 <= per
            &&& forall|c: int| 0 <= c < s.len() - 1 ==> (#[trigger] s[c]).1 == per
            &&& s.len() > 0 ==> (s.len() - 1) * stride < n
            &&& slices_total(s) <= parent_qty
            &&& slices_total(s) < parent_qty ==> s.len() * stride >= n
            &&& per * ((n + stride - 1) / (stride as int)) >= parent_qty ==> slices_total(s)
                == parent_qty
        }),
{
    let per = pov_per_slice(parent_qty, n_slices, budget);
    let stride = pov_stride(tape_len, n_slices);
    let n = at_least_one(tape_len as nat);
    let raw = pov_from(0, parent_qty as nat, per, stride, n);
    lemma_pov_from_shape(0, parent_qty as nat, per, stride, n);
    lemma_drop_empty_positive(raw);
    let s = pov_spec(tape_len, parent_qty, n_slices, budget);
    assert(s == raw);
    let len = s.len() as int;
    if slices_total(s) < parent_qty {
        assert(len > 0);
        let x = n + stride - 1;
        vstd::arithmetic::div_mod::lemma_fundamental_div_mod(x as int, stride as int);
        vstd::arithmetic::div_mod::lemma_mod_bound(x as int, stride as int);
        let qq = x as int / stride as int;
        let r = x as int % stride as int;
        assert(qq == len) by (nonlinear_arith)
            requires
                x == stride * qq + r,
                0 <= r < stride,
                len * stride >= n,
                (len - 1) * stride < n,
                x == n + stride - 1,
                stride >= 1,
                len >= 1,
        ;
        assert(per * ((n + stride - 1) / (stride as int)) == per * len);
    }
}

// ------------------------------------------------------------------ schedules

/// The schedule without its zero-quantity children.
fn drop_empty_slices(v: Vec<(usize, u64)>) -> (r: Vec<(usize, u64)>)
    ensures
        r@ == drop_empty(v@),
{
    let mut r: Vec<(usize, u64)> = Vec::new();
    let mut i: usize = 0;
    while i < v.len()
        invariant
            i <= v@.len(),
            r@ == drop_empty(v@.take(i as int)),
        decreases v@.len() - i,
    {
        proof {
            assert(v@.take(i + 1).drop_last() =~= v@.take(i as int));
        }
        let c = v[i];
        if c.1 > 0 {
            r.push(c);
        }
        i += 1;
    }
    proof {
        assert(v@.take(i as int) =~= v@);
    }
    r
}

/// TWAP: the parent split evenly over `max(n_slices, 1)` children at evenly
/// spaced starts, remainder one unit each to the first children.
pub fn twap_slices(tape_len: usize, parent_qty: u64, n_slices: usize) -> (out: Vec<(usize, u64)>)
    requires
        (at_least_one(n_slices as nat) - 1) * at_least_one(tape_len as nat) <= usize::MAX,
    ensures
        out@ == twap_spec(tape_len, parent_qty, n_slices),
        slices_total(out@) == parent_qty,
        forall|c: int|
            0 <= c < out@.len() ==> (#[trigger] out@[c]).0 < at_least_one(tape_len as nat)
                && out@[c].1 > 0,
{
    let n: usize = if tape_len == 0 {
        1
    } else {
        tape_len
    };
    let k: usize = if n_slices == 0 {
        1
    } else {
        n_slices
    };
    let ghost raw = twap_raw(n as nat, parent_qty as nat, k as nat);
    let base: u64 = parent_qty / (k as u64);
    let rem: u64 = parent_qty % (k as u64);
    let mut out: Vec<(usize, u64)> = Vec::new();
    let mut i: usize = 0;
    while i < k
        invariant
            n == at_least_one(tape_len as nat),
            k == at_least_one(n_slices as nat),
            raw == twap_raw(n as nat, parent_qty as nat, k as nat),
            (k - 1) * n <= usize::MAX,
            base == parent_qty / (k as u64),
            rem == parent_qty % (k as u64),
            i <= k,
            out@ == raw.take(i as int),
        decreases k - i,
    {
        proof {
            lemma_start_product_fits(i as int, n as int, k as int);
            vstd::arithmetic::div_mod::lemma_fundamental_div_mod(parent_qty as int, k as int);
            vstd::arithmetic::div_mod::lemma_mod_bound(parent_qty as int, k as int);
            if (i as u64) < rem {
                assert(base + 1 <= u64::MAX) by (nonlinear_arith)
                    requires
                        parent_qty == k * base + rem,
                        rem >= 1,
                        rem < k,
                        base >= 0,
                ;
            }
        }
        let idx = i * n / k;
        let extra: u64 = if (i as u64) < rem {
            1
        } else {
            0
        };
        out.push((idx, base + extra));
        proof {
            assert(out@ =~= raw.take(i + 1));
        }
        i += 1;
    }
    proof {
        assert(raw.take(k as int) =~= raw);
        lemma_twap_raw_total(n as nat, parent_qty as nat, k as nat, k as int);
        vstd::arithmetic::div_mod::lemma_fundamental_div_mod(parent_qty as int, k as int);
        vstd::arithmetic::div_mod::lemma_mod_bound(parent_qty as int, k as int);
        assert forall|c: int| 0 <= c < raw.len() implies (#[trigger] raw[c]).0 < n by {
            lemma_slice_start_bound(c, n as nat, k as nat);
        }
        lemma_drop_empty(raw, n as nat);
    }
    drop_empty_slices(out)
}

/// The tick ranges whose volumes weigh the VWAP children, one per child.
pub fn vwap_buckets(tape_len: usize, n_slices: usize) -> (out: Vec<(usize, usize)>)
    requires
        tape_len > 0,
        at_least_one(n_slices as nat) * at_least_one(tape_len as nat) <= usize::MAX,
    ensures
        out@ == Seq::new(
            at_least_one(n_slices as nat),
            |i: int|
                vwap_bucket(i, at_least_one(tape_len as nat), at_least_one(n_slices as nat)),
        ),
        forall|c: int|
            0 <= c < out@.len() ==> (#[trigger] out@[c]).0 < out@[c].1 <= at_least_one(
                tape_len as nat,
            ),
{
    let n: usize = if tape_len == 0 {
        1
    } else {
        tape_len
    };
    let k: usize = if n_slices == 0 {
        1
    } else {
        n_slices
    };
    let ghost goal = Seq::new(k as nat, |i: int| vwap_bucket(i, n as nat, k as nat));
    let mut out: Vec<(usize, usize)> = Vec::new();
    let mut i: usize = 0;
    while i < k
        invariant
            n == at_least_one(tape_len as nat),
            k == at_least_one(n_slices as nat),
            k * n <= usize::MAX,
            goal == Seq::new(k as nat, |i: int| vwap_bucket(i, n as nat, k as nat)),
            i <= k,
            out@ == goal.take(i as int),
            forall|c: int| 0 <= c < i ==> (#[trigger] out@[c]).0 < out@[c].1 <= n,
        decreases k - i,
    {
        proof {
            lemma_start_product_fits(i + 1, n as int, k as int + 1);
            lemma_start_product_fits(i as int, n as int, k as int + 1);
            lemma_slice_start_bound(i as int, n as nat, k as nat);
        }
        let lo = i * n / k;
        let next = (i + 1) * n / k;
        let hi = if next > lo + 1 {
            next
        } else {
            lo + 1
        };
        let lo_capped = if lo < n {
            lo
        } else {
            n
        };
        let hi_capped = if hi < n {
            hi
        } else {
            n
        };
        out.push((lo_capped, hi_capped));
        proof {
            assert(out@ =~= goal.take(i + 1));
        }
        i += 1;
    }
    proof {
        assert(goal.take(k as int) =~= goal);
    }
    out
}

/// VWAP: `max(n_slices, 1)` children at evenly spaced starts; each of all
/// but the last takes its quantity in `head`, capped at what is left of the
/// parent, and the last takes all that is left, so the children always sum
/// to the parent.
pub fn vwap_slices(tape_len: usize, parent_qty: u64, n_slices: usize, head: &Vec<u64>) -> (out: Vec<
    (usize, u64),
>)
    requires
        tape_len > 0,
        head@.len() + 1 == at_least_one(n_slices as nat),
        (at_least_one(n_slices as nat) - 1) * at_least_one(tape_len as nat) <= usize::MAX,
    ensures
        out@ == vwap_spec(tape_len, parent_qty, n_slices, head@),
        slices_total(out@) == parent_qty,
        forall|c: int|
            0 <= c < out@.len() ==> (#[trigger] out@[c]).0 < at_least_one(tape_len as nat)
                && out@[c].1 > 0,
{
    let n: usize = if tape_len == 0 {
        1
    } else {
        tape_len
    };
    let k: usize = if n_slices == 0 {
        1
    } else {
        n_slices
    };
    let ghost raw = vwap_raw(n as nat, parent_qty as nat, k as nat, head@);
    let mut assigned: u64 = 0;
    let mut out: Vec<(usize, u64)> = Vec::new();
    let mut i: usize = 0;
    while i < k
        invariant
            n == at_least_one(tape_len as nat),
            k == at_least_one(n_slices as nat),
            raw == vwap_raw(n as nat, parent_qty as nat, k as nat, head@),
            (k - 1) * n <= usize::MAX,
            head@.len() + 1 == k,
            i <= k,
            i < k ==> assigned == vwap_assigned(parent_qty as nat, head@, i as int),
            assigned <= parent_qty,
            out@ == raw.take(i as int),
        decreases k - i,
    {
        proof {
            lemma_start_product_fits(i as int, n as int, k as int);
        }
        let idx = i * n / k;
        if i == k - 1 {
            out.push((idx, parent_qty - assigned));
        } else {
            let left = parent_qty - assigned;
            let q = if head[i] < left {
                head[i]
            } else {
                left
            };
            proof {
                assert(head@.take(i + 1).drop_last() =~= head@.take(i as int));
            }
            assigned = assigned + q;
            out.push((idx, q));
        }
        proof {
            assert(out@ =~= raw.take(i + 1));
        }
        i += 1;
    }
    proof {
        assert(raw.take(k as int) =~= raw);
        lemma_vwap_raw_total(n as nat, parent_qty as nat, k as nat, head@, k as int);
        assert forall|c: int| 0 <= c < raw.len() implies (#[trigger] raw[c]).0 < n by {
            lemma_slice_start_bound(c, n as nat, k as nat);
        }
        lemma_drop_empty(raw, n as nat);
    }
    drop_empty_slices(out)
}

/// POV: children of `max(min(budget, parent_qty) / max(n_slices, 1), 1)` from
/// the start of the tape, `max(tape_len / max(n_slices, 1), 1)` ticks apart,
/// until the parent is scheduled or the tape ends; the last child may be
/// smaller.
pub fn pov_slices(tape_len: usize, parent_qty: u64, n_slices: usize, budget: u64) -> (out: Vec<
    (usize, u64),
>)
    requires
        tape_len <= isize::MAX,
    ensures
        out@ == pov_spec(tape_len, parent_qty, n_slices, budget),
        slices_total(out@) <= parent_qty,
        forall|c: int|
            0 <= c < out@.len() ==> (#[trigger] out@[c]).0 < at_least_one(tape_len as nat)
                && out@[c].1 > 0,
{
    let n: usize = if tape_len == 0 {
        1
    } else {
        tape_len
    };
    let k: usize = if n_slices == 0 {
        1
    } else {
        n_slices
    };
    let capped: u64 = if budget < parent_qty {
        budget
    } else {
        parent_qty
    };
    let per0: u64 = capped / (k as u64);
    let per: u64 = if per0 == 0 {
        1
    } else {
        per0
    };
    let stride0: usize = n / k;
    let stride: usize = if stride0 == 0 {
        1
    } else {
        stride0
    };
    let ghost goal = pov_from(0, parent_qty as nat, per as nat, stride as nat, n as nat);
    let mut out: Vec<(usize, u64)> = Vec::new();
    let mut remaining: u64 = parent_qty;
    let mut i: usize = 0;
    while remaining > 0 && i < n
        invariant
            n == at_least_one(tape_len as nat),
            n <= isize::MAX,
            per >= 1,
            1 <= stride <= n,
            goal == pov_from(0, parent_qty as nat, per as nat, stride as nat, n as nat),
            out@ + pov_from(i as nat, remaining as nat, per as nat, stride as nat, n as nat)
                == goal,
        decreases
                if i < n {
                    n - i
                } else {
                    0
                },
    {
        let q: u64 = if per < remaining {
            per
        } else {
            remaining
        };
        let ghost before = out@;
        let ghost rest = pov_from(
            (i + stride) as nat,
            (remaining - q) as nat,
            per as nat,
            stride as nat,
            n as nat,
        );
        out.push((i, q));
        remaining = remaining - q;
        proof {
            assert(out@ + rest =~= before + (seq![(i, q)] + rest));
        }
        i = i + stride;
    }
    proof {
        assert(out@ + pov_from(i as nat, remaining as nat, per as nat, stride as nat, n as nat)
            =~= out@);
        lemma_pov_from_total(0, parent_qty as nat, per as nat, stride as nat, n as nat);
        lemma_drop_empty(goal, n as nat);
    }
    drop_empty_slices(out)
}

// ------------------------------------------------------------------ fills

/// What one child order filled, and what it took from each tick it walked.
#[derive(Debug)]
pub struct ChildFill {
    pub filled: u64,
    pub takes: Vec<u64>,
}

/// Fills a child `(start, qty)` by taking tape volume forward from `start`
/// until it is filled or the tape ends.
pub fn fill_child(tape_qty: &Vec<u64>, start: usize, qty: u64) -> (f: ChildFill)
    requires
        start <= tape_qty@.len(),
    ensures
        f.takes@ == takes_spec(tape_qty@.skip(start as int), qty as nat),
        f.filled == qty_total(f.takes@),
        f.filled == child_fill(tape_qty@, start as int, qty as nat),
{
    let ghost goal = takes_spec(tape_qty@.skip(start as int), qty as nat);
    let mut takes: Vec<u64> = Vec::new();
    let mut filled: u64 = 0;
    let mut left: u64 = qty;
    let mut i: usize = start;
    while i < tape_qty.len() && left > 0
        invariant
            start <= i <= tape_qty@.len(),
            goal == takes_spec(tape_qty@.skip(start as int), qty as nat),
            takes@ + takes_spec(tape_qty@.skip(i as int), left as nat) == goal,
            filled == qty_total(takes@),
            filled + left == qty,
        decreases tape_qty@.len() - i,
    {
        let t = tape_qty[i];
        let take: u64 = if t < left {
            t
        } else {
            left
        };
        let ghost before = takes@;
        let ghost rest = takes_spec(tape_qty@.skip(i + 1), (left - take) as nat);
        proof {
            assert(tape_qty@.skip(i as int).drop_first() =~= tape_qty@.skip(i + 1));
            assert(tape_qty@.skip(i as int)[0] == t);
        }
        takes.push(take);
        filled = filled + take;
        left = left - take;
        proof {
            assert(takes@.drop_last() =~= before);
            assert(takes@ + rest =~= before + (seq![take] + rest));
        }
        i += 1;
    }
    proof {
        if i == tape_qty.len() {
            assert(tape_qty@.skip(i as int) =~= Seq::<u64>::empty());
        }
        assert(takes@ + takes_spec(tape_qty@.skip(i as int), left as nat) =~= takes@);
        lemma_takes_total(tape_qty@.skip(start as int), qty as nat);
    }
    ChildFill { filled, takes }
}

/// The fills of a whole schedule and the total filled.
#[derive(Debug)]
pub struct Execution {
    pub fills: Vec<ChildFill>,
    pub filled_qty: u64,
}

/// Fills every child of a schedule in turn.
pub fn execute_schedule(tape_qty: &Vec<u64>, children: &Vec<(usize, u64)>) -> (e: Execution)
    requires
        forall|c: int| 0 <= c < children@.len() ==> (#[trigger] children@[c]).0 <= tape_qty@.len(),
        schedule_fill(tape_qty@, children@) <= u64::MAX,
    ensures
        e.fills@.len() == children@.len(),
        forall|c: int|
            0 <= c < children@.len() ==> (#[trigger] e.fills@[c]).takes@ == takes_spec(
                tape_qty@.skip(children@[c].0 as int),
                children@[c].1 as nat,
            ) && e.fills@[c].filled == child_fill(
                tape_qty@,
                children@[c].0 as int,
                children@[c].1 as nat,
            ),
        e.filled_qty == schedule_fill(tape_qty@, children@),
        e.filled_qty <= slices_total(children@),
{
    let mut fills: Vec<ChildFill> = Vec::new();
    let mut total: u64 = 0;
    let mut c: usize = 0;
    while c < children.len()
        invariant
            c <= children@.len(),
            forall|d: int|
                0 <= d < children@.len() ==> (#[trigger] children@[d]).0 <= tape_qty@.len(),
            schedule_fill(tape_qty@, children@) <= u64::MAX,
            fills@.len() == c,
            forall|d: int|
                0 <= d < c ==> (#[trigger] fills@[d]).takes@ == takes_spec(
                    tape_qty@.skip(children@[d].0 as int),
                    children@[d].1 as nat,
                ) && fills@[d].filled == child_fill(
                    tape_qty@,
                    children@[d].0 as int,
                    children@[d].1 as nat,
                ),
            total == schedule_fill(tape_qty@, children@.take(c as int)),
        decreases children@.len() - c,
    {
        let (start, qty) = children[c];
        let f = fill_child(tape_qty, start, qty);
        proof {
            let pre = children@.take(c + 1);
            assert(pre.drop_last() =~= children@.take(c as int));
            assert(pre.last() == children@[c as int]);
            lemma_schedule_fill_prefix(tape_qty@, children@, c + 1);
        }
        total = total + f.filled;
        fills.push(f);
        c += 1;
    }
    proof {
        assert(children@.take(c as int) =~= children@);
        lemma_schedule_fill_bound(tape_qty@, children@);
    }
    Execution { fills, filled_qty: total }
}

proof fn lemma_schedule_fill_prefix(tape_qty: Seq<u64>, children: Seq<(usize, u64)>, i: int)
    requires
        0 <= i <= children.len(),
    ensures
        schedule_fill(tape_qty, children.take(i)) <= schedule_fill(tape_qty, children),
    decreases children.len(),
{
    if i < children.len() {
        assert(children.drop_last().take(i) =~= children.take(i));
        lemma_schedule_fill_prefix(tape_qty, children.drop_last(), i);
    } else {
        assert(children.take(i) =~= children);
    }
}

} // verus!
