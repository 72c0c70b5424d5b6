//! The model of a search-tree cumulative map: its entries in key order,
//! each a key with the value accumulated there.
use vstd::prelude::*;

use crate::sums::{in_i64, lemma_range_shift, lemma_range_split, range_sum, sums_fit};

verus! {

/// The values of the entries, in order.
pub open spec fn vals(es: Seq<(int, int)>) -> Seq<int> {
    Seq::new(es.len(), |i: int| es[i].1)
}

/// The sum of every value.
pub open spec fn total(es: Seq<(int, int)>) -> int {
    range_sum(vals(es), 0, es.len() as int)
}

/// Every key is below `b`.
pub open spec fn keys_below(es: Seq<(int, int)>, b: int) -> bool {
    forall|i: int| 0 <= i < es.len() ==> #[trigger] es[i].0 < b
}

/// Every key is above `b`.
pub open spec fn keys_above(es: Seq<(int, int)>, b: int) -> bool {
    forall|i: int| 0 <= i < es.len() ==> #[trigger] es[i].0 > b
}

/// The keys strictly increase.
pub open spec fn sorted(es: Seq<(int, int)>) -> bool {
    forall|i: int, j: int| 0 <= i < j < es.len() ==> #[trigger] es[i].0 < #[trigger] es[j].0
}

/// The sum of the values at keys up to and including `x`.
pub open spec fn cuml(es: Seq<(int, int)>, x: int) -> int
    decreases es.len(),
{
    if es.len() == 0 {
        0
    } else {
        cuml(es.drop_last(), x) + (if es.last().0 <= x {
            es.last().1
        } else {
            0
        })
    }
}

/// The sum of the values at exactly `x`.
pub open spec fn single(es: Seq<(int, int)>, x: int) -> int
    decreases es.len(),
{
    if es.len() == 0 {
        0
    } else {
        single(es.drop_last(), x) + (if es.last().0 == x {
            es.last().1
        } else {
            0
        })
    }
}

/// The entries once `v` is added at key `k`: to its entry if there is one,
/// else as a new entry before the first larger key.
pub open spec fn add_entry(es: Seq<(int, int)>, k: int, v: int) -> Seq<(int, int)>
    decreases es.len(),
{
    if es.len() == 0 {
        seq![(k, v)]
    } else if es[0].0 == k {
        es.update(0, (k, es[0].1 + v))
    } else if k < es[0].0 {
        seq![(k, v)] + es
    } else {
        seq![es[0]] + add_entry(es.drop_first(), k, v)
    }
}

/// The key of the first entry at which `acc` plus the running sum of the
/// values reaches `t`, if any does.
pub open spec fn first_reach(es: Seq<(int, int)>, acc: int, t: int) -> Option<int>
    decreases es.len(),
{
    if es.len() == 0 {
        None
    } else if acc + es[0].1 >= t {
        Some(es[0].0)
    } else {
        first_reach(es.drop_first(), acc + es[0].1, t)
    }
}

pub proof fn lemma_vals_concat(a: Seq<(int, int)>, b: Seq<(int, int)>)
    ensures
        vals(a + b) == vals(a) + vals(b),
{
    assert(vals(a + b) =~= vals(a) + vals(b));
}

pub proof fn lemma_total_concat(a: Seq<(int, int)>, b: Seq<(int, int)>)
    ensures
        total(a + b) == total(a) + total(b),
{
    lemma_vals_concat(a, b);
    let s = vals(a) + vals(b);
    lemma_range_split(s, 0, a.len() as int, (a.len() + b.len()) as int);
    lemma_range_shift(vals(a), s, 0, 0, a.len() as int);
    lemma_range_shift(vals(b), s, a.len() as int, 0, b.len() as int);
}

/// The total of a node's entries: its left part, its own value, its right
/// part.
pub proof fn lemma_total_node(l: Seq<(int, int)>, m: (int, int), r: Seq<(int, int)>)
    ensures
        total(l + seq![m] + r) == total(l) + m.1 + total(r),
{
    lemma_total_concat(l + seq![m], r);
    lemma_total_concat(l, seq![m]);
    assert(total(seq![m]) == range_sum(vals(seq![m]), 0, 0) + m.1);
}

pub proof fn lemma_cuml_concat(a: Seq<(int, int)>, b: Seq<(int, int)>, x: int)
    ensures
        cuml(a + b, x) == cuml(a, x) + cuml(b, x),
    decreases b.len(),
{
    if b.len() > 0 {
        assert((a + b).drop_last() =~= a + b.drop_last());
        lemma_cuml_concat(a, b.drop_last(), x);
    } else {
        assert(a + b =~= a);
    }
}

pub proof fn lemma_single_concat(a: Seq<(int, int)>, b: Seq<(int, int)>, x: int)
    ensures
        single(a + b, x) == single(a, x) + single(b, x),
    decreases b.len(),
{
    if b.len() > 0 {
        assert((a + b).drop_last() =~= a + b.drop_last());
        lemma_single_concat(a, b.drop_last(), x);
    } else {
        assert(a + b =~= a);
    }
}

/// No key at or below `x`: nothing counts.
pub proof fn lemma_cuml_above(es: Seq<(int, int)>, x: int)
    requires
        keys_above(es, x),
    ensures
        cuml(es, x) == 0,
    decreases es.len(),
{
    if es.len() > 0 {
        lemma_cuml_above(es.drop_last(), x);
    }
}

/// Every key at or below `x`: everything counts.
pub proof fn lemma_cuml_below(es: Seq<(int, int)>, x: int)
    requires
        forall|i: int| 0 <= i < es.len() ==> #[trigger] es[i].0 <= x,
    ensures
        cuml(es, x) == total(es),
    decreases es.len(),
{
    if es.len() > 0 {
        let d = es.drop_last();
        lemma_cuml_below(d, x);
        assert(es =~= d + seq![es.last()]);
        lemma_total_concat(d, seq![es.last()]);
        assert(total(seq![es.last()]) == range_sum(vals(seq![es.last()]), 0, 0) + es.last().1);
    }
}

/// No key equal to `x`: nothing is held there.
pub proof fn lemma_single_absent(es: Seq<(int, int)>, x: int)
    requires
        forall|i: int| 0 <= i < es.len() ==> #[trigger] es[i].0 != x,
    ensures
        single(es, x) == 0,
    decreases es.len(),
{
    if es.len() > 0 {
        lemma_single_absent(es.drop_last(), x);
    }
}

/// Adding at a key before every key of `b` leaves `b` as it is.
pub proof fn lemma_add_before(a: Seq<(int, int)>, b: Seq<(int, int)>, k: int, v: int)
    requires
        keys_above(b, k),
    ensures
        add_entry(a + b, k, v) == add_entry(a, k, v) + b,
    decreases a.len(),
{
    if a.len() == 0 {
        assert(a + b =~= b);
        if b.len() > 0 {
            assert(b[0].0 > k);
        }
    } else {
        assert((a + b)[0] == a[0]);
        assert((a + b).drop_first() =~= a.drop_first() + b);
        lemma_add_before(a.drop_first(), b, k, v);
        if a[0].0 == k {
            assert((a + b).update(0, (k, a[0].1 + v)) =~= a.update(0, (k, a[0].1 + v)) + b);
        } else if k < a[0].0 {
            assert(seq![(k, v)] + (a + b) =~= (seq![(k, v)] + a) + b);
        } else {
            assert(seq![a[0]] + (add_entry(a.drop_first(), k, v) + b) =~= (seq![a[0]]
                + add_entry(a.drop_first(), k, v)) + b);
        }
    }
}

/// Adding at a key after every key of `a` leaves `a` as it is.
pub proof fn lemma_add_after(a: Seq<(int, int)>, b: Seq<(int, int)>, k: int, v: int)
    requires
        keys_below(a, k),
    ensures
        add_entry(a + b, k, v) == a + add_entry(b, k, v),
    decreases a.len(),
{
    if a.len() == 0 {
        assert(a + b =~= b);
    } else {
        assert((a + b)[0] == a[0]);
        assert(a[0].0 < k);
        assert((a + b).drop_first() =~= a.drop_first() + b);
        lemma_add_after(a.drop_first(), b, k, v);
        assert(seq![a[0]] + (a.drop_first() + add_entry(b, k, v)) =~= a + add_entry(b, k, v));
    }
}

/// Adding at a key below `hi` keeps every key below `hi`.
pub proof fn lemma_add_keys_below(es: Seq<(int, int)>, k: int, v: int, hi: int)
    requires
        k < hi,
        keys_below(es, hi),
    ensures
        keys_below(add_entry(es, k, v), hi),
    decreases es.len(),
{
    if es.len() > 0 && es[0].0 != k && !(k < es[0].0) {
        lemma_add_keys_below(es.drop_first(), k, v, hi);
        let r = add_entry(es.drop_first(), k, v);
        assert forall|i: int| 0 <= i < r.len() + 1 implies #[trigger] (seq![es[0]] + r)[i].0
            < hi by {
            if i > 0 {
                assert((seq![es[0]] + r)[i] == r[i - 1]);
            }
        }
    } else if es.len() > 0 && k < es[0].0 {
        assert forall|i: int| 0 <= i < es.len() + 1 implies #[trigger] (seq![(k, v)] + es)[i].0
            < hi by {
            if i > 0 {
                assert((seq![(k, v)] + es)[i] == es[i - 1]);
            }
        }
    }
}

/// Adding at a key above `lo` keeps every key above `lo`.
pub proof fn lemma_add_keys_above(es: Seq<(int, int)>, k: int, v: int, lo: int)
    requires
        lo < k,
        keys_above(es, lo),
    ensures
        keys_above(add_entry(es, k, v), lo),
    decreases es.len(),
{
    if es.len() > 0 && es[0].0 != k && !(k < es[0].0) {
        lemma_add_keys_above(es.drop_first(), k, v, lo);
        let r = add_entry(es.drop_first(), k, v);
        assert forall|i: int| 0 <= i < r.len() + 1 implies #[trigger] (seq![es[0]] + r)[i].0
            > lo by {
            if i > 0 {
                assert((seq![es[0]] + r)[i] == r[i - 1]);
            }
        }
    } else if es.len() > 0 && k < es[0].0 {
        assert forall|i: int| 0 <= i < es.len() + 1 implies #[trigger] (seq![(k, v)] + es)[i].0
            > lo by {
            if i > 0 {
                assert((seq![(k, v)] + es)[i] == es[i - 1]);
            }
        }
    }
}

/// Adding `v` adds `v` to the total.
pub proof fn lemma_add_total(es: Seq<(int, int)>, k: int, v: int)
    ensures
        total(add_entry(es, k, v)) == total(es) + v,
    decreases es.len(),
{
    if es.len() == 0 {
        assert(total(seq![(k, v)]) == range_sum(vals(seq![(k, v)]), 0, 0) + v);
    } else {
        let d = es.drop_first();
        let h = seq![es[0]];
        assert(es =~= h + d);
        lemma_total_concat(h, d);
        assert(total(h) == range_sum(vals(h), 0, 0) + es[0].1);
        if es[0].0 == k {
            let h2 = seq![(k, es[0].1 + v)];
            assert(es.update(0, (k, es[0].1 + v)) =~= h2 + d);
            lemma_total_concat(h2, d);
            assert(total(h2) == range_sum(vals(h2), 0, 0) + es[0].1 + v);
        } else if k < es[0].0 {
            let h2 = seq![(k, v)];
            lemma_total_concat(h2, es);
            assert(total(h2) == range_sum(vals(h2), 0, 0) + v);
        } else {
            lemma_add_total(d, k, v);
            lemma_total_concat(h, add_entry(d, k, v));
        }
    }
}

/// Every sum of consecutive values fits, and the first `j` values added to
/// `acc` fit, for each `j`.
pub open spec fn prefixes_fit(es: Seq<(int, int)>, acc: int) -> bool {
    forall|j: int| 0 <= j <= es.len() ==> in_i64(acc + #[trigger] range_sum(vals(es), 0, j))
}

/// What fitting sums give for the parts of a node.
pub proof fn lemma_fit_node(l: Seq<(int, int)>, m: (int, int), r: Seq<(int, int)>)
    requires
        sums_fit(vals(l + seq![m] + r)),
    ensures
        sums_fit(vals(l)),
        sums_fit(vals(r)),
        in_i64(m.1),
        in_i64(total(l) + m.1),
        in_i64(m.1 + total(r)),
        in_i64(total(l) + m.1 + total(r)),
        prefixes_fit(l + seq![m] + r, 0),
{
    let es = l + seq![m] + r;
    let s = vals(es);
    let nl = l.len() as int;
    let n = s.len() as int;
    lemma_vals_concat(l + seq![m], r);
    lemma_vals_concat(l, seq![m]);
    assert(s[nl] == m.1);
    assert forall|lo: int, hi: int| 0 <= lo <= hi <= l.len() implies in_i64(
        #[trigger] range_sum(vals(l), lo, hi),
    ) by {
        lemma_range_shift(vals(l), s, 0, lo, hi);
        assert(in_i64(range_sum(s, lo, hi)));
    }
    assert forall|lo: int, hi: int| 0 <= lo <= hi <= r.len() implies in_i64(
        #[trigger] range_sum(vals(r), lo, hi),
    ) by {
        lemma_range_shift(vals(r), s, nl + 1, lo, hi);
        assert(in_i64(range_sum(s, lo + nl + 1, hi + nl + 1)));
    }
    lemma_range_shift(vals(l), s, 0, 0, nl);
    lemma_range_shift(vals(r), s, nl + 1, 0, r.len() as int);
    lemma_range_split(s, 0, nl, nl + 1);
    lemma_range_split(s, nl, nl + 1, n);
    lemma_range_split(s, 0, nl + 1, n);
    assert(range_sum(s, nl, nl + 1) == range_sum(s, nl, nl) + s[nl]);
    assert(in_i64(range_sum(s, nl, nl + 1)));
    assert(in_i64(range_sum(s, 0, nl + 1)));
    assert(in_i64(range_sum(s, nl, n)));
    assert(in_i64(range_sum(s, 0, n)));
    assert forall|j: int| 0 <= j <= es.len() implies in_i64(
        0 + #[trigger] range_sum(vals(es), 0, j),
    ) by {
        assert(in_i64(range_sum(s, 0, j)));
    }
}

/// What fitting prefixes give for the parts of a node.
pub proof fn lemma_prefixes_node(l: Seq<(int, int)>, m: (int, int), r: Seq<(int, int)>, acc: int)
    requires
        prefixes_fit(l + seq![m] + r, acc),
    ensures
        prefixes_fit(l, acc),
        in_i64(acc + total(l) + m.1),
        prefixes_fit(r, acc + total(l) + m.1),
{
    let es = l + seq![m] + r;
    let s = vals(es);
    let nl = l.len() as int;
    lemma_vals_concat(l + seq![m], r);
    lemma_vals_concat(l, seq![m]);
    assert(s[nl] == m.1);
    assert forall|j: int| 0 <= j <= l.len() implies in_i64(
        acc + #[trigger] range_sum(vals(l), 0, j),
    ) by {
        lemma_range_shift(vals(l), s, 0, 0, j);
        assert(in_i64(acc + range_sum(s, 0, j)));
    }
    lemma_range_shift(vals(l), s, 0, 0, nl);
    assert(range_sum(s, 0, nl + 1) == range_sum(s, 0, nl) + s[nl]);
    assert(in_i64(acc + range_sum(s, 0, nl + 1)));
    assert forall|j: int| 0 <= j <= r.len() implies in_i64(
        (acc + total(l) + m.1) + #[trigger] range_sum(vals(r), 0, j),
    ) by {
        lemma_range_shift(vals(r), s, nl + 1, 0, j);
        lemma_range_split(s, 0, nl + 1, nl + 1 + j);
        assert(in_i64(acc + range_sum(s, 0, nl + 1 + j)));
    }
}

/// The first entry reached in two parts: in the first part, or else in the
/// second with the first part's total added.
pub proof fn lemma_reach_concat(a: Seq<(int, int)>, b: Seq<(int, int)>, acc: int, t: int)
    ensures
        first_reach(a + b, acc, t) == (match first_reach(a, acc, t) {
            Some(k) => Some(k),
            None => first_reach(b, acc + total(a), t),
        }),
    decreases a.len(),
{
    if a.len() == 0 {
        assert(a + b =~= b);
        assert(total(a) == 0);
    } else {
        assert((a + b)[0] == a[0]);
        assert((a + b).drop_first() =~= a.drop_first() + b);
        lemma_reach_concat(a.drop_first(), b, acc + a[0].1, t);
        assert(a =~= seq![a[0]] + a.drop_first());
        lemma_total_concat(seq![a[0]], a.drop_first());
        assert(total(seq![a[0]]) == range_sum(vals(seq![a[0]]), 0, 0) + a[0].1);
    }
}

/// With non-negative values, no entry is reached when the whole total
/// falls short.
pub proof fn lemma_reach_none(es: Seq<(int, int)>, acc: int, t: int)
    requires
        forall|i: int| 0 <= i < es.len() ==> #[trigger] es[i].1 >= 0,
        acc + total(es) < t,
    ensures
        first_reach(es, acc, t) is None,
    decreases es.len(),
{
    if es.len() > 0 {
        let d = es.drop_first();
        assert(es =~= seq![es[0]] + d);
        lemma_total_concat(seq![es[0]], d);
        assert(total(seq![es[0]]) == range_sum(vals(seq![es[0]]), 0, 0) + es[0].1);
        lemma_total_nonneg(d);
        lemma_reach_none(d, acc + es[0].1, t);
    }
}

pub proof fn lemma_total_nonneg(es: Seq<(int, int)>)
    requires
        forall|i: int| 0 <= i < es.len() ==> #[trigger] es[i].1 >= 0,
    ensures
        total(es) >= 0,
{
    assert(crate::sums::all_nonneg(vals(es)));
    crate::sums::lemma_range_nonneg(vals(es), 0, es.len() as int);
}

/// Key bounds after a rotation to the right: the left child `ml` (with
/// parts `ll` and `lr`) rises above the node `mn` (with right part `r`).
pub proof fn lemma_rotate_right_keys(
    ll: Seq<(int, int)>,
    ml: (int, int),
    lr: Seq<(int, int)>,
    mn: (int, int),
    r: Seq<(int, int)>,
)
    requires
        keys_below(ll, ml.0),
        keys_above(lr, ml.0),
        keys_below(ll + seq![ml] + lr, mn.0),
        keys_above(r, mn.0),
    ensures
        keys_below(lr, mn.0),
        keys_above(lr + seq![mn] + r, ml.0),
{
    let a = ll + seq![ml] + lr;
    assert forall|i: int| 0 <= i < lr.len() implies #[trigger] lr[i].0 < mn.0 by {
        assert(a[ll.len() + 1 + i] == lr[i]);
    }
    assert(a[ll.len() as int] == ml);
    let b = lr + seq![mn] + r;
    assert forall|i: int| 0 <= i < b.len() implies #[trigger] b[i].0 > ml.0 by {
        if i < lr.len() {
            assert(b[i] == lr[i]);
        } else if i == lr.len() {
            assert(b[i] == mn);
        } else {
            assert(b[i] == r[i - lr.len() - 1]);
        }
    }
}

/// Key bounds after a rotation to the left: the right child `mr` (with
/// parts `rl` and `rr`) rises above the node `mn` (with left part `nl`).
pub proof fn lemma_rotate_left_keys(
    nl: Seq<(int, int)>,
    mn: (int, int),
    rl: Seq<(int, int)>,
    mr: (int, int),
    rr: Seq<(int, int)>,
)
    requires
        keys_below(nl, mn.0),
        keys_above(rl + seq![mr] + rr, mn.0),
        keys_below(rl, mr.0),
        keys_above(rr, mr.0),
    ensures
        keys_above(rl, mn.0),
        keys_below(nl + seq![mn] + rl, mr.0),
{
    let a = rl + seq![mr] + rr;
    assert forall|i: int| 0 <= i < rl.len() implies #[trigger] rl[i].0 > mn.0 by {
        assert(a[i] == rl[i]);
    }
    assert(a[rl.len() as int] == mr);
    let b = nl + seq![mn] + rl;
    assert forall|i: int| 0 <= i < b.len() implies #[trigger] b[i].0 < mr.0 by {
        if i < nl.len() {
            assert(b[i] == nl[i]);
        } else if i == nl.len() {
            assert(b[i] == mn);
        } else {
            assert(b[i] == rl[i - nl.len() - 1]);
        }
    }
}

pub proof fn lemma_single_one(m: (int, int), x: int)
    ensures
        single(seq![m], x) == (if m.0 == x { m.1 } else { 0 }),
{
    assert(seq![m].drop_last() =~= Seq::<(int, int)>::empty());
    assert(single(Seq::<(int, int)>::empty(), x) == 0);
}

/// Adding `v` at `k` adds `v` to what is held at `k`, and nothing elsewhere.
pub proof fn lemma_add_single(es: Seq<(int, int)>, k: int, v: int)
    ensures
        forall|x: int| #[trigger]
            single(add_entry(es, k, v), x) == single(es, x) + (if x == k { v } else { 0 }),
    decreases es.len(),
{
    if es.len() > 0 && es[0].0 != k && !(k < es[0].0) {
        lemma_add_single(es.drop_first(), k, v);
    }
    assert forall|x: int| #[trigger]
        single(add_entry(es, k, v), x) == single(es, x) + (if x == k { v } else { 0 }) by {
        lemma_single_one((k, v), x);
        if es.len() == 0 {
            assert(single(es, x) == 0);
        } else {
            let h = seq![es[0]];
            let d = es.drop_first();
            assert(es =~= h + d);
            lemma_single_concat(h, d, x);
            lemma_single_one(es[0], x);
            if es[0].0 == k {
                let h2 = seq![(k, es[0].1 + v)];
                assert(es.update(0, (k, es[0].1 + v)) =~= h2 + d);
                lemma_single_concat(h2, d, x);
                lemma_single_one((k, es[0].1 + v), x);
            } else if k < es[0].0 {
                lemma_single_concat(seq![(k, v)], es, x);
            } else {
                lemma_single_concat(h, add_entry(d, k, v), x);
            }
        }
    }
}

/// The value at a key is the difference of the cumulative values at it and
/// at the key before it.
pub proof fn lemma_cuml_decomposition(es: Seq<(int, int)>, x: int)
    ensures
        cuml(es, x) - cuml(es, x - 1) == single(es, x),
    decreases es.len(),
{
    if es.len() > 0 {
        lemma_cuml_decomposition(es.drop_last(), x);
    }
}

/// With non-negative values, the cumulative value never decreases as the
/// key grows.
pub proof fn lemma_cuml_monotone(es: Seq<(int, int)>, x: int, y: int)
    requires
        forall|i: int| 0 <= i < es.len() ==> #[trigger] es[i].1 >= 0,
        x <= y,
    ensures
        cuml(es, x) <= cuml(es, y),
    decreases es.len(),
{
    if es.len() > 0 {
        let d = es.drop_last();
        assert forall|i: int| 0 <= i < d.len() implies #[trigger] d[i].1 >= 0 by {
            assert(d[i] == es[i]);
        }
        lemma_cuml_monotone(d, x, y);
        assert(es.last().1 >= 0);
    }
}

/// With keys in order, the cumulative value at the key of entry `p` is the
/// sum of the values up to and including entry `p`, and just below that
/// key the sum of those before it.
pub proof fn lemma_cuml_at_entry(es: Seq<(int, int)>, p: int)
    requires
        sorted(es),
        0 <= p < es.len(),
    ensures
        cuml(es, es[p].0) == range_sum(vals(es), 0, p + 1),
        cuml(es, es[p].0 - 1) == range_sum(vals(es), 0, p),
{
    let a = es.subrange(0, p + 1);
    let b = es.subrange(p + 1, es.len() as int);
    let a0 = es.subrange(0, p);
    assert(es =~= a + b);
    assert(a =~= a0 + seq![es[p]]);
    lemma_cuml_concat(a, b, es[p].0);
    lemma_cuml_concat(a, b, es[p].0 - 1);
    lemma_cuml_concat(a0, seq![es[p]], es[p].0);
    lemma_cuml_concat(a0, seq![es[p]], es[p].0 - 1);
    assert(keys_above(b, es[p].0)) by {
        assert forall|i: int| 0 <= i < b.len() implies #[trigger] b[i].0 > es[p].0 by {
            assert(b[i] == es[p + 1 + i]);
        }
    }
    lemma_cuml_above(b, es[p].0);
    lemma_cuml_above(b, es[p].0 - 1);
    assert forall|i: int| 0 <= i < a0.len() implies #[trigger] a0[i].0 <= es[p].0 - 1 by {
        assert(a0[i] == es[i]);
    }
    assert forall|i: int| 0 <= i < a0.len() implies #[trigger] a0[i].0 <= es[p].0 by {
        assert(a0[i] == es[i]);
    }
    lemma_cuml_below(a0, es[p].0);
    lemma_cuml_below(a0, es[p].0 - 1);
    assert(seq![es[p]].drop_last() =~= Seq::<(int, int)>::empty());
    assert(cuml(Seq::<(int, int)>::empty(), es[p].0) == 0);
    assert(cuml(Seq::<(int, int)>::empty(), es[p].0 - 1) == 0);
    lemma_vals_concat(a0, seq![es[p]]);
    lemma_total_concat(a0, seq![es[p]]);
    assert(total(seq![es[p]]) == range_sum(vals(seq![es[p]]), 0, 0) + es[p].1);
    crate::sums::lemma_range_shift(vals(a), vals(es), 0, 0, p + 1);
    crate::sums::lemma_range_shift(vals(a0), vals(es), 0, 0, p);
}

/// Where the first entry reached lies: its running sum reaches `t` and the
/// running sums before it do not.
pub proof fn lemma_reach_position(es: Seq<(int, int)>, acc: int, t: int)
    requires
        first_reach(es, acc, t) is Some,
    ensures
        exists|p: int|
            0 <= p < es.len() && es[p].0 == first_reach(es, acc, t)->Some_0 && acc + range_sum(
                vals(es),
                0,
                p + 1,
            ) >= t && (p == 0 || acc + range_sum(vals(es), 0, p) < t),
    decreases es.len(),
{
    let d = es.drop_first();
    assert(es =~= seq![es[0]] + d);
    lemma_vals_concat(seq![es[0]], d);
    assert(range_sum(vals(es), 0, 1) == range_sum(vals(es), 0, 0) + es[0].1);
    if acc + es[0].1 >= t {
        assert(0 <= 0 < es.len() && es[0].0 == first_reach(es, acc, t)->Some_0 && acc
            + range_sum(vals(es), 0, 1) >= t);
    } else {
        lemma_reach_position(d, acc + es[0].1, t);
        let p = choose|p: int|
            0 <= p < d.len() && d[p].0 == first_reach(d, acc + es[0].1, t)->Some_0 && (acc
                + es[0].1) + range_sum(vals(d), 0, p + 1) >= t && (p == 0 || (acc + es[0].1)
                + range_sum(vals(d), 0, p) < t);
        crate::sums::lemma_range_shift(vals(d), vals(es), 1, 0, p + 1);
        crate::sums::lemma_range_shift(vals(d), vals(es), 1, 0, p);
        crate::sums::lemma_range_split(vals(es), 0, 1, p + 2);
        crate::sums::lemma_range_split(vals(es), 0, 1, p + 1);
        assert(es[p + 1] == d[p]);
        assert(0 <= p + 1 < es.len() && es[p + 1].0 == first_reach(es, acc, t)->Some_0 && acc
            + range_sum(vals(es), 0, (p + 1) + 1) >= t && (p + 1 == 0 || acc + range_sum(
            vals(es),
            0,
            p + 1,
        ) < t));
    }
}

/// For a target above zero and within the total, the quantile exists, its
/// cumulative value reaches the target, and the cumulative value of the key
/// before it falls short.
pub proof fn lemma_entries_quantile_duality(es: Seq<(int, int)>, t: int)
    requires
        sorted(es),
        forall|i: int| 0 <= i < es.len() ==> #[trigger] es[i].1 >= 0,
        0 < t <= total(es),
    ensures
        first_reach(es, 0, t) matches Some(k) && cuml(es, k) >= t && cuml(es, k - 1) < t,
{
    lemma_reach_some(es, 0, t);
    lemma_reach_position(es, 0, t);
    let k = first_reach(es, 0, t)->Some_0;
    let p = choose|p: int|
        0 <= p < es.len() && es[p].0 == k && 0 + range_sum(vals(es), 0, p + 1) >= t && (p == 0
            || 0 + range_sum(vals(es), 0, p) < t);
    lemma_cuml_at_entry(es, p);
    if p == 0 {
        assert(range_sum(vals(es), 0, 0) == 0);
    }
}

/// An entry is reached when the running sum starts short of `t` and the
/// total reaches it.
proof fn lemma_reach_some(es: Seq<(int, int)>, acc: int, t: int)
    requires
        t <= acc + total(es),
        acc < t,
    ensures
        first_reach(es, acc, t) is Some,
    decreases es.len(),
{
    if es.len() == 0 {
        assert(total(es) == 0);
    } else {
        let d = es.drop_first();
        assert(es =~= seq![es[0]] + d);
        lemma_total_concat(seq![es[0]], d);
        assert(total(seq![es[0]]) == range_sum(vals(seq![es[0]]), 0, 0) + es[0].1);
        if acc + es[0].1 < t {
            lemma_reach_some(d, acc + es[0].1, t);
        }
    }
}

/// A node's entries are in order when its parts are and its key lies
/// between them.
pub proof fn lemma_sorted_node(l: Seq<(int, int)>, m: (int, int), r: Seq<(int, int)>)
    requires
        sorted(l),
        sorted(r),
        keys_below(l, m.0),
        keys_above(r, m.0),
    ensures
        sorted(l + seq![m] + r),
{
    let es = l + seq![m] + r;
    let nl = l.len() as int;
    assert forall|i: int, j: int|
        0 <= i < j < es.len() implies #[trigger] es[i].0 < #[trigger] es[j].0 by {
        if j < nl {
            assert(es[i] == l[i] && es[j] == l[j]);
        } else if j == nl {
            assert(es[i] == l[i] && es[j] == m);
        } else if i < nl {
            assert(es[i] == l[i] && es[j] == r[j - nl - 1]);
        } else if i == nl {
            assert(es[i] == m && es[j] == r[j - nl - 1]);
        } else {
            assert(es[i] == r[i - nl - 1] && es[j] == r[j - nl - 1]);
        }
    }
}

/// Fitting sums give fitting prefixes from zero.
pub proof fn lemma_fit_prefixes(es: Seq<(int, int)>)
    requires
        sums_fit(vals(es)),
    ensures
        prefixes_fit(es, 0),
{
    assert forall|j: int| 0 <= j <= es.len() implies in_i64(
        0 + #[trigger] range_sum(vals(es), 0, j),
    ) by {
        assert(in_i64(range_sum(vals(es), 0, j)));
    }
}

} // verus!
