//! A Fenwick tree over signed keys that grows to hold every key inserted.
use vstd::prelude::*;

use crate::cmap::CumlMap;
use crate::fenwick::{FenwickTree, MAX_CAPACITY};
use crate::sums::{
    all_nonneg, clamp, in_i64, key_sum, lemma_key_sum_add, lemma_key_sum_skip_zeros,
    lemma_placed_fit, lemma_range_shift, lemma_seq_key_sum, lemma_window_sum, placed, prefix_sum,
    range_sum, sums_fit, window,
};

verus! {

/// `f` with `v` added at `key`.
pub open spec fn added(f: spec_fn(int) -> int, key: int, v: int) -> spec_fn(int) -> int {
    |k: int|
        if k == key {
            f(k) + v
        } else {
            f(k)
        }
}

/// Sums over keys shifted by `off`.
proof fn lemma_key_sum_shift(f: spec_fn(int) -> int, off: int, lo: int, hi: int)
    ensures
        key_sum(|j: int| f(j + off), lo, hi) == key_sum(f, lo + off, hi + off),
    decreases hi - lo,
{
    if lo < hi {
        lemma_key_sum_shift(f, off, lo, hi - 1);
    }
}

/// Every sum of `f` over consecutive keys can be held by an `i64`.
pub open spec fn key_sums_fit(f: spec_fn(int) -> int) -> bool {
    forall|lo: int, hi: int| lo <= hi ==> in_i64(#[trigger] key_sum(f, lo, hi))
}

/// The step by which a tree grows: doubled from `base` until it reaches
/// `need`.
pub open spec fn growth(base: int, need: int) -> int
    decreases
            if base < need {
                need - base
            } else {
                0
            },
{
    if base <= 0 || base >= need {
        base
    } else {
        growth(2 * base, need)
    }
}

proof fn lemma_growth(base: int, need: int)
    requires
        base > 0,
    ensures
        growth(base, need) >= base,
        growth(base, need) >= need,
    decreases
            if base < need {
                need - base
            } else {
                0
            },
{
    if base < need {
        lemma_growth(2 * base, need);
    }
}

/// A Fenwick tree whose keys are any `i64`: it covers the keys
/// `offset..offset + capacity` and, when a key outside them is inserted,
/// rebuilds itself larger and replays the values it held.
pub struct ExtensibleFenwickTree {
    offset: i64,
    tree: FenwickTree,
}

impl ExtensibleFenwickTree {
    /// The smallest key covered.
    pub closed spec fn low_key(&self) -> int {
        self.offset as int
    }

    /// One past the largest key covered.
    pub closed spec fn high_key(&self) -> int {
        self.offset + self.tree@.len()
    }

    /// The value accumulated at each key; zero outside the covered keys.
    pub closed spec fn values(&self) -> spec_fn(int) -> int {
        window(self.tree@, self.offset as int)
    }

    pub closed spec fn inv(&self) -> bool {
        &&& self.tree.wf()
        &&& self.offset + self.tree@.len() <= i64::MAX
    }

    pub open spec fn wf(&self) -> bool {
        &&& self.inv()
        &&& self.low_key() <= self.high_key() <= i64::MAX
        &&& self.high_key() - self.low_key() <= MAX_CAPACITY
        &&& forall|k: int|
            !(self.low_key() <= k < self.high_key()) ==> #[trigger] (self.values())(k) == 0
        &&& key_sums_fit(self.values())
    }

    /// The value at exactly `key`.
    pub open spec fn single(&self, key: int) -> int {
        (self.values())(key)
    }

    /// The sum of the values at every key up to and including `key`.
    pub open spec fn cumulative(&self, key: int) -> int {
        key_sum(self.values(), self.low_key(), key + 1)
    }

    /// `r` is the smallest covered key whose cumulative value reaches `t`,
    /// or `None` when no covered key's does.
    pub open spec fn is_quantile(&self, t: int, r: Option<i64>) -> bool {
        match r {
            Some(k) => self.low_key() <= k < self.high_key() && self.cumulative(k as int) >= t
                && forall|i: int|
                self.low_key() <= i < k ==> #[trigger] self.cumulative(i) < t,
            None => forall|k: int|
                self.low_key() <= k < self.high_key() ==> #[trigger] self.cumulative(k) < t,
        }
    }

    /// How far outside the covered keys `key` lies.
    pub open spec fn need(&self, key: int) -> int {
        if key >= self.high_key() {
            key - self.high_key() + 1
        } else if key < self.low_key() {
            self.low_key() - key
        } else {
            0
        }
    }

    /// The step by which covering `key` grows the tree.
    pub open spec fn growth_for(&self, key: int) -> int {
        let cap = self.high_key() - self.low_key();
        growth(if cap < 8 { 8 } else { cap }, self.need(key))
    }

    /// The smallest key covered once `key` is.
    pub open spec fn grown_low(&self, key: int) -> int {
        if key < self.low_key() {
            self.low_key() - self.growth_for(key)
        } else {
            self.low_key()
        }
    }

    /// One past the largest key covered once `key` is.
    pub open spec fn grown_high(&self, key: int) -> int {
        if key >= self.high_key() {
            self.high_key() + self.growth_for(key)
        } else {
            self.high_key()
        }
    }

    /// Covering `key` needs a tree no larger than can be built, over keys
    /// that an `i64` can hold.
    pub open spec fn can_cover(&self, key: int) -> bool {
        &&& i64::MIN <= self.grown_low(key)
        &&& self.grown_high(key) <= i64::MAX
        &&& self.grown_high(key) - self.grown_low(key) <= MAX_CAPACITY
    }

    proof fn lemma_wf(&self)
        requires
            self.inv(),
        ensures
            self.wf(),
    {
        let s = self.tree@;
        let off = self.offset as int;
        assert forall|lo: int, hi: int| lo <= hi implies in_i64(
            #[trigger] key_sum(self.values(), lo, hi),
        ) by {
            lemma_window_sum(s, off, lo, hi);
            assert(in_i64(
                range_sum(s, clamp(lo - off, s.len() as int), clamp(hi - off, s.len() as int)),
            ));
        }
    }

    /// Builds an empty tree that covers no key.
    pub fn new() -> (r: ExtensibleFenwickTree)
        ensures
            r.wf(),
            r.low_key() == 0,
            r.high_key() == 0,
            forall|k: int| #[trigger] r.single(k) == 0,
    {
        ExtensibleFenwickTree::with_extent(0, 0)
    }

    /// Builds an empty tree that covers the keys `0..c`.
    pub fn with_capacity(c: usize) -> (r: ExtensibleFenwickTree)
        requires
            c <= MAX_CAPACITY,
        ensures
            r.wf(),
            r.low_key() == 0,
            r.high_key() == c,
            forall|k: int| #[trigger] r.single(k) == 0,
    {
        ExtensibleFenwickTree::with_extent(0, c)
    }

    /// Builds an empty tree that covers the keys `o..o + c`.
    pub fn with_extent(o: i64, c: usize) -> (r: ExtensibleFenwickTree)
        requires
            c <= MAX_CAPACITY,
            o + c <= i64::MAX,
        ensures
            r.wf(),
            r.low_key() == o,
            r.high_key() == o + c,
            forall|k: int| #[trigger] r.single(k) == 0,
    {
        let r = ExtensibleFenwickTree { offset: o, tree: FenwickTree::with_capacity(c) };
        proof {
            r.lemma_wf();
        }
        r
    }

    /// The covered keys, as the smallest one and one past the largest.
    fn extent(&self) -> (r: (i64, i64))
        requires
            self.wf(),
        ensures
            r.0 == self.low_key(),
            r.1 == self.high_key(),
    {
        (self.offset, self.offset + self.tree.capacity() as i64)
    }

    /// Rebuilds the tree `by.abs()` keys larger, to the left when `by` is
    /// negative and to the right otherwise, replaying every value into the
    /// new tree before it replaces the old one.
    fn extend(&mut self, by: i64)
        requires
            old(self).wf(),
            -(MAX_CAPACITY as int) <= by <= MAX_CAPACITY,
            old(self).high_key() - old(self).low_key() + (if by < 0 { -by } else { by as int })
                <= MAX_CAPACITY,
            i64::MIN <= old(self).low_key() + (if by < 0 { by as int } else { 0 }),
            old(self).high_key() + (if by < 0 { 0 } else { by as int }) <= i64::MAX,
        ensures
            final(self).wf(),
            final(self).low_key() == old(self).low_key() + (if by < 0 { by as int } else { 0 }),
            final(self).high_key() == old(self).high_key() + (if by < 0 { 0 } else { by as int }),
            forall|k: int| #[trigger] final(self).single(k) == old(self).single(k),
    {
        let oldcap = self.tree.capacity();
        let grow: usize = if by < 0 {
            (-by) as usize
        } else {
            by as usize
        };
        let shift: usize = if by < 0 {
            grow
        } else {
            0
        };
        let cap = oldcap + grow;
        let ghost old_vals = self.tree@;
        let mut fresh = FenwickTree::with_capacity(cap);
        proof {
            assert(fresh@ =~= placed(old_vals, 0, shift as int, cap as nat));
        }
        let mut i: usize = 0;
        while i < oldcap
            invariant
                self.wf(),
                self.tree@ == old_vals,
                oldcap == old_vals.len(),
                cap == oldcap + grow,
                cap <= MAX_CAPACITY,
                shift + oldcap <= cap,
                i <= oldcap,
                fresh.wf(),
                fresh@ == placed(old_vals, i as int, shift as int, cap as nat),
            decreases oldcap - i,
        {
            let v = self.tree.get_single(i);
            let ghost before = fresh@;
            let ghost after = placed(old_vals, i + 1, shift as int, cap as nat);
            proof {
                assert(after =~= before.update(
                    (i + shift) as int,
                    before[(i + shift) as int] + v,
                ));
                lemma_placed_fit(old_vals, i + 1, shift as int, cap as nat);
            }
            fresh.insert(i + shift, v);
            i = i + 1;
        }
        let ghost old_self = *self;
        self.tree = fresh;
        self.offset = self.offset - shift as i64;
        proof {
            assert(old_vals.subrange(0, oldcap as int) =~= old_vals);
            assert forall|k: int| #[trigger] self.single(k) == old_self.single(k) by {
            }
            self.lemma_wf();
        }
    }

    /// Makes the tree cover `key` as well as every key it covered before,
    /// rebuilding it larger if it must. The growth is at least the tree's
    /// capacity (and at least eight keys), doubled until `key` is reached.
    pub fn ensure_contains(&mut self, key: i64)
        requires
            old(self).wf(),
            old(self).can_cover(key as int),
        ensures
            final(self).wf(),
            final(self).low_key() == old(self).grown_low(key as int),
            final(self).high_key() == old(self).grown_high(key as int),
            final(self).low_key() <= key < final(self).high_key(),
            forall|k: int| #[trigger] final(self).single(k) == old(self).single(k),
    {
        let (l, r) = self.extent();
        let extra: i128 = if key >= r {
            key as i128 - r as i128 + 1
        } else if key < l {
            key as i128 - l as i128
        } else {
            return ;
        };
        let need: i128 = if extra < 0 {
            -extra
        } else {
            extra
        };
        let cap = self.tree.capacity();
        let base: i128 = if cap < 8 {
            8
        } else {
            cap as i128
        };
        let mut step: i128 = base;
        proof {
            lemma_growth(base as int, need as int);
        }
        while step < need
            invariant
                0 < step,
                step <= base || step < 2 * need,
                base <= MAX_CAPACITY,
                need <= 0x2_0000_0000_0000_0000,
                growth(step as int, need as int) == growth(base as int, need as int),
            decreases
                    if step < need {
                        need - step
                    } else {
                        0
                    },
        {
            step = step * 2;
        }
        proof {
            lemma_growth(base as int, need as int);
        }
        let by: i64 = if extra < 0 {
            -(step as i64)
        } else {
            step as i64
        };
        self.extend(by);
    }

    /// Adds `val` to the value at `key`, growing the tree first if it does
    /// not cover `key`.
    pub fn insert(&mut self, key: i64, val: i64)
        requires
            old(self).wf(),
            old(self).can_cover(key as int),
            key_sums_fit(added(old(self).values(), key as int, val as int)),
        ensures
            final(self).wf(),
            forall|k: int| #[trigger]
                final(self).single(k) == old(self).single(k) + (if k == key {
                    val as int
                } else {
                    0
                }),
            forall|k: int| #[trigger]
                final(self).cumulative(k) == old(self).cumulative(k) + (if key <= k {
                    val as int
                } else {
                    0
                }),
            final(self).low_key() == old(self).grown_low(key as int),
            final(self).high_key() == old(self).grown_high(key as int),
    {
        let ghost start = *self;
        self.ensure_contains(key);
        let ghost mid = *self;
        let ghost s = self.tree@;
        let i = (key as i128 - self.offset as i128) as usize;
        proof {
            let t = s.update(i as int, s[i as int] + val);
            let g = added(start.values(), key as int, val as int);
            let off = self.offset as int;
            assert forall|j: int| 0 <= j < t.len() implies #[trigger] t[j] == g(j + off) by {
                assert(mid.single(j + off) == start.single(j + off));
            }
            assert forall|lo: int, hi: int| 0 <= lo <= hi <= t.len() implies in_i64(
                #[trigger] range_sum(t, lo, hi),
            ) by {
                lemma_seq_key_sum(t, |j: int| g(j + off), lo, hi);
                lemma_key_sum_shift(g, off, lo, hi);
                assert(in_i64(key_sum(g, lo + off, hi + off)));
            }
        }
        self.tree.insert(i, val);
        proof {
            self.lemma_wf();
            assert forall|k: int| #[trigger]
                self.single(k) == start.single(k) + (if k == key { val as int } else { 0 }) by {
                assert(mid.single(k) == start.single(k));
            }
            assert forall|k: int| #[trigger]
                self.cumulative(k) == start.cumulative(k) + (if key <= k {
                    val as int
                } else {
                    0
                }) by {
                lemma_key_sum_skip_zeros(
                    start.values(),
                    self.low_key(),
                    start.low_key(),
                    k + 1,
                );
                lemma_key_sum_add(
                    start.values(),
                    self.values(),
                    key as int,
                    val as int,
                    self.low_key(),
                    k + 1,
                );
            }
        }
    }

    /// The sum of the values at every key up to and including `key`; zero
    /// below the covered keys, the total above them.
    pub fn get_cuml(&self, key: i64) -> (r: i64)
        requires
            self.wf(),
        ensures
            r == self.cumulative(key as int),
    {
        let ghost s = self.tree@;
        let ghost off = self.offset as int;
        proof {
            if key + 1 >= off {
                lemma_window_sum(s, off, off, key + 1);
            }
        }
        if key < self.offset {
            return 0;
        }
        let cap = self.tree.capacity();
        if cap == 0 {
            return 0;
        }
        let d: i128 = key as i128 - self.offset as i128;
        let k: usize = if d >= cap as i128 {
            cap - 1
        } else {
            d as usize
        };
        self.tree.get_cuml(k)
    }

    /// The value at exactly `key`; zero outside the covered keys.
    pub fn get_single(&self, key: i64) -> (r: i64)
        requires
            self.wf(),
        ensures
            r == self.single(key as int),
    {
        if key < self.offset {
            return 0;
        }
        let d: i128 = key as i128 - self.offset as i128;
        if d >= self.tree.capacity() as i128 {
            return 0;
        }
        self.tree.get_single(d as usize)
    }

    /// The smallest covered key whose cumulative value reaches `quant`, or
    /// `None` when none does. As for the fixed tree, the search assumes
    /// non-negative values; whatever the values, the keys before the one
    /// returned fall short of `quant`, and `None` means that the total does.
    pub fn get_quantile(&self, quant: i64) -> (r: Option<i64>)
        requires
            self.wf(),
        ensures
            (forall|k: int| #[trigger] self.single(k) >= 0) ==> self.is_quantile(quant as int, r),
            r matches Some(k) ==> self.low_key() <= k < self.high_key() && (k == self.low_key()
                || self.cumulative(k - 1) < quant),
            r is None ==> self.low_key() == self.high_key() || self.cumulative(self.high_key() - 1)
                < quant,
    {
        let ghost s = self.tree@;
        let ghost off = self.offset as int;
        let q = self.tree.get_quantile(quant);
        proof {
            assert forall|j: int| 0 <= j < s.len() implies #[trigger] prefix_sum(s, j)
                == self.cumulative(off + j) by {
                lemma_window_sum(s, off, off, off + j + 1);
            }
            if forall|k: int| #[trigger] self.single(k) >= 0 {
                assert forall|i: int| 0 <= i < s.len() implies 0 <= #[trigger] s[i] by {
                    assert(self.single(off + i) >= 0);
                }
                assert(all_nonneg(s));
                match q {
                    Some(j) => {
                        assert forall|i: int| off <= i < off + j implies #[trigger]
                            self.cumulative(i) < quant by {
                            assert(prefix_sum(s, i - off) < quant);
                        }
                    },
                    None => {
                        assert forall|k: int| off <= k < off + s.len() implies #[trigger]
                            self.cumulative(k) < quant by {
                            assert(prefix_sum(s, k - off) < quant);
                        }
                    },
                }
            }
        }
        match q {
            Some(x) => Some(x as i64 + self.offset),
            None => None,
        }
    }

} // impl

impl CumlMap for ExtensibleFenwickTree {
    type Key = i64;

    open spec fn inv(&self) -> bool {
        self.wf()
    }

    open spec fn can_insert(&self, key: i64, val: i64) -> bool {
        self.can_cover(key as int) && key_sums_fit(added(self.values(), key as int, val as int))
    }

    open spec fn can_query(&self, key: i64) -> bool {
        true
    }

    open spec fn value_at(&self, key: i64) -> int {
        self.single(key as int)
    }

    open spec fn cumulative_at(&self, key: i64) -> int {
        self.cumulative(key as int)
    }

    open spec fn monotone(&self) -> bool {
        forall|k: int| #[trigger] self.single(k) >= 0
    }

    open spec fn quantile_ok(&self, t: int, r: Option<i64>) -> bool {
        self.is_quantile(t, r)
    }

    fn insert(&mut self, key: i64, val: i64) {
        ExtensibleFenwickTree::insert(self, key, val)
    }

    fn get_cuml(&self, key: i64) -> (r: i64) {
        ExtensibleFenwickTree::get_cuml(self, key)
    }

    fn get_single(&self, key: i64) -> (r: i64) {
        ExtensibleFenwickTree::get_single(self, key)
    }

    fn get_quantile(&self, quant: i64) -> (r: Option<i64>) {
        ExtensibleFenwickTree::get_quantile(self, quant)
    }
}

/// The cumulative value at `k` depends on the values at the keys up to `k`
/// alone, whatever keys each tree covers.
pub proof fn lemma_cumulative_from_lower(
    a: &ExtensibleFenwickTree,
    b: &ExtensibleFenwickTree,
    k: int,
)
    requires
        a.wf(),
        b.wf(),
        forall|x: int| x <= k ==> #[trigger] a.single(x) == b.single(x),
    ensures
        a.cumulative(k) == b.cumulative(k),
{
    let m = if a.low_key() < b.low_key() { a.low_key() } else { b.low_key() };
    lemma_key_sum_skip_zeros(a.values(), m, a.low_key(), k + 1);
    lemma_key_sum_skip_zeros(b.values(), m, b.low_key(), k + 1);
    assert forall|x: int| m <= x < k + 1 implies #[trigger] (a.values())(x) == (b.values())(x) by {
        assert(a.single(x) == b.single(x));
    }
    crate::sums::lemma_key_sum_agree(a.values(), b.values(), m, k + 1);
}

/// Growth cannot be observed: two trees that hold the same value at every
/// key, whatever extent each was built with or grew to, give the same
/// cumulative value at every key. As `insert` changes the values the same
/// way whatever the extent, the same inserts give the same answers.
pub proof fn lemma_growth_transparent(a: &ExtensibleFenwickTree, b: &ExtensibleFenwickTree)
    requires
        a.wf(),
        b.wf(),
        forall|x: int| #[trigger] a.single(x) == b.single(x),
    ensures
        forall|k: int| #[trigger] a.cumulative(k) == b.cumulative(k),
{
    assert forall|k: int| #[trigger] a.cumulative(k) == b.cumulative(k) by {
        lemma_cumulative_from_lower(a, b, k);
    }
}

/// The cumulative value at a negative key takes in the values at negative
/// keys alone: trees that agree below zero agree there, whatever they hold
/// at zero and above.
pub proof fn lemma_negative_keys(a: &ExtensibleFenwickTree, b: &ExtensibleFenwickTree)
    requires
        a.wf(),
        b.wf(),
        forall|x: int| x < 0 ==> #[trigger] a.single(x) == b.single(x),
    ensures
        forall|k: int| k < 0 ==> #[trigger] a.cumulative(k) == b.cumulative(k),
{
    assert forall|k: int| k < 0 implies #[trigger] a.cumulative(k) == b.cumulative(k) by {
        lemma_cumulative_from_lower(a, b, k);
    }
}

/// With non-negative values, the cumulative value never decreases as the
/// key grows.
pub proof fn lemma_ext_cumulative_monotone(t: &ExtensibleFenwickTree, i: int, j: int)
    requires
        t.wf(),
        forall|x: int| #[trigger] t.single(x) >= 0,
        i <= j,
    ensures
        t.cumulative(i) <= t.cumulative(j),
{
    assert forall|x: int| #[trigger] (t.values())(x) >= 0 by {
        assert(t.single(x) >= 0);
    }
    crate::sums::lemma_key_sum_monotone(t.values(), t.low_key(), i + 1, j + 1);
}

/// The value at a key is the difference of the cumulative values at it and
/// at the key before it.
pub proof fn lemma_ext_decomposition(t: &ExtensibleFenwickTree, k: int)
    requires
        t.wf(),
    ensures
        t.cumulative(k) - t.cumulative(k - 1) == t.single(k),
{
    if k < t.low_key() {
        assert(t.single(k) == 0);
    }
}

/// For a target above zero and within the total, the quantile exists, its
/// cumulative value reaches the target, and the cumulative value of the key
/// before it falls short.
pub proof fn lemma_ext_quantile_duality(t: &ExtensibleFenwickTree, target: int, r: Option<i64>)
    requires
        t.wf(),
        forall|x: int| #[trigger] t.single(x) >= 0,
        0 < target <= t.cumulative(t.high_key() - 1),
        t.is_quantile(target, r),
    ensures
        r matches Some(k) && t.cumulative(k as int) >= target && t.cumulative(k - 1) < target,
{
    if t.low_key() == t.high_key() {
        assert(t.cumulative(t.high_key() - 1) == 0);
    }
    if r is None {
        assert(t.cumulative(t.high_key() - 1) < target);
    }
    if let Some(k) = r {
        if k > t.low_key() {
            assert(t.cumulative(k - 1) < target);
        } else {
            assert(t.cumulative(k - 1) == 0);
        }
    }
}

/// Values bounded by `b` in size, the value inserted too, and few enough
/// keys covered that `(capacity + 1) * b` fits: the sums after the insert
/// fit.
pub proof fn lemma_insert_fits(t: &ExtensibleFenwickTree, key: int, val: int, b: int)
    requires
        t.wf(),
        0 <= b,
        -b <= val <= b,
        forall|x: int| -b <= #[trigger] t.single(x) <= b,
        (t.high_key() - t.low_key() + 1) * b <= i64::MAX,
    ensures
        key_sums_fit(added(t.values(), key, val)),
{
    let s = t.tree@;
    let off = t.offset as int;
    let g = added(t.values(), key, val);
    assert forall|i: int| 0 <= i < s.len() implies -b <= #[trigger] s[i] <= b by {
        assert(t.single(off + i) == s[i]);
    }
    assert forall|lo: int, hi: int| lo <= hi implies in_i64(#[trigger] key_sum(g, lo, hi)) by {
        assert forall|k: int| #[trigger] g(k) == (t.values())(k) + (if k == key {
            val
        } else {
            0
        }) by {}
        lemma_key_sum_add(t.values(), g, key, val, lo, hi);
        lemma_window_sum(s, off, lo, hi);
        let a = clamp(lo - off, s.len() as int);
        let c = clamp(hi - off, s.len() as int);
        crate::sums::lemma_range_bound(s, b, a, c);
        assert(key_sum(g, lo, hi) == range_sum(s, a, c) + (if lo <= key < hi {
            val
        } else {
            0
        }));
        assert((c - a) * b <= s.len() * b) by (nonlinear_arith)
            requires
                0 <= c - a <= s.len(),
                0 <= b,
        ;
        assert((s.len() + 1) * b == s.len() * b + b) by (nonlinear_arith);
        assert(t.high_key() - t.low_key() == s.len());
    }
}

} // verus!
