//! The fixed-capacity Fenwick tree (binary indexed tree) over the keys
//! `0..capacity`.
use vstd::prelude::*;

use crate::cmap::CumlMap;
use crate::bits::{
    aligned, is_pow2, lemma_descent_step, lemma_next_cell_bound, lemma_next_cell_covers,
    lemma_one_pow2, lemma_pow2_double, lemma_strip_low_below, lemma_strip_within,
    lemma_zero_aligned,
    strip_low,
};
use crate::sums::{
    all_nonneg, in_i64, lemma_prefix_monotone, lemma_range_add, lemma_range_split,
    lemma_zeros_fit, prefix_sum, range_sum, sums_fit,
};

verus! {

/// The largest capacity a tree can be built with: the cells of a larger one
/// could not be allocated, and the index arithmetic of the tree would
/// overflow.
pub const MAX_CAPACITY: usize = usize::MAX / 8;

/// The first key covered by cell `i`: cell `0` holds key `0` alone, and a
/// cell `i > 0` holds the keys after `i` with its lowest bit cleared, up to
/// `i` itself.
pub open spec fn cell_low(i: int) -> int {
    if i <= 0 {
        0
    } else {
        strip_low(i as usize) + 1
    }
}

/// Cell `i` holds key `k`.
pub open spec fn covers(i: int, k: int) -> bool {
    cell_low(i) <= k <= i
}

/// `r` is the smallest key of `s` whose prefix sum reaches `t`, or `None`
/// when no key does.
pub open spec fn is_quantile(s: Seq<int>, t: int, r: Option<usize>) -> bool {
    match r {
        Some(j) => j < s.len() && prefix_sum(s, j as int) >= t && forall|i: int|
            0 <= i < j ==> #[trigger] prefix_sum(s, i) < t,
        None => forall|j: int| 0 <= j < s.len() ==> #[trigger] prefix_sum(s, j) < t,
    }
}

/// A Fenwick tree of `i64` values over the keys `0..capacity`, whose
/// capacity is fixed when it is built.
pub struct FenwickTree {
    capacity: usize,
    data: Vec<i64>,
    vals: Ghost<Seq<int>>,
}

impl View for FenwickTree {
    type V = Seq<int>;

    /// The value accumulated at each key, indexed by key.
    closed spec fn view(&self) -> Seq<int> {
        self.vals@
    }
}

impl FenwickTree {
    /// Each cell holds the sum of the values at the keys it covers.
    pub closed spec fn cells_ok(&self) -> bool {
        &&& self.data@.len() == self.capacity
        &&& self.vals@.len() == self.capacity
        &&& forall|i: int|
            0 <= i < self.capacity ==> #[trigger] self.data@[i] == range_sum(
                self.vals@,
                cell_low(i),
                i + 1,
            )
    }

    /// The cells agree with the values, and every sum of consecutive values
    /// fits in an `i64`, so that no cell or partial sum can overflow.
    pub open spec fn wf(&self) -> bool {
        &&& self.cells_ok()
        &&& self@.len() <= MAX_CAPACITY
        &&& sums_fit(self@)
    }

    /// Builds a tree over the keys `0..c`, every value zero.
    pub fn with_capacity(c: usize) -> (r: FenwickTree)
        requires
            c <= MAX_CAPACITY,
        ensures
            r.wf(),
            r@ == Seq::new(c as nat, |i: int| 0int),
    {
        let data = vec![0i64; c];
        let ghost vals = Seq::new(c as nat, |i: int| 0int);
        proof {
            lemma_zeros_fit(vals);
            assert forall|i: int| 0 <= i < c implies #[trigger] data@[i] == range_sum(
                vals,
                cell_low(i),
                i + 1,
            ) by {
                crate::sums::lemma_range_zeros(vals, cell_low(i), i + 1);
            }
        }
        FenwickTree { capacity: c, data, vals: Ghost(vals) }
    }

    /// Adds `val` to the value at `key`. A key outside `0..capacity` is a
    /// caller's error, ruled out by the precondition, as is a value that
    /// would make a sum of consecutive values overflow.
    pub fn insert(&mut self, key: usize, val: i64)
        requires
            old(self).wf(),
            key < old(self)@.len(),
            sums_fit(old(self)@.update(key as int, old(self)@[key as int] + val)),
        ensures
            final(self).wf(),
            final(self)@ == old(self)@.update(key as int, old(self)@[key as int] + val),
    {
        let ghost old_vals = self.vals@;
        let ghost new_vals = old_vals.update(key as int, old_vals[key as int] + val);
        let cap = self.capacity;
        proof {
            assert forall|i: int| 0 <= i < cap implies #[trigger] range_sum(
                new_vals,
                cell_low(i),
                i + 1,
            ) == range_sum(old_vals, cell_low(i), i + 1) + (if covers(i, key as int) {
                val as int
            } else {
                0
            }) by {
                if i > 0 {
                    lemma_strip_low_below(i as usize);
                }
                lemma_range_add(old_vals, key as int, val as int, cell_low(i), i + 1);
            }
        }
        if key == 0 {
            proof {
                assert(in_i64(range_sum(new_vals, 0, 1)));
                assert forall|i: int| 0 < i < cap implies !covers(i, 0) by {
                    lemma_strip_low_below(i as usize);
                }
            }
            let v = self.data[0] + val;
            self.data.set(0, v);
        } else {
            // Up the update path: each step adds the lowest set bit of `j`,
            // reaching the next cell that also covers `key`.
            let mut j: usize = key;
            proof {
                lemma_strip_low_below(key);
            }
            while j < cap
                invariant
                    self.capacity == cap,
                    cap == old_vals.len(),
                    cap <= MAX_CAPACITY,
                    self.vals@ == old_vals,
                    sums_fit(new_vals),
                    new_vals == old_vals.update(key as int, old_vals[key as int] + val),
                    0 < key <= j,
                    j < cap ==> covers(j as int, key as int),
                    self.data@.len() == cap,
                    forall|i: int| 0 <= i < cap ==> #[trigger] range_sum(
                        new_vals,
                        cell_low(i),
                        i + 1,
                    ) == range_sum(old_vals, cell_low(i), i + 1) + (if covers(i, key as int) {
                        val as int
                    } else {
                        0
                    }),
                    forall|i: int|
                        0 <= i < cap ==> #[trigger] self.data@[i] == range_sum(
                            old_vals,
                            cell_low(i),
                            i + 1,
                        ) + (if covers(i, key as int) && i < j {
                            val as int
                        } else {
                            0
                        }),
                decreases if j < cap {
                    cap - j
                } else {
                    0
                },
            {
                proof {
                    lemma_strip_low_below(j);
                    assert(in_i64(range_sum(new_vals, cell_low(j as int), j + 1)));
                }
                let v = self.data[j] + val;
                self.data.set(j, v);
                let next = j + (j - (j & (j - 1)));
                proof {
                    lemma_next_cell_covers(j, next);
                    assert forall|i: int| j < i < next && i < cap implies !covers(
                        i,
                        key as int,
                    ) by {
                        if covers(i, key as int) {
                            lemma_next_cell_bound(j, i as usize, key);
                        }
                    }
                }
                j = next;
            }
        }
        self.vals = Ghost(new_vals);
    }

    /// The sum of the values at the keys `0..=key`. A key outside
    /// `0..capacity` is a caller's error, ruled out by the precondition.
    pub fn get_cuml(&self, key: usize) -> (r: i64)
        requires
            self.wf(),
            key < self@.len(),
        ensures
            r == prefix_sum(self@, key as int),
    {
        // Down the query path, clearing the lowest set bit at each step. Cell
        // `0` is added last, so that every partial sum is a sum of
        // consecutive values and cannot overflow.
        let ghost vals = self.vals@;
        let mut k: usize = key;
        let mut sum: i64 = 0;
        while k > 0
            invariant
                self.wf(),
                k <= key < self@.len(),
                vals == self@,
                sum == range_sum(vals, k + 1, key + 1),
            decreases k,
        {
            proof {
                lemma_strip_low_below(k);
                lemma_range_split(vals, strip_low(k) + 1, k + 1, key + 1);
                assert(in_i64(range_sum(vals, strip_low(k) + 1, key + 1)));
            }
            sum = sum + self.data[k];
            k = k & (k - 1);
        }
        proof {
            lemma_range_split(vals, 0, 1, key + 1);
            assert(in_i64(range_sum(vals, 0, key + 1)));
        }
        sum + self.data[0]
    }

    /// The value at exactly `key`; zero for a key outside `0..capacity`.
    pub fn get_single(&self, key: usize) -> (r: i64)
        requires
            self.wf(),
        ensures
            r == (if key < self@.len() {
                self@[key as int]
            } else {
                0
            }),
    {
        if key >= self.capacity {
            return 0;
        }
        if key == 0 {
            proof {
                assert(range_sum(self@, 0, 0) == 0);
                assert(range_sum(self@, 0, 1) == self@[0]);
            }
            return self.data[0];
        }
        // The cell at `key` covers `parent + 1..=key`; the cells on the query
        // path from `key - 1` down to `parent` cover `parent + 1..key`.
        let ghost vals = self.vals@;
        let parent = key & (key - 1);
        proof {
            lemma_strip_low_below(key);
        }
        let mut x: usize = key - 1;
        let mut acc: i64 = 0;
        while x != parent
            invariant
                self.wf(),
                0 < key < self@.len(),
                vals == self@,
                parent == strip_low(key),
                parent <= x < key,
                acc == range_sum(vals, x + 1, key as int),
            decreases x,
        {
            proof {
                lemma_strip_within(key, x);
                lemma_strip_low_below(x);
                lemma_range_split(vals, strip_low(x) + 1, x + 1, key as int);
                assert(in_i64(range_sum(vals, strip_low(x) + 1, key as int)));
            }
            acc = acc + self.data[x];
            x = x & (x - 1);
        }
        proof {
            lemma_range_split(vals, parent + 1, key as int, key + 1);
        }
        self.data[key] - acc
    }

    /// The smallest key whose prefix sum reaches `quant`, or `None` when no
    /// key does. The descent assumes that the prefix sums never decrease,
    /// as they do when every value is non-negative; whatever the values, a
    /// key it returns lies in range and the keys before it fall short of
    /// `quant`, and `None` means that the total falls short of `quant`.
    pub fn get_quantile(&self, quant: i64) -> (r: Option<usize>)
        requires
            self.wf(),
        ensures
            all_nonneg(self@) ==> is_quantile(self@, quant as int, r),
            r matches Some(j) ==> j < self@.len() && (j == 0 || prefix_sum(self@, j - 1) < quant),
            r is None ==> self@.len() == 0 || prefix_sum(self@, self@.len() - 1) < quant,
    {
        let ghost vals = self.vals@;
        let cap = self.capacity;
        if cap == 0 {
            return None;
        }
        let mut acc: i64 = self.data[0];
        if quant <= acc {
            proof {
                if all_nonneg(vals) {
                    assert(is_quantile(vals, quant as int, Some(0usize)));
                }
            }
            return Some(0);
        }
        // A descent from the largest power of two within the capacity: the
        // cell `ix + step` covers exactly the keys after `ix` up to it.
        let mut step: usize = 1;
        proof {
            lemma_one_pow2();
        }
        while step <= cap / 2
            invariant
                is_pow2(step),
                step <= cap,
                cap <= MAX_CAPACITY,
            decreases cap - step,
        {
            proof {
                lemma_pow2_double(step, (2 * step) as usize);
            }
            step = step * 2;
        }
        let mut ix: usize = 0;
        proof {
            lemma_zero_aligned((2 * step) as usize);
        }
        while step > 0
            invariant
                self.wf(),
                vals == self@,
                cap == vals.len(),
                cap <= MAX_CAPACITY,
                ix < cap,
                step <= cap,
                acc == range_sum(vals, 0, ix + 1),
                acc < quant,
                step > 0 ==> is_pow2(step) && aligned(ix, (2 * step) as usize),
                all_nonneg(vals) ==> forall|j: int|
                    ix + (if step == 0 {
                        1
                    } else {
                        2 * step
                    }) <= j < cap ==> #[trigger] prefix_sum(vals, j) >= quant,
            decreases step,
        {
            let ghost old_ix = ix;
            let ghost old_step = step;
            if ix + step < cap {
                let n = ix + step;
                proof {
                    lemma_descent_step(ix, step, (2 * step) as usize, n);
                    lemma_range_split(vals, 0, ix + 1, n + 1);
                    assert(in_i64(range_sum(vals, 0, n + 1)));
                }
                let next_acc = acc + self.data[n];
                if next_acc < quant {
                    ix = n;
                    acc = next_acc;
                } else {
                    proof {
                        if all_nonneg(vals) {
                            assert forall|j: int| n <= j < cap implies #[trigger] prefix_sum(
                                vals,
                                j,
                            ) >= quant by {
                                lemma_prefix_monotone(vals, n as int, j);
                            }
                        }
                    }
                }
            } else {
                proof {
                    lemma_descent_step(ix, step, (2 * step) as usize, (ix + step) as usize);
                }
            }
            step = step / 2;
        }
        proof {
            if all_nonneg(vals) {
                assert forall|i: int| 0 <= i <= ix implies #[trigger] prefix_sum(vals, i)
                    < quant by {
                    lemma_prefix_monotone(vals, i, ix as int);
                }
            }
        }
        if ix + 1 < cap {
            Some(ix + 1)
        } else {
            None
        }
    }

    /// The number of keys, `0..capacity`, that the tree holds.
    pub fn capacity(&self) -> (r: usize)
        requires
            self.wf(),
        ensures
            r == self@.len(),
    {
        self.capacity
    }
}

impl CumlMap for FenwickTree {
    type Key = usize;

    open spec fn inv(&self) -> bool {
        self.wf()
    }

    open spec fn can_insert(&self, key: usize, val: i64) -> bool {
        key < self@.len() && sums_fit(self@.update(key as int, self@[key as int] + val))
    }

    open spec fn can_query(&self, key: usize) -> bool {
        key < self@.len()
    }

    open spec fn value_at(&self, key: usize) -> int {
        if key < self@.len() {
            self@[key as int]
        } else {
            0
        }
    }

    open spec fn cumulative_at(&self, key: usize) -> int {
        prefix_sum(self@, key as int)
    }

    open spec fn monotone(&self) -> bool {
        all_nonneg(self@)
    }

    open spec fn quantile_ok(&self, t: int, r: Option<usize>) -> bool {
        is_quantile(self@, t, r)
    }

    fn insert(&mut self, key: usize, val: i64) {
        FenwickTree::insert(self, key, val)
    }

    fn get_cuml(&self, key: usize) -> (r: i64) {
        FenwickTree::get_cuml(self, key)
    }

    fn get_single(&self, key: usize) -> (r: i64) {
        FenwickTree::get_single(self, key)
    }

    fn get_quantile(&self, quant: i64) -> (r: Option<usize>) {
        FenwickTree::get_quantile(self, quant)
    }
}

/// With non-negative values, the cumulative value never decreases as the
/// key grows.
pub proof fn lemma_cumulative_monotone(t: &FenwickTree, i: int, j: int)
    requires
        t.wf(),
        all_nonneg(t@),
        0 <= i <= j < t@.len(),
    ensures
        prefix_sum(t@, i) <= prefix_sum(t@, j),
{
    lemma_prefix_monotone(t@, i, j);
}

/// The value at a key is the difference of the cumulative values at it and
/// at the key before it; at key `0` it is the cumulative value itself.
pub proof fn lemma_decomposition(t: &FenwickTree, k: int)
    requires
        t.wf(),
        0 <= k < t@.len(),
    ensures
        k > 0 ==> prefix_sum(t@, k) - prefix_sum(t@, k - 1) == t@[k],
        k == 0 ==> prefix_sum(t@, 0) == t@[0],
{
    assert(range_sum(t@, 0, 0) == 0);
}

/// For a target above zero and within the total, the quantile exists, its
/// cumulative value reaches the target, and the cumulative value of the key
/// before it falls short.
pub proof fn lemma_quantile_duality(t: &FenwickTree, target: int, r: Option<usize>)
    requires
        t.wf(),
        all_nonneg(t@),
        0 < target <= prefix_sum(t@, t@.len() - 1),
        is_quantile(t@, target, r),
    ensures
        r matches Some(j) && prefix_sum(t@, j as int) >= target && (j == 0 || prefix_sum(
            t@,
            j - 1,
        ) < target),
{
    if t@.len() == 0 {
        assert(range_sum(t@, 0, 0) == 0);
    }
    if r is None {
        assert(prefix_sum(t@, t@.len() - 1) < target);
    }
}

} // verus!
