//! A cumulative frequency table: for each level of a complete binary
//! division of the keys `0..capacity` (a power of two), the sum of the left
//! half of every block of that level.
use vstd::prelude::*;

use vstd::arithmetic::div_mod::{lemma_div_denominator, lemma_fundamental_div_mod_converse};
use vstd::arithmetic::power::lemma_pow0;
use vstd::arithmetic::power2::{
    lemma_pow2, lemma_pow2_adds, lemma_pow2_pos, lemma_pow2_strictly_increases, lemma_pow2_unfold,
    pow2,
};

use crate::cmap::CumlMap;
use crate::fenwick::{is_quantile, MAX_CAPACITY};
use crate::sums::{
    all_nonneg, in_i64, lemma_prefix_monotone, lemma_range_add, lemma_range_split,
    lemma_zeros_fit, prefix_sum, range_sum, sums_fit,
};

verus! {

/// The width of a block at level `i` of `n` levels.
pub open spec fn span(n: nat, i: int) -> int {
    pow2((n - i) as nat) as int
}

/// What the table keeps for block `j` of level `i`: the sum of the values in
/// the left half of the block.
pub open spec fn block_sum(vals: Seq<int>, n: nat, i: int, j: int) -> int {
    range_sum(vals, j * span(n, i), j * span(n, i) + span(n, i + 1))
}

/// Where block `j` of level `i` is kept: level `i` starts at `2^i - 1`.
pub open spec fn cell(i: int, j: int) -> int {
    pow2(i as nat) - 1 + j
}

proof fn lemma_pow2_zero()
    ensures
        pow2(0) == 1,
{
    lemma_pow2(0);
    lemma_pow0(2);
}

/// Levels are laid out one after the other, each twice as long as the last.
proof fn lemma_cells_apart(i: int, j: int, i2: int, j2: int)
    requires
        0 <= i,
        0 <= i2,
        0 <= j < pow2(i as nat),
        0 <= j2 < pow2(i2 as nat),
        i != i2 || j != j2,
    ensures
        cell(i, j) != cell(i2, j2),
{
    if i < i2 {
        lemma_pow2_unfold((i + 1) as nat);
        if i + 1 < i2 {
            lemma_pow2_strictly_increases((i + 1) as nat, i2 as nat);
        }
    } else if i2 < i {
        lemma_pow2_unfold((i2 + 1) as nat);
        if i2 + 1 < i {
            lemma_pow2_strictly_increases((i2 + 1) as nat, i as nat);
        }
    }
}

/// A key lies in the left half of block `j` of width `2 * h` exactly when
/// `j` is its block and its bit of weight `h` is clear.
proof fn lemma_left_half(key: int, j: int, h: int)
    requires
        0 <= key,
        0 <= j,
        0 < h,
    ensures
        (j * (2 * h) <= key < j * (2 * h) + h) <==> (j == key / (2 * h) && (key / h) % 2 == 0),
{
    let q = key / h;
    let r = key % h;
    assert(key == q * h + r) by (nonlinear_arith)
        requires
            q == key / h,
            r == key % h,
            h > 0,
    ;
    lemma_div_denominator(key, h, 2);
    assert(h * 2 == 2 * h);
    if j * (2 * h) <= key < j * (2 * h) + h {
        let s = key - j * (2 * h);
        assert(key == (2 * j) * h + s) by (nonlinear_arith)
            requires
                s == key - j * (2 * h),
        ;
        lemma_fundamental_div_mod_converse(key, h, 2 * j, s);
    }
    if j == key / (2 * h) && (key / h) % 2 == 0 {
        assert(q == 2 * j) by {
            assert(q / 2 == j);
        }
        assert(0 <= r < h) by (nonlinear_arith)
            requires
                r == key % h,
                h > 0,
        ;
        assert(key == j * (2 * h) + r) by (nonlinear_arith)
            requires
                key == q * h + r,
                q == 2 * j,
        ;
    }
}

/// Rounding down to a multiple of `h` adds the bit of weight `h` to the
/// rounding down to a multiple of `2 * h`.
proof fn lemma_round_step(x: int, h: int)
    requires
        0 <= x,
        0 < h,
    ensures
        (x / (2 * h)) * (2 * h) + (if (x / h) % 2 == 1 {
            h
        } else {
            0
        }) == (x / h) * h,
        0 <= (x / (2 * h)) * (2 * h) <= (x / h) * h <= x,
{
    let q = x / h;
    lemma_div_denominator(x, h, 2);
    assert(h * 2 == 2 * h);
    assert(x / (2 * h) == q / 2);
    assert(q == 2 * (q / 2) + q % 2);
    assert(q % 2 == 0 || q % 2 == 1);
    assert((q % 2) * h == (if q % 2 == 1 {
        h
    } else {
        0
    })) by (nonlinear_arith)
        requires
            q % 2 == 0 || q % 2 == 1,
    ;
    assert((q / 2) * (2 * h) + (q % 2) * h == q * h) by (nonlinear_arith)
        requires
            q == 2 * (q / 2) + q % 2,
    ;
    assert(0 <= q / 2);
    assert(0 <= (q / 2) * (2 * h)) by (nonlinear_arith)
        requires
            0 <= q / 2,
            0 < h,
    ;
    assert(0 <= (q % 2) * h) by (nonlinear_arith)
        requires
            0 <= q % 2,
            0 < h,
    ;
    assert(q * h <= x) by (nonlinear_arith)
        requires
            q == x / h,
            0 < h,
            0 <= x,
    ;
}


/// A quotient by `d` of a number below `w * d` is below `w`.
proof fn lemma_div_below(x: int, d: int, w: int)
    requires
        0 <= x < w * d,
        0 < d,
    ensures
        0 <= x / d < w,
{
    let q = x / d;
    assert(x == q * d + x % d) by (nonlinear_arith)
        requires
            q == x / d,
            d > 0,
    ;
    assert(0 <= x % d) by (nonlinear_arith)
        requires
            d > 0,
    ;
    assert(0 <= q) by (nonlinear_arith)
        requires
            q == x / d,
            d > 0,
            x >= 0,
    ;
    if q >= w {
        assert(q * d >= w * d) by (nonlinear_arith)
            requires
                q >= w,
                d > 0,
        ;
    }
}

/// How the width of a level, the span of its blocks and the capacity relate.
proof fn lemma_level(n: nat, i: int)
    requires
        0 <= i <= n,
    ensures
        pow2(i as nat) * span(n, i) == pow2(n),
        pow2((i + 1) as nat) == 2 * pow2(i as nat),
        pow2(i as nat) > 0,
        span(n, i) > 0,
        i < n ==> span(n, i) == 2 * span(n, i + 1) && pow2(i as nat) < pow2(n),
        i < n - 1 ==> span(n, i + 1) == 2 * span(n, i + 2),
        i == n ==> span(n, i) == 1 && pow2(i as nat) == pow2(n),
{
    lemma_pow2_adds(i as nat, (n - i) as nat);
    assert(i as nat + (n - i) as nat == n);
    lemma_pow2_unfold((i + 1) as nat);
    lemma_pow2_pos((n - i) as nat);
    lemma_pow2_pos(i as nat);
    if i < n {
        lemma_pow2_strictly_increases(i as nat, n);
        lemma_pow2_unfold((n - i) as nat);
        assert((n - i - 1) as nat == (n - (i + 1)) as nat);
    }
    if i < n - 1 {
        lemma_pow2_unfold((n - (i + 1)) as nat);
        assert((n - (i + 1) - 1) as nat == (n - (i + 2)) as nat);
    }
    if i == n {
        lemma_pow2_zero();
    }
}

/// A cumulative frequency table of `i64` values over the keys
/// `0..capacity`, where the capacity is a power of two.
pub struct CumlFreqTable {
    capacity: usize,
    total: i64,
    tables: Vec<i64>,
    levels: Ghost<nat>,
    vals: Ghost<Seq<int>>,
}

impl View for CumlFreqTable {
    type V = Seq<int>;

    /// The value accumulated at each key, indexed by key.
    closed spec fn view(&self) -> Seq<int> {
        self.vals@
    }
}

impl CumlFreqTable {
    pub closed spec fn cells_ok(&self) -> bool {
        let n = self.levels@;
        &&& self.vals@.len() == self.capacity
        &&& self.capacity == pow2(n)
        &&& self.tables@.len() == self.capacity - 1
        &&& self.total == range_sum(self.vals@, 0, self.capacity as int)
        &&& forall|i: int, j: int|
            0 <= i < n && 0 <= j < pow2(i as nat) ==> self.tables@[#[trigger] cell(i, j)]
                == block_sum(self.vals@, n, i, j)
    }

    pub open spec fn wf(&self) -> bool {
        &&& self.cells_ok()
        &&& self@.len() <= MAX_CAPACITY
        &&& sums_fit(self@)
    }

    /// Builds a table over the keys `0..c` rounded up to a power of two
    /// (at least one key), every value zero.
    pub fn with_capacity(c: usize) -> (r: CumlFreqTable)
        requires
            c <= MAX_CAPACITY / 2,
        ensures
            r.wf(),
            r@ == Seq::new(r@.len(), |i: int| 0int),
            c <= r@.len(),
            r@.len() == 1 || r@.len() < 2 * c,
            exists|n: nat| r@.len() == pow2(n),
    {
        let mut cap: usize = 1;
        let ghost mut n: nat = 0;
        proof {
            lemma_pow2_zero();
        }
        while cap < c
            invariant
                cap == pow2(n),
                cap > 0,
                c <= MAX_CAPACITY / 2,
                cap == 1 || cap < 2 * c,
            decreases
                    if cap < c {
                        c - cap
                    } else {
                        0
                    },
        {
            proof {
                lemma_pow2_unfold(n + 1);
            }
            cap = cap * 2;
            proof {
                n = n + 1;
            }
        }
        let tables = vec![0i64; cap - 1];
        let ghost vals = Seq::new(cap as nat, |i: int| 0int);
        proof {
            lemma_zeros_fit(vals);
            crate::sums::lemma_range_zeros(vals, 0, cap as int);
            assert forall|i: int, j: int|
                0 <= i < n && 0 <= j < pow2(i as nat) implies tables@[#[trigger] cell(i, j)]
                == block_sum(vals, n, i, j) by {
                lemma_cell_in_range(n, i, j);
                crate::sums::lemma_range_zeros(
                    vals,
                    j * span(n, i),
                    j * span(n, i) + span(n, i + 1),
                );
            }
        }
        CumlFreqTable { capacity: cap, total: 0, tables, levels: Ghost(n), vals: Ghost(vals) }
    }

    /// Adds `val` to the value at `key`. A key outside `0..capacity` is a
    /// caller's error, ruled out by the precondition.
    pub fn insert(&mut self, key: usize, val: i64)
        requires
            old(self).wf(),
            key < old(self)@.len(),
            sums_fit(old(self)@.update(key as int, old(self)@[key as int] + val)),
        ensures
            final(self).wf(),
            final(self)@ == old(self)@.update(key as int, old(self)@[key as int] + val),
    {
        let ghost old_vals = self.vals@;
        let ghost new_vals = old_vals.update(key as int, old_vals[key as int] + val);
        let ghost n = self.levels@;
        let cap = self.capacity;
        proof {
            lemma_range_add(old_vals, key as int, val as int, 0, cap as int);
            assert(in_i64(range_sum(new_vals, 0, cap as int)));
        }
        self.total = self.total + val;
        let mut width: usize = 1;
        let mut h: usize = cap / 2;
        let ghost mut i: int = 0;
        proof {
            lemma_pow2_zero();
            lemma_level(n, 0);
        }
        while width < cap
            invariant
                self.capacity == cap,
                cap == pow2(n),
                cap <= MAX_CAPACITY,
                self.levels@ == n,
                self.vals@ == old_vals,
                self.tables@.len() == cap - 1,
                0 <= i <= n,
                width == pow2(i as nat),
                i < n ==> h == span(n, i + 1),
                width < cap <==> i < n,
                key < cap,
                old_vals.len() == cap,
                sums_fit(new_vals),
                self.total == range_sum(new_vals, 0, cap as int),
                new_vals == old_vals.update(key as int, old_vals[key as int] + val),
                forall|i2: int, j: int|
                    0 <= i2 < n && 0 <= j < pow2(i2 as nat) ==> self.tables@[#[trigger] cell(i2, j)]
                        == (if i2 < i {
                        block_sum(new_vals, n, i2, j)
                    } else {
                        block_sum(old_vals, n, i2, j)
                    }),
            decreases n - i,
        {
            proof {
                lemma_level(n, i);
                assert(2 * h <= cap) by (nonlinear_arith)
                    requires
                        width * (2 * h) == cap,
                        width >= 1,
                ;
                lemma_div_below(key as int, 2 * h, width as int);
                assert forall|j: int| 0 <= j < pow2(i as nat) implies block_sum(new_vals, n, i, j)
                    == block_sum(old_vals, n, i, j) + (if j == (key as int) / (2 * h) && (key as int
                    / h as int) % 2 == 0 {
                    val as int
                } else {
                    0
                }) by {
                    lemma_cell_in_range(n, i, j);
                    lemma_left_half(key as int, j, h as int);
                    lemma_range_add(
                        old_vals,
                        key as int,
                        val as int,
                        j * span(n, i),
                        j * span(n, i) + span(n, i + 1),
                    );
                }
            }
            let ghost before = self.tables@;
            if (key / h) % 2 == 0 {
                let jk = key / (2 * h);
                let p = width - 1 + jk;
                proof {
                    lemma_cell_in_range(n, i, jk as int);
                    assert(p == cell(i, jk as int));
                    let lo = jk * span(n, i);
                    assert(in_i64(range_sum(new_vals, lo, lo + span(n, i + 1))));
                    assert(self.tables@[p as int] == block_sum(old_vals, n, i, jk as int));
                    assert(block_sum(new_vals, n, i, jk as int) == block_sum(
                        old_vals,
                        n,
                        i,
                        jk as int,
                    ) + val);
                }
                let v = self.tables[p] + val;
                self.tables.set(p, v);
                proof {
                    assert forall|i2: int, j: int|
                        0 <= i2 < n && 0 <= j < pow2(i2 as nat) && (i2 != i || j != jk)
                        implies self.tables@[#[trigger] cell(i2, j)] == before[cell(i2, j)] by {
                        lemma_cells_apart(i2, j, i, jk as int);
                        lemma_cell_in_range(n, i2, j);
                    }
                }
            }
            width = width * 2;
            h = h / 2;
            proof {
                i = i + 1;
                lemma_level(n, i);
            }
        }
        proof {
            assert(i == n);
            assert forall|i2: int, j: int|
                0 <= i2 < n && 0 <= j < pow2(i2 as nat) implies self.tables@[#[trigger] cell(i2, j)]
                == block_sum(new_vals, n, i2, j) by {}
            assert(self.total == range_sum(new_vals, 0, cap as int));
        }
        self.vals = Ghost(new_vals);
        proof {
            assert(self.cells_ok());
        }
    }

    /// The sum of the values at the keys `0..=key`; the total for a key at
    /// or past the last.
    pub fn get_cuml(&self, key: usize) -> (r: i64)
        requires
            self.wf(),
        ensures
            r == prefix_sum(self@, key as int),
    {
        let cap = self.capacity;
        if key >= cap - 1 {
            return self.total;
        }
        let ghost vals = self.vals@;
        let ghost n = self.levels@;
        let x = key + 1;
        let mut acc: i64 = 0;
        let mut width: usize = 1;
        let mut h: usize = cap / 2;
        let ghost mut i: int = 0;
        proof {
            lemma_pow2_zero();
            lemma_level(n, 0);
            lemma_div_below(x as int, cap as int, 1);
        }
        while width < cap
            invariant
                self.wf(),
                self.capacity == cap,
                cap == pow2(n),
                self.levels@ == n,
                vals == self@,
                0 <= i <= n,
                width == pow2(i as nat),
                i < n ==> h == span(n, i + 1),
                width < cap <==> i < n,
                x < cap,
                acc == range_sum(vals, 0, (x as int / span(n, i)) * span(n, i)),
            decreases n - i,
        {
            proof {
                lemma_level(n, i);
                assert(2 * h <= cap) by (nonlinear_arith)
                    requires
                        width * (2 * h) == cap,
                        width >= 1,
                ;
                lemma_round_step(x as int, h as int);
                lemma_div_below(x as int, 2 * h, width as int);
            }
            if (x / h) % 2 == 1 {
                let jx = x / (2 * h);
                proof {
                    lemma_cell_in_range(n, i, jx as int);
                    let lo = jx * span(n, i);
                    lemma_range_split(vals, 0, lo, lo + h);
                    assert(in_i64(range_sum(vals, 0, lo + h)));
                }
                acc = acc + self.tables[width - 1 + jx];
            }
            width = width * 2;
            h = h / 2;
            proof {
                i = i + 1;
                lemma_level(n, i);
            }
        }
        proof {
            lemma_level(n, i);
            assert(x as int / 1 == x);
            assert(x * 1 == x);
        }
        acc
    }

    /// The value at exactly `key`. A key outside `0..capacity` is a
    /// caller's error, ruled out by the precondition.
    pub fn get_single(&self, key: usize) -> (r: i64)
        requires
            self.wf(),
            key < self@.len(),
        ensures
            r == self@[key as int],
    {
        let ghost vals = self.vals@;
        if key > 0 {
            proof {
                lemma_range_split(vals, 0, key as int, key + 1);
                assert(in_i64(range_sum(vals, key as int, key + 1)));
                assert(range_sum(vals, key as int, key as int) == 0);
            }
            self.get_cuml(key) - self.get_cuml(key - 1)
        } else if self.capacity == 1 {
            proof {
                assert(range_sum(vals, 0, 0) == 0);
            }
            self.total
        } else {
            let ghost n = self.levels@;
            proof {
                lemma_pow2_zero();
                if n == 0 {
                    assert(false);
                }
                lemma_level(n, n - 1);
                lemma_level(n, n as int);
                lemma_cell_in_range(n, n - 1, 0);
                assert(range_sum(vals, 0, 0) == 0);
                assert(cell(n - 1, 0) == self.capacity / 2 - 1);
            }
            self.tables[self.capacity / 2 - 1]
        }
    }

    /// The smallest key whose prefix sum reaches `quant`, or `None` when the
    /// total falls short. The descent assumes non-negative values; whatever
    /// the values, a key it returns has a prefix sum that reaches `quant`
    /// while the keys before it fall short.
    pub fn get_quantile(&self, quant: i64) -> (r: Option<usize>)
        requires
            self.wf(),
        ensures
            all_nonneg(self@) ==> is_quantile(self@, quant as int, r),
            r matches Some(j) ==> j < self@.len() && prefix_sum(self@, j as int) >= quant && (j
                == 0 || prefix_sum(self@, j - 1) < quant),
            r is None <==> range_sum(self@, 0, self@.len() as int) < quant,
    {
        let ghost vals = self.vals@;
        let ghost n = self.levels@;
        let cap = self.capacity;
        if quant > self.total {
            proof {
                if all_nonneg(vals) {
                    assert forall|j: int| 0 <= j < vals.len() implies #[trigger] prefix_sum(
                        vals,
                        j,
                    ) < quant by {
                        lemma_prefix_monotone(vals, j, vals.len() - 1);
                    }
                }
            }
            return None;
        }
        let mut index: usize = 0;
        let mut acc: i64 = 0;
        let mut width: usize = 1;
        let mut h: usize = cap / 2;
        let ghost mut i: int = 0;
        proof {
            lemma_pow2_zero();
            lemma_level(n, 0);
        }
        while width < cap
            invariant
                self.wf(),
                self.capacity == cap,
                cap == pow2(n),
                self.levels@ == n,
                vals == self@,
                0 <= i <= n,
                width == pow2(i as nat),
                i < n ==> h == span(n, i + 1),
                width < cap <==> i < n,
                index < width,
                acc == range_sum(vals, 0, index * span(n, i)),
                index == 0 || acc < quant,
                range_sum(vals, 0, (index + 1) * span(n, i)) >= quant,
                (index + 1) * span(n, i) <= cap,
            decreases n - i,
        {
            let ghost u = span(n, i);
            proof {
                lemma_level(n, i);
                lemma_cell_in_range(n, i, index as int);
                assert(index * u + h == (2 * index + 1) * h) by (nonlinear_arith)
                    requires
                        u == 2 * h,
                ;
                assert(index * u == (2 * index) * h) by (nonlinear_arith)
                    requires
                        u == 2 * h,
                ;
                assert((index + 1) * u == (2 * index + 2) * h) by (nonlinear_arith)
                    requires
                        u == 2 * h,
                ;
                lemma_range_split(vals, 0, index * u, index * u + h);
                assert(in_i64(range_sum(vals, 0, index * u + h)));
            }
            let left = self.tables[width - 1 + index];
            if left + acc >= quant {
                index = index * 2;
            } else {
                acc = acc + left;
                index = index * 2 + 1;
            }
            width = width * 2;
            h = h / 2;
            proof {
                i = i + 1;
                lemma_level(n, i);
            }
        }
        proof {
            lemma_level(n, i);
            assert(index * 1 == index);
            assert((index + 1) * 1 == index + 1);
            if all_nonneg(vals) {
                assert forall|j: int| 0 <= j < index implies #[trigger] prefix_sum(vals, j)
                    < quant by {
                    lemma_prefix_monotone(vals, j, index - 1);
                }
            }
        }
        Some(index)
    }
}

/// A cell of a level lies among the `2^n - 1` cells, and its block among the
/// `2^n` keys.
proof fn lemma_cell_in_range(n: nat, i: int, j: int)
    requires
        0 <= i < n,
        0 <= j < pow2(i as nat),
    ensures
        0 <= cell(i, j) < pow2(n) - 1,
        span(n, i) == 2 * span(n, i + 1),
        span(n, i + 1) > 0,
        0 <= j * span(n, i),
        j * span(n, i) + span(n, i) <= pow2(n),
{
    lemma_pow2_unfold((i + 1) as nat);
    if i + 1 < n {
        lemma_pow2_strictly_increases((i + 1) as nat, n);
    }
    lemma_pow2_unfold((n - i) as nat);
    assert((n - i - 1) as nat == (n - (i + 1)) as nat);
    lemma_pow2_pos((n - (i + 1)) as nat);
    lemma_pow2_adds(i as nat, (n - i) as nat);
    assert(i as nat + (n - i) as nat == n);
    let w = pow2(i as nat) as int;
    let s = span(n, i);
    assert(j * s + s <= w * s) by (nonlinear_arith)
        requires
            0 <= j < w,
            0 < s,
    ;
    assert(0 <= j * s) by (nonlinear_arith)
        requires
            0 <= j,
            0 < s,
    ;
}

impl CumlMap for CumlFreqTable {
    type Key = usize;

    open spec fn inv(&self) -> bool {
        self.wf()
    }

    open spec fn can_insert(&self, key: usize, val: i64) -> bool {
        key < self@.len() && sums_fit(self@.update(key as int, self@[key as int] + val))
    }

    open spec fn can_query(&self, key: usize) -> bool {
        key < self@.len()
    }

    open spec fn value_at(&self, key: usize) -> int {
        if key < self@.len() {
            self@[key as int]
        } else {
            0
        }
    }

    open spec fn cumulative_at(&self, key: usize) -> int {
        prefix_sum(self@, key as int)
    }

    open spec fn monotone(&self) -> bool {
        all_nonneg(self@)
    }

    open spec fn quantile_ok(&self, t: int, r: Option<usize>) -> bool {
        is_quantile(self@, t, r)
    }

    fn insert(&mut self, key: usize, val: i64) {
        CumlFreqTable::insert(self, key, val)
    }

    fn get_cuml(&self, key: usize) -> (r: i64) {
        CumlFreqTable::get_cuml(self, key)
    }

    fn get_single(&self, key: usize) -> (r: i64) {
        CumlFreqTable::get_single(self, key)
    }

    fn get_quantile(&self, quant: i64) -> (r: Option<usize>) {
        CumlFreqTable::get_quantile(self, quant)
    }
}

} // verus!
