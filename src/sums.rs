//! Sums of consecutive values, the mathematical model behind every
//! cumulative query.
use vstd::prelude::*;

verus! {

/// The sum of `s[lo]`, ..., `s[hi - 1]` (zero when the range is empty).
pub open spec fn range_sum(s: Seq<int>, lo: int, hi: int) -> int
    decreases hi - lo,
{
    if hi <= lo {
        0
    } else {
        range_sum(s, lo, hi - 1) + s[hi - 1]
    }
}

/// The sum of the values at keys `0..=k`, clamped to the sequence.
pub open spec fn prefix_sum(s: Seq<int>, k: int) -> int {
    range_sum(s, 0, if k + 1 <= s.len() { k + 1 } else { s.len() as int })
}

pub open spec fn in_i64(x: int) -> bool {
    i64::MIN <= x <= i64::MAX
}

/// Every sum of consecutive values of `s` can be held by an `i64`.
pub open spec fn sums_fit(s: Seq<int>) -> bool {
    forall|lo: int, hi: int| 0 <= lo <= hi <= s.len() ==> in_i64(#[trigger] range_sum(s, lo, hi))
}

pub open spec fn all_nonneg(s: Seq<int>) -> bool {
    forall|i: int| 0 <= i < s.len() ==> 0 <= #[trigger] s[i]
}

pub proof fn lemma_range_split(s: Seq<int>, lo: int, mid: int, hi: int)
    requires
        lo <= mid <= hi,
    ensures
        range_sum(s, lo, hi) == range_sum(s, lo, mid) + range_sum(s, mid, hi),
    decreases hi - mid,
{
    if mid < hi {
        lemma_range_split(s, lo, mid, hi - 1);
    }
}

/// Adding `v` at index `k` changes exactly the sums whose range holds `k`.
pub proof fn lemma_range_add(s: Seq<int>, k: int, v: int, lo: int, hi: int)
    requires
        0 <= k < s.len(),
        0 <= lo,
        hi <= s.len(),
    ensures
        range_sum(s.update(k, s[k] + v), lo, hi) == range_sum(s, lo, hi) + (if lo <= k < hi {
            v
        } else {
            0
        }),
    decreases hi - lo,
{
    if lo < hi {
        lemma_range_add(s, k, v, lo, hi - 1);
    }
}

/// Sums over equal stretches of two sequences are equal.
pub proof fn lemma_range_shift(s: Seq<int>, t: Seq<int>, d: int, lo: int, hi: int)
    requires
        0 <= lo,
        hi <= s.len(),
        0 <= lo + d,
        hi + d <= t.len(),
        forall|i: int| lo <= i < hi ==> s[i] == t[i + d],
    ensures
        range_sum(s, lo, hi) == range_sum(t, lo + d, hi + d),
    decreases hi - lo,
{
    if lo < hi {
        lemma_range_shift(s, t, d, lo, hi - 1);
    }
}

/// A sum over zeros is zero.
pub proof fn lemma_range_zeros(s: Seq<int>, lo: int, hi: int)
    requires
        0 <= lo,
        hi <= s.len(),
        forall|i: int| lo <= i < hi ==> s[i] == 0,
    ensures
        range_sum(s, lo, hi) == 0,
    decreases hi - lo,
{
    if lo < hi {
        lemma_range_zeros(s, lo, hi - 1);
    }
}

/// A sum over non-negative values is non-negative.
pub proof fn lemma_range_nonneg(s: Seq<int>, lo: int, hi: int)
    requires
        0 <= lo,
        hi <= s.len(),
        all_nonneg(s),
    ensures
        range_sum(s, lo, hi) >= 0,
    decreases hi - lo,
{
    if lo < hi {
        lemma_range_nonneg(s, lo, hi - 1);
    }
}

/// With non-negative values, prefix sums never decrease.
pub proof fn lemma_prefix_monotone(s: Seq<int>, i: int, j: int)
    requires
        0 <= i <= j,
        all_nonneg(s),
    ensures
        prefix_sum(s, i) <= prefix_sum(s, j),
{
    let a = if i + 1 <= s.len() { i + 1 } else { s.len() as int };
    let b = if j + 1 <= s.len() { j + 1 } else { s.len() as int };
    lemma_range_split(s, 0, a, b);
    lemma_range_nonneg(s, a, b);
}

/// All zeros: every sum fits.
pub proof fn lemma_zeros_fit(s: Seq<int>)
    requires
        forall|i: int| 0 <= i < s.len() ==> s[i] == 0,
    ensures
        sums_fit(s),
{
    assert forall|lo: int, hi: int| 0 <= lo <= hi <= s.len() implies in_i64(
        #[trigger] range_sum(s, lo, hi),
    ) by {
        lemma_range_zeros(s, lo, hi);
    }
}

/// The sum of `f(k)` over the keys `lo <= k < hi`.
pub open spec fn key_sum(f: spec_fn(int) -> int, lo: int, hi: int) -> int
    decreases hi - lo,
{
    if hi <= lo {
        0
    } else {
        key_sum(f, lo, hi - 1) + f(hi - 1)
    }
}

/// The values of `s` laid out at the keys `off..off + s.len()`, zero at
/// every other key.
pub open spec fn window(s: Seq<int>, off: int) -> spec_fn(int) -> int {
    |k: int|
        if off <= k < off + s.len() {
            s[k - off]
        } else {
            0
        }
}

/// `x` clamped to `0..=n`.
pub open spec fn clamp(x: int, n: int) -> int {
    if x < 0 {
        0
    } else if x > n {
        n
    } else {
        x
    }
}

/// A sum over a stretch of keys where a sequence and a function agree.
pub proof fn lemma_seq_key_sum(t: Seq<int>, f: spec_fn(int) -> int, lo: int, hi: int)
    requires
        0 <= lo,
        hi <= t.len(),
        forall|j: int| lo <= j < hi ==> #[trigger] t[j] == f(j),
    ensures
        range_sum(t, lo, hi) == key_sum(f, lo, hi),
    decreases hi - lo,
{
    if lo < hi {
        lemma_seq_key_sum(t, f, lo, hi - 1);
    }
}

/// A sum over keys of a window is the sum over the part of the sequence
/// that the keys reach.
pub proof fn lemma_window_sum(s: Seq<int>, off: int, lo: int, hi: int)
    requires
        lo <= hi,
    ensures
        key_sum(window(s, off), lo, hi) == range_sum(
            s,
            clamp(lo - off, s.len() as int),
            clamp(hi - off, s.len() as int),
        ),
    decreases hi - lo,
{
    let n = s.len() as int;
    if lo < hi {
        lemma_window_sum(s, off, lo, hi - 1);
        let a = clamp(lo - off, n);
        if 0 <= hi - 1 - off < n {
            assert(range_sum(s, a, hi - off) == range_sum(s, a, hi - 1 - off) + s[hi - 1 - off]);
        }
    }
}

/// Two functions that agree over a stretch of keys have the same sum there.
pub proof fn lemma_key_sum_agree(f: spec_fn(int) -> int, g: spec_fn(int) -> int, lo: int, hi: int)
    requires
        forall|k: int| lo <= k < hi ==> #[trigger] f(k) == g(k),
    ensures
        key_sum(f, lo, hi) == key_sum(g, lo, hi),
    decreases hi - lo,
{
    if lo < hi {
        lemma_key_sum_agree(f, g, lo, hi - 1);
    }
}

/// Keys whose value is zero may be left out at the start of a sum.
pub proof fn lemma_key_sum_skip_zeros(f: spec_fn(int) -> int, lo: int, mid: int, hi: int)
    requires
        lo <= mid,
        forall|k: int| lo <= k < mid ==> #[trigger] f(k) == 0,
    ensures
        key_sum(f, lo, hi) == key_sum(f, mid, hi),
    decreases hi - lo,
{
    if lo < hi {
        lemma_key_sum_skip_zeros(f, lo, mid, hi - 1);
    }
}

/// Adding `v` at key `key` changes exactly the sums whose keys hold `key`.
pub proof fn lemma_key_sum_add(
    f: spec_fn(int) -> int,
    g: spec_fn(int) -> int,
    key: int,
    v: int,
    lo: int,
    hi: int,
)
    requires
        forall|k: int| #[trigger] g(k) == f(k) + (if k == key { v } else { 0 }),
    ensures
        key_sum(g, lo, hi) == key_sum(f, lo, hi) + (if lo <= key < hi { v } else { 0 }),
    decreases hi - lo,
{
    if lo < hi {
        lemma_key_sum_add(f, g, key, v, lo, hi - 1);
        assert(g(hi - 1) == f(hi - 1) + (if hi - 1 == key { v } else { 0 }));
    }
}

/// With non-negative values, sums over keys from a fixed start never
/// decrease as the end grows.
pub proof fn lemma_key_sum_monotone(f: spec_fn(int) -> int, lo: int, a: int, b: int)
    requires
        a <= b,
        forall|k: int| #[trigger] f(k) >= 0,
    ensures
        key_sum(f, lo, a) <= key_sum(f, lo, b),
    decreases b - a,
{
    if a < b {
        lemma_key_sum_monotone(f, lo, a, b - 1);
        if lo < b {
            assert(f(b - 1) >= 0);
        }
    }
}

/// The first `n` values of `s` placed at `d..d + n` of a sequence of length
/// `len`, zero elsewhere.
pub open spec fn placed(s: Seq<int>, n: int, d: int, len: nat) -> Seq<int> {
    Seq::new(len, |j: int| (window(s.subrange(0, n), d))(j))
}

/// Placing values among zeros keeps every sum of consecutive values in
/// range.
pub proof fn lemma_placed_fit(s: Seq<int>, n: int, d: int, len: nat)
    requires
        sums_fit(s),
        0 <= n <= s.len(),
        0 <= d,
        d + n <= len,
    ensures
        sums_fit(placed(s, n, d, len)),
{
    let t = placed(s, n, d, len);
    let sub = s.subrange(0, n);
    assert forall|lo: int, hi: int| 0 <= lo <= hi <= t.len() implies in_i64(
        #[trigger] range_sum(t, lo, hi),
    ) by {
        lemma_seq_key_sum(t, window(sub, d), lo, hi);
        lemma_window_sum(sub, d, lo, hi);
        let a = clamp(lo - d, n);
        let b = clamp(hi - d, n);
        lemma_range_shift(sub, s, 0, a, b);
        assert(in_i64(range_sum(s, a, b)));
    }
}

/// A sum of values bounded by `b` in size is bounded by `b` times their
/// number.
pub proof fn lemma_range_bound(s: Seq<int>, b: int, lo: int, hi: int)
    requires
        0 <= lo <= hi <= s.len(),
        forall|i: int| 0 <= i < s.len() ==> -b <= #[trigger] s[i] <= b,
    ensures
        -((hi - lo) * b) <= range_sum(s, lo, hi) <= (hi - lo) * b,
    decreases hi - lo,
{
    if lo < hi {
        lemma_range_bound(s, b, lo, hi - 1);
        assert(-b <= s[hi - 1] <= b);
        assert((hi - lo) * b == (hi - 1 - lo) * b + b) by (nonlinear_arith);
    } else {
        assert((hi - lo) * b == 0) by (nonlinear_arith)
            requires
                hi == lo,
        ;
    }
}

/// Values bounded by `b` in size, few enough that `len * b` fits: every sum
/// of consecutive values fits.
pub proof fn lemma_bounded_fit(s: Seq<int>, b: int)
    requires
        0 <= b,
        s.len() * b <= i64::MAX,
        forall|i: int| 0 <= i < s.len() ==> -b <= #[trigger] s[i] <= b,
    ensures
        sums_fit(s),
{
    assert forall|lo: int, hi: int| 0 <= lo <= hi <= s.len() implies in_i64(
        #[trigger] range_sum(s, lo, hi),
    ) by {
        lemma_range_bound(s, b, lo, hi);
        assert((hi - lo) * b <= s.len() * b) by (nonlinear_arith)
            requires
                0 <= hi - lo <= s.len(),
                0 <= b,
        ;
    }
}

} // verus!
