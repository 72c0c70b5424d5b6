//! Facts about the lowest set bit of an index, on which the implicit tree
//! of a Fenwick tree rests.
use vstd::prelude::*;

verus! {

/// `i` with its lowest set bit cleared.
pub open spec fn strip_low(i: usize) -> usize {
    i & ((i - 1) as usize)
}

pub proof fn lemma_strip_low_below(i: usize)
    requires
        i > 0,
    ensures
        strip_low(i) < i,
{
    assert(i > 0 ==> i & ((i - 1) as usize) < i) by (bit_vector);
}

/// The next cell up the update path of `j` is no further than any later
/// cell that covers the same key.
pub proof fn lemma_next_cell_bound(j: usize, i: usize, k: usize)
    requires
        0 < j < i,
        strip_low(j) < k <= j,
        strip_low(i) < k <= i,
    ensures
        2 * j - strip_low(j) <= i,
{
    assert(0 < j < i &&  j & ((j - 1) as usize) < k && k <= j
        && i & ((i - 1) as usize) < k && k <= i ==> 2 * j - (j & ((j - 1) as usize)) <= i)
        by (bit_vector);
}

/// The next cell up the update path, `n`, lies above `j` and covers at
/// least what `j` covers.
pub proof fn lemma_next_cell_covers(j: usize, n: usize)
    requires
        0 < j,
        n == 2 * j - strip_low(j),
    ensures
        j < n,
        strip_low(n) <= strip_low(j),
{
    assert(0 < j && n == 2 * j - (j & ((j - 1) as usize)) ==> j < n && n & ((n - 1) as usize)
        <= j & ((j - 1) as usize)) by (bit_vector);
}

/// Every index strictly between `strip_low(key)` and `key` strips down to no
/// less than `strip_low(key)`.
pub proof fn lemma_strip_within(key: usize, x: usize)
    requires
        0 < key,
        strip_low(key) < x < key,
    ensures
        strip_low(key) <= strip_low(x),
{
    assert(0 < key && key & ((key - 1) as usize) < x && x < key ==> key & ((key - 1) as usize)
        <= x & ((x - 1) as usize)) by (bit_vector);
}

pub open spec fn is_pow2(s: usize) -> bool {
    s > 0 && s & ((s - 1) as usize) == 0
}

/// `ix` is a multiple of the power of two `span`.
pub open spec fn aligned(ix: usize, span: usize) -> bool {
    ix & ((span - 1) as usize) == 0
}

/// One step of a descent: adding `step` to an index aligned to `d == 2 * step`
/// gives the cell `n` that covers exactly the keys after `ix` up to `n`, and
/// both indices are aligned to `step` for the halved step.
pub proof fn lemma_descent_step(ix: usize, step: usize, d: usize, n: usize)
    requires
        is_pow2(step),
        d == 2 * step,
        n == ix + step,
        aligned(ix, d),
    ensures
        strip_low(n) == ix,
        step == 1 || (is_pow2(step / 2) && aligned(ix, step) && aligned(n, step) && 2 * (step
            / 2) == step),
{
    assert(step > 0 && step & ((step - 1) as usize) == 0 && d == 2 * step && n == ix + step && ix
        & ((d - 1) as usize) == 0 ==> n & ((n - 1) as usize) == ix) by (bit_vector);
    let h = step / 2;
    assert(step > 0 && step & ((step - 1) as usize) == 0 && d == 2 * step && n == ix + step && ix
        & ((d - 1) as usize) == 0 && h == step / 2 ==> step == 1 || (h > 0 && h & ((h - 1) as usize)
        == 0 && ix & ((step - 1) as usize) == 0 && n & ((step - 1) as usize) == 0 && 2 * h
        == step)) by (bit_vector);
}

/// Doubling a power of two gives a power of two.
pub proof fn lemma_pow2_double(s: usize, d: usize)
    requires
        is_pow2(s),
        d == 2 * s,
    ensures
        is_pow2(d),
{
    assert(s > 0 && s & ((s - 1) as usize) == 0 && d == 2 * s ==> d > 0 && d & ((d - 1) as usize)
        == 0) by (bit_vector);
}

pub proof fn lemma_zero_aligned(span: usize)
    ensures
        aligned(0, span),
{
    assert(0usize & ((span - 1) as usize) == 0) by (bit_vector);
}

pub proof fn lemma_one_pow2()
    ensures
        is_pow2(1),
{
    assert(1usize & 0usize == 0) by (bit_vector);
}

} // verus!
