//! The contract that every cumulative map meets.
use vstd::prelude::*;

verus! {

/// Building and querying a mapping from keys to values that answers, for
/// each key, the sum of the values at that key and every key below it.
pub trait CumlMap: Sized {
    /// The type of the keys.
    type Key;

    /// The map is well formed.
    spec fn inv(&self) -> bool;

    /// Adding `val` at `key` stays within what the map can hold.
    spec fn can_insert(&self, key: Self::Key, val: i64) -> bool;

    /// `key` may be asked for its value or its cumulative value.
    spec fn can_query(&self, key: Self::Key) -> bool;

    /// The value accumulated at exactly `key`.
    spec fn value_at(&self, key: Self::Key) -> int;

    /// The sum of the values at `key` and every key below it.
    spec fn cumulative_at(&self, key: Self::Key) -> int;

    /// No value is negative, so the cumulative values never decrease.
    spec fn monotone(&self) -> bool;

    /// `r` is the first key whose cumulative value reaches `t`, or `None`
    /// when no key's does.
    spec fn quantile_ok(&self, t: int, r: Option<Self::Key>) -> bool;

    /// Adds `val` to the value at `key`.
    fn insert(&mut self, key: Self::Key, val: i64)
        requires
            old(self).inv(),
            old(self).can_insert(key, val),
        ensures
            final(self).inv(),
            forall|k: Self::Key| #[trigger]
                final(self).value_at(k) == old(self).value_at(k) + (if k == key {
                    val as int
                } else {
                    0
                }),
    ;

    /// The sum of the values at `key` and every key below it.
    fn get_cuml(&self, key: Self::Key) -> (r: i64)
        requires
            self.inv(),
            self.can_query(key),
        ensures
            r == self.cumulative_at(key),
    ;

    /// The value at exactly `key`.
    fn get_single(&self, key: Self::Key) -> (r: i64)
        requires
            self.inv(),
            self.can_query(key),
        ensures
            r == self.value_at(key),
    ;

    /// The first key whose cumulative value reaches `quant`, if one does;
    /// exact when the values are non-negative.
    fn get_quantile(&self, quant: i64) -> (r: Option<Self::Key>)
        requires
            self.inv(),
        ensures
            self.monotone() ==> self.quantile_ok(quant as int, r),
    ;
}

} // verus!
