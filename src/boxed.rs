//! A cumulative map over an unbalanced binary search tree of boxed nodes.
//! Each node keeps its own value plus the total of its left subtree.
use vstd::prelude::*;

use crate::cmap::CumlMap;
use crate::entries::{
    lemma_sorted_node, sorted,
    lemma_add_single,
    add_entry, cuml, first_reach, keys_above, keys_below, lemma_add_after, lemma_add_before,
    lemma_add_keys_above, lemma_add_keys_below, lemma_add_total, lemma_cuml_above,
    lemma_cuml_below, lemma_cuml_concat, lemma_fit_node, lemma_prefixes_node, lemma_reach_concat,
    lemma_reach_none, lemma_single_absent, lemma_single_concat, lemma_total_node, prefixes_fit,
    single, total, vals,
};
use crate::sums::{all_nonneg, sums_fit};

verus! {

/// `r` as a mathematical integer, if it is there.
pub open spec fn opt_int(r: Option<i64>) -> Option<int> {
    match r {
        Some(k) => Some(k as int),
        None => None,
    }
}

struct BoxedCumlNode {
    index: i64,
    val: i64,
    left: Option<Box<BoxedCumlNode>>,
    right: Option<Box<BoxedCumlNode>>,
}

impl BoxedCumlNode {
    spec fn opt_ents(t: Option<Box<BoxedCumlNode>>) -> Seq<(int, int)>
        decreases t,
    {
        match t {
            None => seq![],
            Some(n) => n.ents(),
        }
    }

    spec fn opt_sum(t: Option<Box<BoxedCumlNode>>) -> int
        decreases t,
    {
        match t {
            None => 0,
            Some(n) => n.sum(),
        }
    }

    /// The entries of the subtree in key order; a node's own value is its
    /// stored value less the total of its left subtree.
    spec fn ents(self) -> Seq<(int, int)>
        decreases self,
    {
        Self::opt_ents(self.left) + seq![(self.index as int, self.val - Self::opt_sum(self.left))]
            + Self::opt_ents(self.right)
    }

    spec fn sum(self) -> int
        decreases self,
    {
        self.val + Self::opt_sum(self.right)
    }

    spec fn opt_ordered(t: Option<Box<BoxedCumlNode>>) -> bool
        decreases t,
    {
        match t {
            None => true,
            Some(n) => n.ordered(),
        }
    }

    spec fn ordered(self) -> bool
        decreases self,
    {
        &&& Self::opt_ordered(self.left)
        &&& Self::opt_ordered(self.right)
        &&& keys_below(Self::opt_ents(self.left), self.index as int)
        &&& keys_above(Self::opt_ents(self.right), self.index as int)
    }

    spec fn own(self) -> (int, int) {
        (self.index as int, self.val - Self::opt_sum(self.left))
    }

    proof fn lemma_opt_sorted(t: Option<Box<BoxedCumlNode>>)
        requires
            Self::opt_ordered(t),
        ensures
            sorted(Self::opt_ents(t)),
        decreases t,
    {
        if let Some(n) = t {
            assert(n.ordered());
            Self::lemma_opt_sorted(n.left);
            Self::lemma_opt_sorted(n.right);
            lemma_sorted_node(Self::opt_ents(n.left), n.own(), Self::opt_ents(n.right));
        }
    }

    proof fn lemma_opt_sum(t: Option<Box<BoxedCumlNode>>)
        ensures
            Self::opt_sum(t) == total(Self::opt_ents(t)),
        decreases t,
    {
        if let Some(n) = t {
            Self::lemma_opt_sum(n.left);
            Self::lemma_opt_sum(n.right);
            lemma_total_node(Self::opt_ents(n.left), n.own(), Self::opt_ents(n.right));
        }
    }

    fn new(k: i64, v: i64) -> (r: BoxedCumlNode)
        ensures
            r.ordered(),
            r.ents() == seq![(k as int, v as int)],
    {
        let r = BoxedCumlNode { index: k, val: v, left: None, right: None };
        proof {
            assert(r.ents() =~= seq![(k as int, v as int)]);
        }
        r
    }

    fn get_total(&self) -> (r: i64)
        requires
            sums_fit(vals(self.ents())),
        ensures
            r == total(self.ents()),
        decreases self,
    {
        proof {
            Self::lemma_opt_sum(self.left);
            Self::lemma_opt_sum(self.right);
            lemma_fit_node(Self::opt_ents(self.left), self.own(), Self::opt_ents(self.right));
            lemma_total_node(Self::opt_ents(self.left), self.own(), Self::opt_ents(self.right));
        }
        self.val + match self.right {
            None => 0,
            Some(ref r) => r.get_total(),
        }
    }

    fn insert(&mut self, k: i64, v: i64)
        requires
            old(self).ordered(),
            sums_fit(vals(add_entry(old(self).ents(), k as int, v as int))),
        ensures
            final(self).ordered(),
            final(self).ents() == add_entry(old(self).ents(), k as int, v as int),
        decreases *old(self),
    {
        let ghost l = Self::opt_ents(self.left);
        let ghost m = self.own();
        let ghost r = Self::opt_ents(self.right);
        proof {
            Self::lemma_opt_sum(self.left);
        }
        if k < self.index {
            proof {
                assert(keys_above(seq![m] + r, k as int));
                lemma_add_before(l, seq![m] + r, k as int, v as int);
                assert(l + seq![m] + r =~= l + (seq![m] + r));
                assert(add_entry(l, k as int, v as int) + (seq![m] + r) =~= add_entry(
                    l,
                    k as int,
                    v as int,
                ) + seq![m] + r);
                lemma_fit_node(add_entry(l, k as int, v as int), m, r);
                lemma_add_total(l, k as int, v as int);
                lemma_add_keys_below(l, k as int, v as int, self.index as int);
            }
            self.val = self.val + v;
            match self.left.take() {
                None => {
                    self.left = Some(Box::new(BoxedCumlNode::new(k, v)));
                },
                Some(mut n) => {
                    n.insert(k, v);
                    self.left = Some(n);
                },
            }
            proof {
                Self::lemma_opt_sum(self.left);
            }
        } else if k > self.index {
            proof {
                assert(keys_below(l + seq![m], k as int));
                lemma_add_after(l + seq![m], r, k as int, v as int);
                lemma_add_keys_above(r, k as int, v as int, self.index as int);
            }
            match self.right.take() {
                None => {
                    self.right = Some(Box::new(BoxedCumlNode::new(k, v)));
                },
                Some(mut n) => {
                    proof {
                        lemma_fit_node(l, m, add_entry(r, k as int, v as int));
                        assert(l + seq![m] + add_entry(r, k as int, v as int) =~= (l + seq![m])
                            + add_entry(r, k as int, v as int));
                    }
                    n.insert(k, v);
                    self.right = Some(n);
                },
            }
        } else {
            proof {
                lemma_add_after(l, seq![m] + r, k as int, v as int);
                assert(l + seq![m] + r =~= l + (seq![m] + r));
                let m2 = (m.0, m.1 + v);
                assert((seq![m] + r).update(0, m2) =~= seq![m2] + r);
                assert(l + (seq![m2] + r) =~= l + seq![m2] + r);
                lemma_fit_node(l, m2, r);
                lemma_total_node(l, m2, r);
            }
            self.val = self.val + v;
        }
        proof {
            assert(self.ents() =~= add_entry(old(self).ents(), k as int, v as int));
        }
    }

    fn get_cuml(&self, k: i64, acc: i64) -> (r: i64)
        requires
            self.ordered(),
            prefixes_fit(self.ents(), acc as int),
        ensures
            r == acc + cuml(self.ents(), k as int),
        decreases self,
    {
        let ghost l = Self::opt_ents(self.left);
        let ghost m = self.own();
        let ghost r = Self::opt_ents(self.right);
        proof {
            Self::lemma_opt_sum(self.left);
            lemma_prefixes_node(l, m, r, acc as int);
            lemma_cuml_concat(l + seq![m], r, k as int);
            lemma_cuml_concat(l, seq![m], k as int);
            assert(cuml(seq![m], k as int) == cuml(seq![m].drop_last(), k as int) + (if m.0
                <= k {
                m.1
            } else {
                0
            }));
            if k <= self.index {
                lemma_cuml_above(r, k as int);
            }
            if k >= self.index {
                lemma_cuml_below(l, k as int);
            }
        }
        if k < self.index {
            match self.left {
                None => acc,
                Some(ref n) => n.get_cuml(k, acc),
            }
        } else if k > self.index {
            match self.right {
                None => acc + self.val,
                Some(ref n) => n.get_cuml(k, acc + self.val),
            }
        } else {
            acc + self.val
        }
    }

    fn get_single(&self, k: i64) -> (r: i64)
        requires
            self.ordered(),
            sums_fit(vals(self.ents())),
        ensures
            r == single(self.ents(), k as int),
        decreases self,
    {
        let ghost l = Self::opt_ents(self.left);
        let ghost m = self.own();
        let ghost r = Self::opt_ents(self.right);
        proof {
            Self::lemma_opt_sum(self.left);
            lemma_fit_node(l, m, r);
            lemma_single_concat(l + seq![m], r, k as int);
            lemma_single_concat(l, seq![m], k as int);
            assert(single(seq![m], k as int) == single(seq![m].drop_last(), k as int) + (if m.0
                == k {
                m.1
            } else {
                0
            }));
            if k <= self.index {
                lemma_single_absent(r, k as int);
            }
            if k >= self.index {
                lemma_single_absent(l, k as int);
            }
        }
        if k < self.index {
            match self.left {
                None => 0,
                Some(ref n) => n.get_single(k),
            }
        } else if k > self.index {
            match self.right {
                None => 0,
                Some(ref n) => n.get_single(k),
            }
        } else {
            match self.left {
                None => self.val,
                Some(ref n) => self.val - n.get_total(),
            }
        }
    }

    fn get_quantile(&self, v: i64, acc: i64) -> (r: Option<i64>)
        requires
            prefixes_fit(self.ents(), acc as int),
        ensures
            all_nonneg(vals(self.ents())) ==> opt_int(r) == first_reach(
                self.ents(),
                acc as int,
                v as int,
            ),
        decreases self,
    {
        let ghost l = Self::opt_ents(self.left);
        let ghost m = self.own();
        let ghost r = Self::opt_ents(self.right);
        proof {
            Self::lemma_opt_sum(self.left);
            lemma_prefixes_node(l, m, r, acc as int);
            lemma_reach_concat(l + seq![m], r, acc as int, v as int);
            lemma_reach_concat(l, seq![m], acc as int, v as int);
            lemma_total_node(l, m, seq![]);
            assert(l + seq![m] + seq![] =~= l + seq![m]);
            assert(seq![m].drop_first() =~= seq![]);
            assert(seq![m][0] == m);
            assert(first_reach(seq![m].drop_first(), acc + total(l) + m.1, v as int) is None);
            assert(first_reach(seq![m], acc + total(l), v as int) == (if acc + total(l) + m.1
                >= v {
                Some(m.0)
            } else {
                None
            }));
            crate::entries::lemma_vals_concat(l + seq![m], r);
            crate::entries::lemma_vals_concat(l, seq![m]);
            if all_nonneg(vals(self.ents())) {
                let s = vals(self.ents());
                assert forall|i: int| 0 <= i < l.len() implies #[trigger] l[i].1 >= 0 by {
                    assert(s[i] == l[i].1);
                }
                assert(s[l.len() as int] == m.1);
                assert(all_nonneg(vals(l)));
                assert forall|i: int| 0 <= i < r.len() implies #[trigger] vals(r)[i] >= 0 by {
                    assert(s[l.len() + 1 + i] == r[i].1);
                }
                if acc + total(l) + m.1 < v {
                    lemma_reach_none(l, acc as int, v as int);
                }
            }
        }
        let here = acc + self.val;
        if v > here {
            match self.right {
                None => None,
                Some(ref n) => n.get_quantile(v, here),
            }
        } else {
            match self.left {
                None => Some(self.index),
                Some(ref n) => match n.get_quantile(v, acc) {
                    None => Some(self.index),
                    s => s,
                },
            }
        }
    }
}

/// A cumulative map over an unbalanced binary search tree of boxed nodes,
/// with `i64` keys and values.
pub struct BoxedCumlTree {
    root: Option<Box<BoxedCumlNode>>,
}

impl View for BoxedCumlTree {
    type V = Seq<(int, int)>;

    /// The entries in key order.
    closed spec fn view(&self) -> Seq<(int, int)> {
        BoxedCumlNode::opt_ents(self.root)
    }
}

impl BoxedCumlTree {
    pub closed spec fn ordered(&self) -> bool {
        BoxedCumlNode::opt_ordered(self.root)
    }

    pub open spec fn wf(&self) -> bool {
        &&& self.ordered()
        &&& sorted(self@)
        &&& sums_fit(vals(self@))
    }

    /// Builds an empty map.
    pub fn new() -> (r: BoxedCumlTree)
        ensures
            r.wf(),
            r@ == Seq::<(int, int)>::empty(),
    {
        let r = BoxedCumlTree { root: None };
        proof {
            crate::sums::lemma_zeros_fit(vals(r@));
        }
        r
    }

    /// Adds `v` to the value at key `k`.
    pub fn insert(&mut self, k: i64, v: i64)
        requires
            old(self).wf(),
            sums_fit(vals(add_entry(old(self)@, k as int, v as int))),
        ensures
            final(self).wf(),
            final(self)@ == add_entry(old(self)@, k as int, v as int),
    {
        match self.root.take() {
            Some(mut n) => {
                n.insert(k, v);
                self.root = Some(n);
            },
            None => {
                self.root = Some(Box::new(BoxedCumlNode::new(k, v)));
            },
        }
        proof {
            BoxedCumlNode::lemma_opt_sorted(self.root);
        }
    }

    /// The sum of the values at keys up to and including `k`.
    pub fn get_cuml(&self, k: i64) -> (r: i64)
        requires
            self.wf(),
        ensures
            r == cuml(self@, k as int),
    {
        match self.root {
            Some(ref n) => {
                proof {
                    lemma_fit_node(
                        BoxedCumlNode::opt_ents(n.left),
                        n.own(),
                        BoxedCumlNode::opt_ents(n.right),
                    );
                }
                n.get_cuml(k, 0)
            },
            None => 0,
        }
    }

    /// The value at exactly key `k`.
    pub fn get_single(&self, k: i64) -> (r: i64)
        requires
            self.wf(),
        ensures
            r == single(self@, k as int),
    {
        match self.root {
            Some(ref n) => n.get_single(k),
            None => 0,
        }
    }

    /// The smallest key at which the cumulative value reaches `quant`, or
    /// `None` when none does; exact when every value is non-negative.
    pub fn get_quantile(&self, quant: i64) -> (r: Option<i64>)
        requires
            self.wf(),
        ensures
            all_nonneg(vals(self@)) ==> opt_int(r) == first_reach(self@, 0, quant as int),
    {
        match self.root {
            Some(ref n) => {
                proof {
                    lemma_fit_node(
                        BoxedCumlNode::opt_ents(n.left),
                        n.own(),
                        BoxedCumlNode::opt_ents(n.right),
                    );
                }
                n.get_quantile(quant, 0)
            },
            None => None,
        }
    }
}

impl CumlMap for BoxedCumlTree {
    type Key = i64;

    open spec fn inv(&self) -> bool {
        self.wf()
    }

    open spec fn can_insert(&self, key: i64, val: i64) -> bool {
        sums_fit(vals(add_entry(self@, key as int, val as int)))
    }

    open spec fn can_query(&self, key: i64) -> bool {
        true
    }

    open spec fn value_at(&self, key: i64) -> int {
        single(self@, key as int)
    }

    open spec fn cumulative_at(&self, key: i64) -> int {
        cuml(self@, key as int)
    }

    open spec fn monotone(&self) -> bool {
        all_nonneg(vals(self@))
    }

    open spec fn quantile_ok(&self, t: int, r: Option<i64>) -> bool {
        opt_int(r) == first_reach(self@, 0, t)
    }

    fn insert(&mut self, key: i64, val: i64) {
        proof {
            lemma_add_single(self@, key as int, val as int);
        }
        BoxedCumlTree::insert(self, key, val)
    }

    fn get_cuml(&self, key: i64) -> (r: i64) {
        BoxedCumlTree::get_cuml(self, key)
    }

    fn get_single(&self, key: i64) -> (r: i64) {
        BoxedCumlTree::get_single(self, key)
    }

    fn get_quantile(&self, quant: i64) -> (r: Option<i64>) {
        BoxedCumlTree::get_quantile(self, quant)
    }
}

} // verus!
