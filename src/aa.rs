//! A cumulative map over an AA tree: a binary search tree of boxed nodes
//! kept balanced by levels, with skew and split rotations. Each node keeps
//! its own value plus the total of its left subtree.
use vstd::prelude::*;

use crate::boxed::opt_int;
use crate::cmap::CumlMap;
use crate::entries::{
    lemma_sorted_node, sorted,
    lemma_add_single,
    add_entry, cuml, first_reach, keys_above, keys_below, lemma_add_after, lemma_add_before,
    lemma_add_keys_above, lemma_add_keys_below, lemma_add_total, lemma_cuml_above,
    lemma_cuml_below, lemma_cuml_concat, lemma_fit_node, lemma_prefixes_node, lemma_reach_concat,
    lemma_reach_none, lemma_rotate_left_keys, lemma_rotate_right_keys, lemma_single_absent,
    lemma_single_concat, lemma_total_node, prefixes_fit,
    single, total, vals,
};
use crate::sums::{all_nonneg, sums_fit};

verus! {

struct AACumlNode {
    index: i64,
    val: i64,
    left: Option<Box<AACumlNode>>,
    right: Option<Box<AACumlNode>>,
    level: usize,
}

impl AACumlNode {
    spec fn opt_ents(t: Option<Box<AACumlNode>>) -> Seq<(int, int)>
        decreases t,
    {
        match t {
            None => seq![],
            Some(n) => n.ents(),
        }
    }

    spec fn opt_sum(t: Option<Box<AACumlNode>>) -> int
        decreases t,
    {
        match t {
            None => 0,
            Some(n) => n.sum(),
        }
    }

    /// The entries of the subtree in key order; a node's own value is its
    /// stored value less the total of its left subtree.
    spec fn ents(self) -> Seq<(int, int)>
        decreases self,
    {
        Self::opt_ents(self.left) + seq![(self.index as int, self.val - Self::opt_sum(self.left))]
            + Self::opt_ents(self.right)
    }

    spec fn sum(self) -> int
        decreases self,
    {
        self.val + Self::opt_sum(self.right)
    }

    spec fn opt_ordered(t: Option<Box<AACumlNode>>) -> bool
        decreases t,
    {
        match t {
            None => true,
            Some(n) => n.ordered(),
        }
    }

    spec fn ordered(self) -> bool
        decreases self,
    {
        &&& Self::opt_ordered(self.left)
        &&& Self::opt_ordered(self.right)
        &&& keys_below(Self::opt_ents(self.left), self.index as int)
        &&& keys_above(Self::opt_ents(self.right), self.index as int)
    }

    spec fn own(self) -> (int, int) {
        (self.index as int, self.val - Self::opt_sum(self.left))
    }

    proof fn lemma_opt_sorted(t: Option<Box<AACumlNode>>)
        requires
            Self::opt_ordered(t),
        ensures
            sorted(Self::opt_ents(t)),
        decreases t,
    {
        if let Some(n) = t {
            assert(n.ordered());
            Self::lemma_opt_sorted(n.left);
            Self::lemma_opt_sorted(n.right);
            lemma_sorted_node(Self::opt_ents(n.left), n.own(), Self::opt_ents(n.right));
        }
    }

    proof fn lemma_opt_sum(t: Option<Box<AACumlNode>>)
        ensures
            Self::opt_sum(t) == total(Self::opt_ents(t)),
        decreases t,
    {
        if let Some(n) = t {
            Self::lemma_opt_sum(n.left);
            Self::lemma_opt_sum(n.right);
            lemma_total_node(Self::opt_ents(n.left), n.own(), Self::opt_ents(n.right));
        }
    }

    fn new(k: i64, v: i64) -> (r: AACumlNode)
        ensures
            r.ordered(),
            r.ents() == seq![(k as int, v as int)],
    {
        let r = AACumlNode { index: k, val: v, left: None, right: None, level: 1 };
        proof {
            assert(r.ents() =~= seq![(k as int, v as int)]);
        }
        r
    }

    fn get_total(&self) -> (r: i64)
        requires
            sums_fit(vals(self.ents())),
        ensures
            r == total(self.ents()),
        decreases self,
    {
        proof {
            Self::lemma_opt_sum(self.left);
            Self::lemma_opt_sum(self.right);
            lemma_fit_node(Self::opt_ents(self.left), self.own(), Self::opt_ents(self.right));
            lemma_total_node(Self::opt_ents(self.left), self.own(), Self::opt_ents(self.right));
        }
        self.val + match self.right {
            None => 0,
            Some(ref r) => r.get_total(),
        }
    }

    fn get_cuml(&self, k: i64, acc: i64) -> (r: i64)
        requires
            self.ordered(),
            prefixes_fit(self.ents(), acc as int),
        ensures
            r == acc + cuml(self.ents(), k as int),
        decreases self,
    {
        let ghost l = Self::opt_ents(self.left);
        let ghost m = self.own();
        let ghost r = Self::opt_ents(self.right);
        proof {
            Self::lemma_opt_sum(self.left);
            lemma_prefixes_node(l, m, r, acc as int);
            lemma_cuml_concat(l + seq![m], r, k as int);
            lemma_cuml_concat(l, seq![m], k as int);
            assert(cuml(seq![m], k as int) == cuml(seq![m].drop_last(), k as int) + (if m.0
                <= k {
                m.1
            } else {
                0
            }));
            if k <= self.index {
                lemma_cuml_above(r, k as int);
            }
            if k >= self.index {
                lemma_cuml_below(l, k as int);
            }
        }
        if k < self.index {
            match self.left {
                None => acc,
                Some(ref n) => n.get_cuml(k, acc),
            }
        } else if k > self.index {
            match self.right {
                None => acc + self.val,
                Some(ref n) => n.get_cuml(k, acc + self.val),
            }
        } else {
            acc + self.val
        }
    }

    fn get_single(&self, k: i64) -> (r: i64)
        requires
            self.ordered(),
            sums_fit(vals(self.ents())),
        ensures
            r == single(self.ents(), k as int),
        decreases self,
    {
        let ghost l = Self::opt_ents(self.left);
        let ghost m = self.own();
        let ghost r = Self::opt_ents(self.right);
        proof {
            Self::lemma_opt_sum(self.left);
            lemma_fit_node(l, m, r);
            lemma_single_concat(l + seq![m], r, k as int);
            lemma_single_concat(l, seq![m], k as int);
            assert(single(seq![m], k as int) == single(seq![m].drop_last(), k as int) + (if m.0
                == k {
                m.1
            } else {
                0
            }));
            if k <= self.index {
                lemma_single_absent(r, k as int);
            }
            if k >= self.index {
                lemma_single_absent(l, k as int);
            }
        }
        if k < self.index {
            match self.left {
                None => 0,
                Some(ref n) => n.get_single(k),
            }
        } else if k > self.index {
            match self.right {
                None => 0,
                Some(ref n) => n.get_single(k),
            }
        } else {
            match self.left {
                None => self.val,
                Some(ref n) => self.val - n.get_total(),
            }
        }
    }

    fn get_quantile(&self, v: i64, acc: i64) -> (r: Option<i64>)
        requires
            prefixes_fit(self.ents(), acc as int),
        ensures
            all_nonneg(vals(self.ents())) ==> opt_int(r) == first_reach(
                self.ents(),
                acc as int,
                v as int,
            ),
        decreases self,
    {
        let ghost l = Self::opt_ents(self.left);
        let ghost m = self.own();
        let ghost r = Self::opt_ents(self.right);
        proof {
            Self::lemma_opt_sum(self.left);
            lemma_prefixes_node(l, m, r, acc as int);
            lemma_reach_concat(l + seq![m], r, acc as int, v as int);
            lemma_reach_concat(l, seq![m], acc as int, v as int);
            lemma_total_node(l, m, seq![]);
            assert(l + seq![m] + seq![] =~= l + seq![m]);
            assert(seq![m].drop_first() =~= seq![]);
            assert(seq![m][0] == m);
            assert(first_reach(seq![m].drop_first(), acc + total(l) + m.1, v as int) is None);
            assert(first_reach(seq![m], acc + total(l), v as int) == (if acc + total(l) + m.1
                >= v {
                Some(m.0)
            } else {
                None
            }));
            crate::entries::lemma_vals_concat(l + seq![m], r);
            crate::entries::lemma_vals_concat(l, seq![m]);
            if all_nonneg(vals(self.ents())) {
                let s = vals(self.ents());
                assert forall|i: int| 0 <= i < l.len() implies #[trigger] l[i].1 >= 0 by {
                    assert(s[i] == l[i].1);
                }
                assert(s[l.len() as int] == m.1);
                assert(all_nonneg(vals(l)));
                assert forall|i: int| 0 <= i < r.len() implies #[trigger] vals(r)[i] >= 0 by {
                    assert(s[l.len() + 1 + i] == r[i].1);
                }
                if acc + total(l) + m.1 < v {
                    lemma_reach_none(l, acc as int, v as int);
                }
            }
        }
        let here = acc + self.val;
        if v > here {
            match self.right {
                None => None,
                Some(ref n) => n.get_quantile(v, here),
            }
        } else {
            match self.left {
                None => Some(self.index),
                Some(ref n) => match n.get_quantile(v, acc) {
                    None => Some(self.index),
                    s => s,
                },
            }
        }
    }
}


/// Rotates right when the left child sits on the node's level, so that no
/// left child shares its parent's level.
fn skew_node(n: Option<Box<AACumlNode>>) -> (r: Option<Box<AACumlNode>>)
    requires
        AACumlNode::opt_ordered(n),
        sums_fit(vals(AACumlNode::opt_ents(n))),
    ensures
        AACumlNode::opt_ordered(r),
        AACumlNode::opt_ents(r) == AACumlNode::opt_ents(n),
        r is Some == n is Some,
{
    match n {
        None => {
            proof {
                assert(AACumlNode::opt_ordered(None));
            }
            None
        },
        Some(mut nn) => {
            if nn.left.is_none() {
                Some(nn)
            } else {
                let ghost n0 = *nn;
                proof {
                    assert(n0.ordered());
                }
                let mut l = nn.left.take().unwrap();
                proof {
                    assert(AACumlNode::opt_ordered(n0.left));
                    assert(l.ordered());
                    assert(n0.ents() == AACumlNode::opt_ents(Some(l)) + seq![n0.own()]
                        + AACumlNode::opt_ents(n0.right));
                }
                if l.level == nn.level {
                    let ghost ll = AACumlNode::opt_ents(l.left);
                    let ghost ml = l.own();
                    let ghost lr = AACumlNode::opt_ents(l.right);
                    let ghost mn = (nn.index as int, nn.val - l.sum());
                    let ghost r = AACumlNode::opt_ents(nn.right);
                    proof {
                        AACumlNode::lemma_opt_sum(l.right);
                        assert(ll + seq![ml] + lr + seq![mn] + r =~= ll + seq![ml] + (lr + seq![
                            mn,
                        ] + r));
                        lemma_fit_node(ll, ml, lr + seq![mn] + r);
                        lemma_fit_node(lr, mn, r);
                        lemma_rotate_right_keys(ll, ml, lr, mn, r);
                    }
                    nn.left = l.right.take();
                    nn.val = nn.val - l.val;
                    proof {
                        assert(nn.ents() =~= lr + seq![mn] + r);
                        assert(nn.ordered());
                    }
                    l.right = Some(nn);
                    proof {
                        assert(l.ents() =~= ll + seq![ml] + lr + seq![mn] + r);
                        assert(l.ordered());
                    }
                    Some(l)
                } else {
                    nn.left = Some(l);
                    proof {
                        assert(nn.ents() == n0.ents());
                        assert(nn.ordered());
                    }
                    Some(nn)
                }
            }
        },
    }
}

/// Rotates left, raising the node's level, when its right grandchild sits
/// on its level, so that no level holds more than two nodes in a row.
fn split_node(n: Option<Box<AACumlNode>>) -> (r: Option<Box<AACumlNode>>)
    requires
        AACumlNode::opt_ordered(n),
        sums_fit(vals(AACumlNode::opt_ents(n))),
    ensures
        AACumlNode::opt_ordered(r),
        AACumlNode::opt_ents(r) == AACumlNode::opt_ents(n),
        r is Some == n is Some,
{
    match n {
        None => {
            proof {
                assert(AACumlNode::opt_ordered(None));
            }
            None
        },
        Some(mut nn) => {
            if nn.right.is_none() {
                Some(nn)
            } else {
                let ghost n0 = *nn;
                proof {
                    assert(n0.ordered());
                }
                let mut r = nn.right.take().unwrap();
                proof {
                    assert(AACumlNode::opt_ordered(n0.right));
                    assert(r.ordered());
                }
                let level_run = match r.right {
                    None => false,
                    Some(ref rr) => rr.level == nn.level,
                };
                if level_run {
                    let ghost nl = AACumlNode::opt_ents(nn.left);
                    let ghost mn = nn.own();
                    let ghost rl = AACumlNode::opt_ents(r.left);
                    let ghost mr = r.own();
                    let ghost rr = AACumlNode::opt_ents(r.right);
                    proof {
                        AACumlNode::lemma_opt_sum(nn.left);
                        AACumlNode::lemma_opt_sum(r.left);
                        assert(nl + seq![mn] + (rl + seq![mr] + rr) =~= (nl + seq![mn] + rl)
                            + seq![mr] + rr);
                        lemma_fit_node(nl + seq![mn] + rl, mr, rr);
                        lemma_total_node(nl, mn, rl);
                        lemma_rotate_left_keys(nl, mn, rl, mr, rr);
                    }
                    nn.right = r.left.take();
                    proof {
                        assert(nn.ents() =~= nl + seq![mn] + rl);
                        assert(nn.ordered());
                        AACumlNode::lemma_opt_sum(Some(nn));
                    }
                    r.val = r.val + nn.val;
                    r.left = Some(nn);
                    r.level = r.level.saturating_add(1);
                    proof {
                        assert(r.ents() =~= nl + seq![mn] + rl + seq![mr] + rr);
                        assert(r.ordered());
                    }
                    Some(r)
                } else {
                    nn.right = Some(r);
                    proof {
                        assert(nn.ents() == n0.ents());
                        assert(nn.ordered());
                    }
                    Some(nn)
                }
            }
        },
    }
}

/// Adds `v` at key `k` below `n`, and rebalances on the way back up.
fn insert_node(n: Option<Box<AACumlNode>>, k: i64, v: i64) -> (r: Option<Box<AACumlNode>>)
    requires
        AACumlNode::opt_ordered(n),
        sums_fit(vals(add_entry(AACumlNode::opt_ents(n), k as int, v as int))),
    ensures
        AACumlNode::opt_ordered(r),
        AACumlNode::opt_ents(r) == add_entry(AACumlNode::opt_ents(n), k as int, v as int),
    decreases n,
{
    match n {
        None => {
            let r = Some(Box::new(AACumlNode::new(k, v)));
            proof {
                assert(add_entry(seq![], k as int, v as int) == seq![(k as int, v as int)]);
            }
            r
        },
        Some(mut nn) => {
            let ghost l = AACumlNode::opt_ents(nn.left);
            let ghost m = nn.own();
            let ghost r = AACumlNode::opt_ents(nn.right);
            proof {
                AACumlNode::lemma_opt_sum(nn.left);
            }
            if k < nn.index {
                proof {
                    assert(keys_above(seq![m] + r, k as int));
                    lemma_add_before(l, seq![m] + r, k as int, v as int);
                    assert(l + seq![m] + r =~= l + (seq![m] + r));
                    assert(add_entry(l, k as int, v as int) + (seq![m] + r) =~= add_entry(
                        l,
                        k as int,
                        v as int,
                    ) + seq![m] + r);
                    lemma_fit_node(add_entry(l, k as int, v as int), m, r);
                    lemma_add_total(l, k as int, v as int);
                    lemma_add_keys_below(l, k as int, v as int, nn.index as int);
                }
                nn.val = nn.val + v;
                nn.left = insert_node(nn.left.take(), k, v);
                proof {
                    AACumlNode::lemma_opt_sum(nn.left);
                }
            } else if k > nn.index {
                proof {
                    assert(keys_below(l + seq![m], k as int));
                    lemma_add_after(l + seq![m], r, k as int, v as int);
                    lemma_add_keys_above(r, k as int, v as int, nn.index as int);
                    lemma_fit_node(l, m, add_entry(r, k as int, v as int));
                    assert(l + seq![m] + add_entry(r, k as int, v as int) =~= (l + seq![m])
                        + add_entry(r, k as int, v as int));
                }
                nn.right = insert_node(nn.right.take(), k, v);
            } else {
                proof {
                    lemma_add_after(l, seq![m] + r, k as int, v as int);
                    assert(l + seq![m] + r =~= l + (seq![m] + r));
                    let m2 = (m.0, m.1 + v);
                    assert((seq![m] + r).update(0, m2) =~= seq![m2] + r);
                    assert(l + (seq![m2] + r) =~= l + seq![m2] + r);
                    lemma_fit_node(l, m2, r);
                }
                nn.val = nn.val + v;
                proof {
                    assert(nn.ents() =~= add_entry(l + seq![m] + r, k as int, v as int));
                }
                return Some(nn);
            }
            proof {
                assert(nn.ents() =~= add_entry(l + seq![m] + r, k as int, v as int));
            }
            split_node(skew_node(Some(nn)))
        },
    }
}

/// A cumulative map over an AA tree, with `i64` keys and values.
pub struct AACumlTree {
    root: Option<Box<AACumlNode>>,
}

impl View for AACumlTree {
    type V = Seq<(int, int)>;

    /// The entries in key order.
    closed spec fn view(&self) -> Seq<(int, int)> {
        AACumlNode::opt_ents(self.root)
    }
}

impl AACumlTree {
    pub closed spec fn ordered(&self) -> bool {
        AACumlNode::opt_ordered(self.root)
    }

    pub open spec fn wf(&self) -> bool {
        &&& self.ordered()
        &&& sorted(self@)
        &&& sums_fit(vals(self@))
    }

    /// Builds an empty map; the tree allocates node by node, so the
    /// capacity is only a hint.
    pub fn with_capacity(_k: usize) -> (r: AACumlTree)
        ensures
            r.wf(),
            r@ == Seq::<(int, int)>::empty(),
    {
        let r = AACumlTree { root: None };
        proof {
            crate::sums::lemma_zeros_fit(vals(r@));
        }
        r
    }

    /// Adds `v` to the value at key `k`.
    pub fn insert(&mut self, k: i64, v: i64)
        requires
            old(self).wf(),
            sums_fit(vals(add_entry(old(self)@, k as int, v as int))),
        ensures
            final(self).wf(),
            final(self)@ == add_entry(old(self)@, k as int, v as int),
    {
        self.root = insert_node(self.root.take(), k, v);
        proof {
            AACumlNode::lemma_opt_sorted(self.root);
        }
    }

    /// The sum of the values at keys up to and including `k`.
    pub fn get_cuml(&self, k: i64) -> (r: i64)
        requires
            self.wf(),
        ensures
            r == cuml(self@, k as int),
    {
        match self.root {
            Some(ref n) => {
                proof {
                    lemma_fit_node(
                        AACumlNode::opt_ents(n.left),
                        n.own(),
                        AACumlNode::opt_ents(n.right),
                    );
                }
                n.get_cuml(k, 0)
            },
            None => 0,
        }
    }

    /// The value at exactly key `k`.
    pub fn get_single(&self, k: i64) -> (r: i64)
        requires
            self.wf(),
        ensures
            r == single(self@, k as int),
    {
        match self.root {
            Some(ref n) => n.get_single(k),
            None => 0,
        }
    }

    /// The smallest key at which the cumulative value reaches `quant`, or
    /// `None` when none does; exact when every value is non-negative.
    pub fn get_quantile(&self, quant: i64) -> (r: Option<i64>)
        requires
            self.wf(),
        ensures
            all_nonneg(vals(self@)) ==> opt_int(r) == first_reach(self@, 0, quant as int),
    {
        match self.root {
            Some(ref n) => {
                proof {
                    lemma_fit_node(
                        AACumlNode::opt_ents(n.left),
                        n.own(),
                        AACumlNode::opt_ents(n.right),
                    );
                }
                n.get_quantile(quant, 0)
            },
            None => None,
        }
    }
}

impl CumlMap for AACumlTree {
    type Key = i64;

    open spec fn inv(&self) -> bool {
        self.wf()
    }

    open spec fn can_insert(&self, key: i64, val: i64) -> bool {
        sums_fit(vals(add_entry(self@, key as int, val as int)))
    }

    open spec fn can_query(&self, key: i64) -> bool {
        true
    }

    open spec fn value_at(&self, key: i64) -> int {
        single(self@, key as int)
    }

    open spec fn cumulative_at(&self, key: i64) -> int {
        cuml(self@, key as int)
    }

    open spec fn monotone(&self) -> bool {
        all_nonneg(vals(self@))
    }

    open spec fn quantile_ok(&self, t: int, r: Option<i64>) -> bool {
        opt_int(r) == first_reach(self@, 0, t)
    }

    fn insert(&mut self, key: i64, val: i64) {
        proof {
            lemma_add_single(self@, key as int, val as int);
        }
        AACumlTree::insert(self, key, val)
    }

    fn get_cuml(&self, key: i64) -> (r: i64) {
        AACumlTree::get_cuml(self, key)
    }

    fn get_single(&self, key: i64) -> (r: i64) {
        AACumlTree::get_single(self, key)
    }

    fn get_quantile(&self, quant: i64) -> (r: Option<i64>) {
        AACumlTree::get_quantile(self, quant)
    }
}

} // verus!
