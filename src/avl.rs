//! A cumulative map over an AVL tree of boxed nodes, rebalanced by
//! rotations after each insert. Each node keeps its own value plus the
//! total of its left subtree.
use vstd::prelude::*;

use crate::boxed::opt_int;
use crate::cmap::CumlMap;
use crate::entries::{
    lemma_sorted_node, sorted,
    lemma_add_single,
    add_entry, cuml, first_reach, keys_above, keys_below, lemma_add_after, lemma_add_before,
    lemma_add_keys_above, lemma_add_keys_below, lemma_add_total, lemma_cuml_above,
    lemma_cuml_below, lemma_cuml_concat, lemma_fit_node, lemma_prefixes_node, lemma_reach_concat,
    lemma_reach_none, lemma_rotate_left_keys, lemma_rotate_right_keys, lemma_single_absent,
    lemma_single_concat, lemma_total_node, prefixes_fit, single, total, vals,
};
use crate::sums::{all_nonneg, sums_fit};

verus! {

struct AVLNode {
    key: i64,
    val: i64,
    left: Option<Box<AVLNode>>,
    right: Option<Box<AVLNode>>,
    height: usize,
    imbal: i32,
}

impl AVLNode {
    spec fn opt_ents(t: Option<Box<AVLNode>>) -> Seq<(int, int)>
        decreases t,
    {
        match t {
            None => seq![],
            Some(n) => n.ents(),
        }
    }

    spec fn opt_sum(t: Option<Box<AVLNode>>) -> int
        decreases t,
    {
        match t {
            None => 0,
            Some(n) => n.sum(),
        }
    }

    /// The entries of the subtree in key order; a node's own value is its
    /// stored value less the total of its left subtree.
    spec fn ents(self) -> Seq<(int, int)>
        decreases self,
    {
        Self::opt_ents(self.left) + seq![(self.key as int, self.val - Self::opt_sum(self.left))]
            + Self::opt_ents(self.right)
    }

    spec fn sum(self) -> int
        decreases self,
    {
        self.val + Self::opt_sum(self.right)
    }

    spec fn opt_ordered(t: Option<Box<AVLNode>>) -> bool
        decreases t,
    {
        match t {
            None => true,
            Some(n) => n.ordered(),
        }
    }

    spec fn ordered(self) -> bool
        decreases self,
    {
        &&& Self::opt_ordered(self.left)
        &&& Self::opt_ordered(self.right)
        &&& keys_below(Self::opt_ents(self.left), self.key as int)
        &&& keys_above(Self::opt_ents(self.right), self.key as int)
    }

    spec fn own(self) -> (int, int) {
        (self.key as int, self.val - Self::opt_sum(self.left))
    }

    proof fn lemma_opt_sorted(t: Option<Box<AVLNode>>)
        requires
            Self::opt_ordered(t),
        ensures
            sorted(Self::opt_ents(t)),
        decreases t,
    {
        if let Some(n) = t {
            assert(n.ordered());
            Self::lemma_opt_sorted(n.left);
            Self::lemma_opt_sorted(n.right);
            lemma_sorted_node(Self::opt_ents(n.left), n.own(), Self::opt_ents(n.right));
        }
    }

    proof fn lemma_opt_sum(t: Option<Box<AVLNode>>)
        ensures
            Self::opt_sum(t) == total(Self::opt_ents(t)),
        decreases t,
    {
        if let Some(n) = t {
            Self::lemma_opt_sum(n.left);
            Self::lemma_opt_sum(n.right);
            lemma_total_node(Self::opt_ents(n.left), n.own(), Self::opt_ents(n.right));
        }
    }

    /// Recomputes the height and the balance (right height less left
    /// height, held within two either way) from the children.
    fn fix_height(&mut self)
        ensures
            final(self).key == old(self).key,
            final(self).val == old(self).val,
            final(self).left == old(self).left,
            final(self).right == old(self).right,
    {
        let lh = get_height(&self.left);
        let rh = get_height(&self.right);
        self.height = (if lh > rh {
            lh
        } else {
            rh
        }).saturating_add(1);
        self.imbal = if rh >= lh {
            if rh - lh > 1 {
                2
            } else {
                (rh - lh) as i32
            }
        } else {
            if lh - rh > 1 {
                -2
            } else {
                -((lh - rh) as i32)
            }
        };
    }

    fn get_total(&self) -> (r: i64)
        requires
            sums_fit(vals(self.ents())),
        ensures
            r == total(self.ents()),
        decreases self,
    {
        proof {
            Self::lemma_opt_sum(self.left);
            Self::lemma_opt_sum(self.right);
            lemma_fit_node(Self::opt_ents(self.left), self.own(), Self::opt_ents(self.right));
            lemma_total_node(Self::opt_ents(self.left), self.own(), Self::opt_ents(self.right));
        }
        self.val + get_total(&self.right)
    }
}

fn new_onode(key: i64, val: i64) -> (r: Option<Box<AVLNode>>)
    ensures
        AVLNode::opt_ordered(r),
        AVLNode::opt_ents(r) == seq![(key as int, val as int)],
{
    let node = AVLNode { key, val, left: None, right: None, height: 1, imbal: 0 };
    proof {
        assert(node.ents() =~= seq![(key as int, val as int)]);
        assert(node.ordered());
    }
    Some(Box::new(node))
}

fn get_height(onode: &Option<Box<AVLNode>>) -> (r: usize)
    ensures
        onode is None ==> r == 0,
{
    match onode {
        Some(node) => node.height,
        None => 0,
    }
}

fn get_total(onode: &Option<Box<AVLNode>>) -> (r: i64)
    requires
        sums_fit(vals(AVLNode::opt_ents(*onode))),
    ensures
        r == total(AVLNode::opt_ents(*onode)),
    decreases onode,
{
    match onode {
        Some(node) => node.get_total(),
        None => 0,
    }
}

/// The right child rises to take the node's place, the node becoming its
/// left child. Without a right child nothing changes.
fn left_rotate(onode: &mut Option<Box<AVLNode>>)
    requires
        AVLNode::opt_ordered(*old(onode)),
        sums_fit(vals(AVLNode::opt_ents(*old(onode)))),
    ensures
        AVLNode::opt_ordered(*final(onode)),
        AVLNode::opt_ents(*final(onode)) == AVLNode::opt_ents(*old(onode)),
{
    match onode.take() {
        None => {},
        Some(mut node) => {
            let ghost n0 = *node;
            proof {
                assert(n0.ordered());
            }
            match node.right.take() {
                None => {
                    *onode = Some(node);
                    proof {
                        assert(*node == n0);
                    }
                },
                Some(mut r) => {
                    proof {
                        assert(AVLNode::opt_ordered(n0.right));
                        assert(r.ordered());
                    }
                    let ghost nl = AVLNode::opt_ents(node.left);
                    let ghost mn = n0.own();
                    let ghost rl = AVLNode::opt_ents(r.left);
                    let ghost mr = r.own();
                    let ghost rr = AVLNode::opt_ents(r.right);
                    proof {
                        AVLNode::lemma_opt_sum(node.left);
                        AVLNode::lemma_opt_sum(r.left);
                        assert(nl + seq![mn] + (rl + seq![mr] + rr) =~= (nl + seq![mn] + rl)
                            + seq![mr] + rr);
                        lemma_fit_node(nl + seq![mn] + rl, mr, rr);
                        lemma_total_node(nl, mn, rl);
                        lemma_rotate_left_keys(nl, mn, rl, mr, rr);
                    }
                    node.right = r.left.take();
                    node.fix_height();
                    proof {
                        assert(node.ents() =~= nl + seq![mn] + rl);
                        assert(node.ordered());
                        AVLNode::lemma_opt_sum(Some(node));
                    }
                    r.val = r.val + node.val;
                    r.left = Some(node);
                    r.fix_height();
                    proof {
                        assert(r.ents() =~= nl + seq![mn] + rl + seq![mr] + rr);
                        assert(r.ordered());
                    }
                    *onode = Some(r);
                },
            }
        },
    }
}

/// The left child rises to take the node's place, the node becoming its
/// right child. Without a left child nothing changes.
fn right_rotate(onode: &mut Option<Box<AVLNode>>)
    requires
        AVLNode::opt_ordered(*old(onode)),
        sums_fit(vals(AVLNode::opt_ents(*old(onode)))),
    ensures
        AVLNode::opt_ordered(*final(onode)),
        AVLNode::opt_ents(*final(onode)) == AVLNode::opt_ents(*old(onode)),
{
    match onode.take() {
        None => {},
        Some(mut node) => {
            let ghost n0 = *node;
            proof {
                assert(n0.ordered());
            }
            match node.left.take() {
                None => {
                    *onode = Some(node);
                    proof {
                        assert(*node == n0);
                    }
                },
                Some(mut l) => {
                    proof {
                        assert(AVLNode::opt_ordered(n0.left));
                        assert(l.ordered());
                        assert(n0.ents() == AVLNode::opt_ents(Some(l)) + seq![n0.own()]
                            + AVLNode::opt_ents(n0.right));
                    }
                    let ghost ll = AVLNode::opt_ents(l.left);
                    let ghost ml = l.own();
                    let ghost lr = AVLNode::opt_ents(l.right);
                    let ghost mn = (n0.key as int, n0.val - l.sum());
                    let ghost r = AVLNode::opt_ents(n0.right);
                    proof {
                        AVLNode::lemma_opt_sum(l.right);
                        assert(ll + seq![ml] + lr + seq![mn] + r =~= ll + seq![ml] + (lr + seq![
                            mn,
                        ] + r));
                        lemma_fit_node(ll, ml, lr + seq![mn] + r);
                        lemma_fit_node(lr, mn, r);
                        lemma_rotate_right_keys(ll, ml, lr, mn, r);
                    }
                    node.left = l.right.take();
                    node.fix_height();
                    node.val = node.val - l.val;
                    proof {
                        assert(node.ents() =~= lr + seq![mn] + r);
                        assert(node.ordered());
                    }
                    l.right = Some(node);
                    l.fix_height();
                    proof {
                        assert(l.ents() =~= ll + seq![ml] + lr + seq![mn] + r);
                        assert(l.ordered());
                    }
                    *onode = Some(l);
                },
            }
        },
    }
}

/// A left rotation of the left child, then a right rotation of the node.
fn left_right_rotate(onode: &mut Option<Box<AVLNode>>)
    requires
        AVLNode::opt_ordered(*old(onode)),
        sums_fit(vals(AVLNode::opt_ents(*old(onode)))),
    ensures
        AVLNode::opt_ordered(*final(onode)),
        AVLNode::opt_ents(*final(onode)) == AVLNode::opt_ents(*old(onode)),
{
    match onode.take() {
        None => {},
        Some(mut node) => {
            let ghost n0 = *node;
            proof {
                assert(n0.ordered());
                AVLNode::lemma_opt_sum(n0.left);
                lemma_fit_node(AVLNode::opt_ents(n0.left), n0.own(), AVLNode::opt_ents(n0.right));
            }
            let mut l = node.left.take();
            left_rotate(&mut l);
            node.left = l;
            proof {
                AVLNode::lemma_opt_sum(node.left);
                assert(node.ents() =~= n0.ents());
                assert(node.ordered());
            }
            *onode = Some(node);
            right_rotate(onode);
        },
    }
}

/// A right rotation of the right child, then a left rotation of the node.
fn right_left_rotate(onode: &mut Option<Box<AVLNode>>)
    requires
        AVLNode::opt_ordered(*old(onode)),
        sums_fit(vals(AVLNode::opt_ents(*old(onode)))),
    ensures
        AVLNode::opt_ordered(*final(onode)),
        AVLNode::opt_ents(*final(onode)) == AVLNode::opt_ents(*old(onode)),
{
    match onode.take() {
        None => {},
        Some(mut node) => {
            let ghost n0 = *node;
            proof {
                assert(n0.ordered());
                lemma_fit_node(AVLNode::opt_ents(n0.left), n0.own(), AVLNode::opt_ents(n0.right));
            }
            let mut r = node.right.take();
            right_rotate(&mut r);
            node.right = r;
            proof {
                assert(node.ents() =~= n0.ents());
                assert(node.ordered());
            }
            *onode = Some(node);
            left_rotate(onode);
        },
    }
}

/// Restores the balance of a node whose subtrees' heights differ by more
/// than one, by a single or a double rotation.
fn rebalance(onode: &mut Option<Box<AVLNode>>)
    requires
        AVLNode::opt_ordered(*old(onode)),
        sums_fit(vals(AVLNode::opt_ents(*old(onode)))),
    ensures
        AVLNode::opt_ordered(*final(onode)),
        AVLNode::opt_ents(*final(onode)) == AVLNode::opt_ents(*old(onode)),
{
    let (imbal, left_imbal, right_imbal) = match *onode {
        Some(ref node) => (
            node.imbal,
            match node.left {
                Some(ref l) => l.imbal,
                None => 0,
            },
            match node.right {
                Some(ref r) => r.imbal,
                None => 0,
            },
        ),
        None => (0, 0, 0),
    };
    if imbal > 1 {
        if right_imbal < 0 {
            right_left_rotate(onode);
        } else {
            left_rotate(onode);
        }
    } else if imbal < -1 {
        if left_imbal > 0 {
            left_right_rotate(onode);
        } else {
            right_rotate(onode);
        }
    }
}

/// Adds `val` at key `key` below `onode`, and rebalances on the way back
/// up.
fn insert(onode: &mut Option<Box<AVLNode>>, key: i64, val: i64)
    requires
        AVLNode::opt_ordered(*old(onode)),
        sums_fit(vals(add_entry(AVLNode::opt_ents(*old(onode)), key as int, val as int))),
    ensures
        AVLNode::opt_ordered(*final(onode)),
        AVLNode::opt_ents(*final(onode)) == add_entry(
            AVLNode::opt_ents(*old(onode)),
            key as int,
            val as int,
        ),
    decreases *old(onode),
{
    match onode.take() {
        None => {
            *onode = new_onode(key, val);
        },
        Some(mut node) => {
            let ghost n0 = *node;
            let ghost l = AVLNode::opt_ents(node.left);
            let ghost m = node.own();
            let ghost r = AVLNode::opt_ents(node.right);
            proof {
                assert(n0.ordered());
                AVLNode::lemma_opt_sum(node.left);
            }
            if key < node.key {
                proof {
                    assert(keys_above(seq![m] + r, key as int));
                    lemma_add_before(l, seq![m] + r, key as int, val as int);
                    assert(l + seq![m] + r =~= l + (seq![m] + r));
                    assert(add_entry(l, key as int, val as int) + (seq![m] + r) =~= add_entry(
                        l,
                        key as int,
                        val as int,
                    ) + seq![m] + r);
                    lemma_fit_node(add_entry(l, key as int, val as int), m, r);
                    lemma_add_total(l, key as int, val as int);
                    lemma_add_keys_below(l, key as int, val as int, node.key as int);
                }
                node.val = node.val + val;
                let mut sub = node.left.take();
                insert(&mut sub, key, val);
                node.left = sub;
                proof {
                    AVLNode::lemma_opt_sum(node.left);
                }
            } else if key > node.key {
                proof {
                    assert(keys_below(l + seq![m], key as int));
                    lemma_add_after(l + seq![m], r, key as int, val as int);
                    lemma_add_keys_above(r, key as int, val as int, node.key as int);
                    lemma_fit_node(l, m, add_entry(r, key as int, val as int));
                    assert(l + seq![m] + add_entry(r, key as int, val as int) =~= (l + seq![m])
                        + add_entry(r, key as int, val as int));
                }
                let mut sub = node.right.take();
                insert(&mut sub, key, val);
                node.right = sub;
            } else {
                proof {
                    lemma_add_after(l, seq![m] + r, key as int, val as int);
                    assert(l + seq![m] + r =~= l + (seq![m] + r));
                    let m2 = (m.0, m.1 + val);
                    assert((seq![m] + r).update(0, m2) =~= seq![m2] + r);
                    assert(l + (seq![m2] + r) =~= l + seq![m2] + r);
                    lemma_fit_node(l, m2, r);
                }
                node.val = node.val + val;
            }
            node.fix_height();
            proof {
                assert(node.ents() =~= add_entry(l + seq![m] + r, key as int, val as int));
                assert(node.ordered());
            }
            *onode = Some(node);
            rebalance(onode);
        },
    }
}

fn get_cuml(onode: &Option<Box<AVLNode>>, key: i64, acc: i64) -> (r: i64)
    requires
        AVLNode::opt_ordered(*onode),
        prefixes_fit(AVLNode::opt_ents(*onode), acc as int),
    ensures
        r == acc + cuml(AVLNode::opt_ents(*onode), key as int),
    decreases onode,
{
    match onode {
        None => acc,
        Some(node) => {
            let ghost l = AVLNode::opt_ents(node.left);
            let ghost m = node.own();
            let ghost r = AVLNode::opt_ents(node.right);
            proof {
                assert(node.ordered());
                AVLNode::lemma_opt_sum(node.left);
                lemma_prefixes_node(l, m, r, acc as int);
                lemma_cuml_concat(l + seq![m], r, key as int);
                lemma_cuml_concat(l, seq![m], key as int);
                assert(cuml(seq![m], key as int) == cuml(seq![m].drop_last(), key as int) + (if m.0
                    <= key {
                    m.1
                } else {
                    0
                }));
                if key <= node.key {
                    lemma_cuml_above(r, key as int);
                }
                if key >= node.key {
                    lemma_cuml_below(l, key as int);
                }
            }
            if key < node.key {
                get_cuml(&node.left, key, acc)
            } else if key > node.key {
                get_cuml(&node.right, key, acc + node.val)
            } else {
                acc + node.val
            }
        },
    }
}

fn get_single(onode: &Option<Box<AVLNode>>, key: i64) -> (r: i64)
    requires
        AVLNode::opt_ordered(*onode),
        sums_fit(vals(AVLNode::opt_ents(*onode))),
    ensures
        r == single(AVLNode::opt_ents(*onode), key as int),
    decreases onode,
{
    match onode {
        None => 0,
        Some(node) => {
            let ghost l = AVLNode::opt_ents(node.left);
            let ghost m = node.own();
            let ghost r = AVLNode::opt_ents(node.right);
            proof {
                assert(node.ordered());
                AVLNode::lemma_opt_sum(node.left);
                lemma_fit_node(l, m, r);
                lemma_single_concat(l + seq![m], r, key as int);
                lemma_single_concat(l, seq![m], key as int);
                assert(single(seq![m], key as int) == single(seq![m].drop_last(), key as int) + (
                if m.0 == key {
                    m.1
                } else {
                    0
                }));
                if key <= node.key {
                    lemma_single_absent(r, key as int);
                }
                if key >= node.key {
                    lemma_single_absent(l, key as int);
                }
            }
            if key < node.key {
                get_single(&node.left, key)
            } else if key > node.key {
                get_single(&node.right, key)
            } else {
                node.val - get_total(&node.left)
            }
        },
    }
}

/// The first key below `onode` at which `acc` plus the running sum of the
/// values reaches `quant`; exact when every value is non-negative.
fn get_quantile(onode: &Option<Box<AVLNode>>, quant: i64, acc: i64) -> (r: Option<i64>)
    requires
        prefixes_fit(AVLNode::opt_ents(*onode), acc as int),
    ensures
        all_nonneg(vals(AVLNode::opt_ents(*onode))) ==> opt_int(r) == first_reach(
            AVLNode::opt_ents(*onode),
            acc as int,
            quant as int,
        ),
    decreases onode,
{
    match onode {
        None => None,
        Some(node) => {
            let ghost l = AVLNode::opt_ents(node.left);
            let ghost m = node.own();
            let ghost r = AVLNode::opt_ents(node.right);
            let ghost v = quant as int;
            proof {
                AVLNode::lemma_opt_sum(node.left);
                lemma_prefixes_node(l, m, r, acc as int);
                lemma_reach_concat(l + seq![m], r, acc as int, v);
                lemma_reach_concat(l, seq![m], acc as int, v);
                lemma_total_node(l, m, seq![]);
                assert(l + seq![m] + seq![] =~= l + seq![m]);
                assert(seq![m].drop_first() =~= seq![]);
                assert(seq![m][0] == m);
                assert(first_reach(seq![m].drop_first(), acc + total(l) + m.1, v) is None);
                assert(first_reach(seq![m], acc + total(l), v) == (if acc + total(l) + m.1
                    >= v {
                    Some(m.0)
                } else {
                    None
                }));
                crate::entries::lemma_vals_concat(l + seq![m], r);
                crate::entries::lemma_vals_concat(l, seq![m]);
                if all_nonneg(vals(node.ents())) {
                    let s = vals(node.ents());
                    assert forall|i: int| 0 <= i < l.len() implies #[trigger] l[i].1 >= 0 by {
                        assert(s[i] == l[i].1);
                    }
                    assert(s[l.len() as int] == m.1);
                    assert(all_nonneg(vals(l)));
                    assert forall|i: int| 0 <= i < r.len() implies #[trigger] vals(r)[i] >= 0 by {
                        assert(s[l.len() + 1 + i] == r[i].1);
                    }
                    if acc + total(l) + m.1 < v {
                        lemma_reach_none(l, acc as int, v);
                    }
                }
            }
            let here = acc + node.val;
            if quant > here {
                get_quantile(&node.right, quant, here)
            } else {
                match get_quantile(&node.left, quant, acc) {
                    None => Some(node.key),
                    s => s,
                }
            }
        },
    }
}

/// A cumulative map over an AVL tree of boxed nodes, with `i64` keys and
/// values.
pub struct AVLTree {
    root: Option<Box<AVLNode>>,
}

impl View for AVLTree {
    type V = Seq<(int, int)>;

    /// The entries in key order.
    closed spec fn view(&self) -> Seq<(int, int)> {
        AVLNode::opt_ents(self.root)
    }
}

impl AVLTree {
    pub closed spec fn ordered(&self) -> bool {
        AVLNode::opt_ordered(self.root)
    }

    pub open spec fn wf(&self) -> bool {
        &&& self.ordered()
        &&& sorted(self@)
        &&& sums_fit(vals(self@))
    }

    /// Builds an empty map.
    pub fn new() -> (r: AVLTree)
        ensures
            r.wf(),
            r@ == Seq::<(int, int)>::empty(),
    {
        let r = AVLTree { root: None };
        proof {
            crate::sums::lemma_zeros_fit(vals(r@));
        }
        r
    }

    /// Adds `val` to the value at `key`.
    pub fn insert(&mut self, key: i64, val: i64)
        requires
            old(self).wf(),
            sums_fit(vals(add_entry(old(self)@, key as int, val as int))),
        ensures
            final(self).wf(),
            final(self)@ == add_entry(old(self)@, key as int, val as int),
    {
        insert(&mut self.root, key, val);
        proof {
            AVLNode::lemma_opt_sorted(self.root);
        }
    }

    /// The sum of the values at keys up to and including `key`.
    pub fn get_cuml(&self, key: i64) -> (r: i64)
        requires
            self.wf(),
        ensures
            r == cuml(self@, key as int),
    {
        proof {
            if let Some(n) = &self.root {
                lemma_fit_node(AVLNode::opt_ents(n.left), n.own(), AVLNode::opt_ents(n.right));
            }
        }
        get_cuml(&self.root, key, 0)
    }

    /// The value at exactly `key`.
    pub fn get_single(&self, key: i64) -> (r: i64)
        requires
            self.wf(),
        ensures
            r == single(self@, key as int),
    {
        get_single(&self.root, key)
    }

    /// The smallest key at which the cumulative value reaches `quant`, or
    /// `None` when none does; exact when every value is non-negative.
    pub fn get_quantile(&self, quant: i64) -> (r: Option<i64>)
        requires
            self.wf(),
        ensures
            all_nonneg(vals(self@)) ==> opt_int(r) == first_reach(self@, 0, quant as int),
    {
        proof {
            if let Some(n) = &self.root {
                lemma_fit_node(AVLNode::opt_ents(n.left), n.own(), AVLNode::opt_ents(n.right));
            }
        }
        get_quantile(&self.root, quant, 0)
    }
}

impl CumlMap for AVLTree {
    type Key = i64;

    open spec fn inv(&self) -> bool {
        self.wf()
    }

    open spec fn can_insert(&self, key: i64, val: i64) -> bool {
        sums_fit(vals(add_entry(self@, key as int, val as int)))
    }

    open spec fn can_query(&self, key: i64) -> bool {
        true
    }

    open spec fn value_at(&self, key: i64) -> int {
        single(self@, key as int)
    }

    open spec fn cumulative_at(&self, key: i64) -> int {
        cuml(self@, key as int)
    }

    open spec fn monotone(&self) -> bool {
        all_nonneg(vals(self@))
    }

    open spec fn quantile_ok(&self, t: int, r: Option<i64>) -> bool {
        opt_int(r) == first_reach(self@, 0, t)
    }

    fn insert(&mut self, key: i64, val: i64) {
        proof {
            lemma_add_single(self@, key as int, val as int);
        }
        AVLTree::insert(self, key, val)
    }

    fn get_cuml(&self, key: i64) -> (r: i64) {
        AVLTree::get_cuml(self, key)
    }

    fn get_single(&self, key: i64) -> (r: i64) {
        AVLTree::get_single(self, key)
    }

    fn get_quantile(&self, quant: i64) -> (r: Option<i64>) {
        AVLTree::get_quantile(self, quant)
    }
}

} // verus!
