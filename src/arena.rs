//! A cumulative map over an unbalanced binary search tree whose nodes live
//! in one vector and refer to each other by index. Each node keeps its own
//! value plus the total of its left subtree.
use vstd::prelude::*;

use crate::boxed::opt_int;
use crate::cmap::CumlMap;
use crate::entries::{
    add_entry, cuml, first_reach, keys_above, keys_below, lemma_add_after, lemma_add_before,
    lemma_add_keys_above, lemma_add_keys_below, lemma_add_single, lemma_add_total,
    lemma_cuml_above, lemma_fit_prefixes, lemma_cuml_below, lemma_cuml_concat, lemma_fit_node,
    lemma_prefixes_node,
    lemma_reach_concat, lemma_reach_none, lemma_single_absent, lemma_single_concat,
    lemma_sorted_node, lemma_total_node, prefixes_fit, single, sorted, total, vals,
};
use crate::sums::{all_nonneg, sums_fit};

verus! {

#[derive(Clone, Copy)]
struct ArenaCumlNode {
    key: i64,
    val: i64,
    left: Option<usize>,
    right: Option<usize>,
}

/// The entries below a link: those of the node it names, or none.
spec fn below(ents: Seq<Seq<(int, int)>>, c: Option<usize>) -> Seq<(int, int)> {
    match c {
        Some(i) => ents[i as int],
        None => seq![],
    }
}

/// The entries of node `n` given those below its links.
spec fn node_ents(n: ArenaCumlNode, l: Seq<(int, int)>, r: Seq<(int, int)>) -> Seq<(int, int)> {
    l + seq![(n.key as int, n.val - total(l))] + r
}

/// Node `i` holds the entries of its subtree, in key order.
spec fn node_ok(nodes: Seq<ArenaCumlNode>, ents: Seq<Seq<(int, int)>>, i: int) -> bool {
    let n = nodes[i];
    let l = below(ents, n.left);
    let r = below(ents, n.right);
    &&& ents[i] == node_ents(n, l, r)
    &&& keys_below(l, n.key as int)
    &&& keys_above(r, n.key as int)
}

/// The links of node `i` name nodes of the vector whose one parent is `i`.
spec fn links_ok(nodes: Seq<ArenaCumlNode>, parent: Seq<int>, i: int) -> bool {
    let n = nodes[i];
    &&& (n.left matches Some(c) ==> c < nodes.len() && parent[c as int] == i)
    &&& (n.right matches Some(c) ==> c < nodes.len() && parent[c as int] == i)
    &&& (n.left is Some && n.right is Some ==> n.left != n.right)
}

/// The index of the node a link hangs from, or `-1` at the root.
spec fn index_of(h: Option<usize>) -> int {
    match h {
        Some(x) => x as int,
        None => -1,
    }
}

/// A cumulative map over an unbalanced binary search tree held in a
/// vector of nodes, with `i64` keys and values.
pub struct ArenaCumlTree {
    nodes: Vec<ArenaCumlNode>,
    root: Option<usize>,
    ents: Ghost<Seq<Seq<(int, int)>>>,
    parent: Ghost<Seq<int>>,
}

impl View for ArenaCumlTree {
    type V = Seq<(int, int)>;

    /// The entries in key order.
    closed spec fn view(&self) -> Seq<(int, int)> {
        below(self.ents@, self.root)
    }
}

impl ArenaCumlTree {
    pub closed spec fn inv(&self) -> bool {
        let nodes = self.nodes@;
        let ents = self.ents@;
        let parent = self.parent@;
        &&& ents.len() == nodes.len()
        &&& parent.len() == nodes.len()
        &&& forall|i: int| 0 <= i < nodes.len() ==> #[trigger] links_ok(nodes, parent, i)
        &&& forall|i: int| 0 <= i < nodes.len() ==> #[trigger] node_ok(nodes, ents, i)
        &&& (self.root matches Some(r) ==> r < nodes.len() && parent[r as int] == -1)
    }

    pub open spec fn wf(&self) -> bool {
        &&& self.inv()
        &&& sorted(self@)
        &&& sums_fit(vals(self@))
    }


    /// Node `i` split into the entries below its left link, its own entry,
    /// and the entries below its right link.
    proof fn lemma_node(&self, i: int)
        requires
            self.inv(),
            0 <= i < self.nodes@.len(),
        ensures
            self.ents@[i] == below(self.ents@, self.nodes@[i].left) + seq![self.own(i)] + below(
                self.ents@,
                self.nodes@[i].right,
            ),
            keys_below(below(self.ents@, self.nodes@[i].left), self.nodes@[i].key as int),
            keys_above(below(self.ents@, self.nodes@[i].right), self.nodes@[i].key as int),
            below(self.ents@, self.nodes@[i].left).len() < self.ents@[i].len(),
            below(self.ents@, self.nodes@[i].right).len() < self.ents@[i].len(),
            self.nodes@[i].left matches Some(c) ==> c < self.nodes@.len(),
            self.nodes@[i].right matches Some(c) ==> c < self.nodes@.len(),
            self.own(i).1 + total(below(self.ents@, self.nodes@[i].left)) == self.nodes@[i].val,
    {
        assert(node_ok(self.nodes@, self.ents@, i));
        assert(links_ok(self.nodes@, self.parent@, i));
    }

    /// The own entry of node `i`: its key, and its value less the total of
    /// its left subtree.
    spec fn own(&self, i: int) -> (int, int) {
        let n = self.nodes@[i];
        (n.key as int, n.val - total(below(self.ents@, n.left)))
    }

    /// The total of the values below the link `n`, found down the right
    /// spine.
    fn get_total(&self, n: Option<usize>) -> (r: i64)
        requires
            self.inv(),
            n matches Some(i) ==> i < self.nodes@.len(),
            prefixes_fit(below(self.ents@, n), 0),
        ensures
            r == total(below(self.ents@, n)),
    {
        let mut p = n;
        let mut acc: i64 = 0;
        while p.is_some()
            invariant
                self.inv(),
                p matches Some(i) ==> i < self.nodes@.len(),
                prefixes_fit(below(self.ents@, p), acc as int),
                acc + total(below(self.ents@, p)) == total(below(self.ents@, n)),
            decreases below(self.ents@, p).len(),
        {
            let i = p.unwrap();
            let nd = self.nodes[i];
            proof {
                self.lemma_node(i as int);
                let l = below(self.ents@, nd.left);
                let r = below(self.ents@, nd.right);
                lemma_prefixes_node(l, self.own(i as int), r, acc as int);
                lemma_total_node(l, self.own(i as int), r);
            }
            acc = acc + nd.val;
            p = nd.right;
        }
        acc
    }

    /// The sum of the values at keys up to and including `k`.
    pub fn get_cuml(&self, k: i64) -> (r: i64)
        requires
            self.wf(),
        ensures
            r == cuml(self@, k as int),
    {
        let mut acc: i64 = 0;
        let mut p = self.root;
        proof {
            lemma_fit_prefixes(self@);
        }
        while p.is_some()
            invariant
                self.wf(),
                p matches Some(i) ==> i < self.nodes@.len(),
                prefixes_fit(below(self.ents@, p), acc as int),
                acc + cuml(below(self.ents@, p), k as int) == cuml(self@, k as int),
            decreases below(self.ents@, p).len(),
        {
            let i = p.unwrap();
            let n = self.nodes[i];
            let ghost l = below(self.ents@, n.left);
            let ghost m = self.own(i as int);
            let ghost r = below(self.ents@, n.right);
            proof {
                self.lemma_node(i as int);
                lemma_prefixes_node(l, m, r, acc as int);
                lemma_cuml_concat(l + seq![m], r, k as int);
                lemma_cuml_concat(l, seq![m], k as int);
                assert(cuml(seq![m], k as int) == cuml(seq![m].drop_last(), k as int) + (if m.0
                    <= k {
                    m.1
                } else {
                    0
                }));
                if k <= n.key {
                    lemma_cuml_above(r, k as int);
                }
                if k >= n.key {
                    lemma_cuml_below(l, k as int);
                }
            }
            if k < n.key {
                p = n.left;
            } else if k > n.key {
                acc = acc + n.val;
                p = n.right;
            } else {
                return acc + n.val;
            }
        }
        acc
    }

    /// The value at exactly key `k`.
    pub fn get_single(&self, k: i64) -> (r: i64)
        requires
            self.wf(),
        ensures
            r == single(self@, k as int),
    {
        let mut p = self.root;
        while p.is_some()
            invariant
                self.wf(),
                p matches Some(i) ==> i < self.nodes@.len(),
                sums_fit(vals(below(self.ents@, p))),
                single(below(self.ents@, p), k as int) == single(self@, k as int),
            decreases below(self.ents@, p).len(),
        {
            let i = p.unwrap();
            let n = self.nodes[i];
            let ghost l = below(self.ents@, n.left);
            let ghost m = self.own(i as int);
            let ghost r = below(self.ents@, n.right);
            proof {
                self.lemma_node(i as int);
                lemma_fit_node(l, m, r);
                lemma_fit_prefixes(l);
                lemma_single_concat(l + seq![m], r, k as int);
                lemma_single_concat(l, seq![m], k as int);
                assert(single(seq![m], k as int) == single(seq![m].drop_last(), k as int) + (
                if m.0 == k {
                    m.1
                } else {
                    0
                }));
                if k <= n.key {
                    lemma_single_absent(r, k as int);
                }
                if k >= n.key {
                    lemma_single_absent(l, k as int);
                }
            }
            if k < n.key {
                p = n.left;
            } else if k > n.key {
                p = n.right;
            } else {
                return n.val - self.get_total(n.left);
            }
        }
        0
    }

    /// The smallest key at which the cumulative value reaches `quant`, or
    /// `None` when none does; exact when every value is non-negative.
    pub fn get_quantile(&self, quant: i64) -> (r: Option<i64>)
        requires
            self.wf(),
        ensures
            all_nonneg(vals(self@)) ==> opt_int(r) == first_reach(self@, 0, quant as int),
    {
        let mut p = self.root;
        let mut acc: i64 = 0;
        let mut found: Option<i64> = None;
        let ghost t = quant as int;
        proof {
            lemma_fit_prefixes(self@);
        }
        while p.is_some()
            invariant
                self.wf(),
                t == quant,
                p matches Some(i) ==> i < self.nodes@.len(),
                prefixes_fit(below(self.ents@, p), acc as int),
                all_nonneg(vals(self@)) ==> all_nonneg(vals(below(self.ents@, p))),
                all_nonneg(vals(self@)) ==> first_reach(self@, 0, t) == (match first_reach(
                    below(self.ents@, p),
                    acc as int,
                    t,
                ) {
                    Some(x) => Some(x),
                    None => opt_int(found),
                }),
            decreases below(self.ents@, p).len(),
        {
            let i = p.unwrap();
            let n = self.nodes[i];
            let ghost l = below(self.ents@, n.left);
            let ghost m = self.own(i as int);
            let ghost r = below(self.ents@, n.right);
            proof {
                self.lemma_node(i as int);
                lemma_prefixes_node(l, m, r, acc as int);
                lemma_reach_concat(l + seq![m], r, acc as int, t);
                lemma_reach_concat(l, seq![m], acc as int, t);
                lemma_total_node(l, m, seq![]);
                assert(l + seq![m] + seq![] =~= l + seq![m]);
                assert(seq![m].drop_first() =~= seq![]);
                assert(seq![m][0] == m);
                assert(first_reach(seq![m].drop_first(), acc + total(l) + m.1, t) is None);
                assert(first_reach(seq![m], acc + total(l), t) == (if acc + total(l) + m.1
                    >= t {
                    Some(m.0)
                } else {
                    None
                }));
                crate::entries::lemma_vals_concat(l + seq![m], r);
                crate::entries::lemma_vals_concat(l, seq![m]);
                if all_nonneg(vals(self@)) {
                    let s = vals(l + seq![m] + r);
                    assert forall|j: int| 0 <= j < l.len() implies #[trigger] l[j].1 >= 0 by {
                        assert(s[j] == l[j].1);
                    }
                    assert(s[l.len() as int] == m.1);
                    assert(all_nonneg(vals(l)));
                    assert forall|j: int| 0 <= j < r.len() implies #[trigger] vals(r)[j] >= 0 by {
                        assert(s[l.len() + 1 + j] == r[j].1);
                    }
                    if acc + total(l) + m.1 < t {
                        lemma_reach_none(l, acc as int, t);
                    }
                }
            }
            let ghost old_acc = acc as int;
            if quant <= acc + n.val {
                found = Some(n.key);
                p = n.left;
                proof {
                    assert(self.ents@[i as int] == l + seq![m] + r);
                    assert(first_reach(l + seq![m], old_acc, t) == (match first_reach(
                        l,
                        old_acc,
                        t,
                    ) {
                        Some(x) => Some(x),
                        None => Some(m.0),
                    }));
                    assert(first_reach(l + seq![m] + r, old_acc, t) is Some);
                }
            } else {
                acc = acc + n.val;
                p = n.right;
                proof {
                    assert(self.ents@[i as int] == l + seq![m] + r);
                    if all_nonneg(vals(self@)) {
                        assert(first_reach(l + seq![m], old_acc, t) is None);
                        assert(first_reach(l + seq![m] + r, old_acc, t) == first_reach(
                            r,
                            old_acc + total(l + seq![m]),
                            t,
                        ));
                    }
                }
            }
        }
        found
    }


    /// The entries below every node are in key order.
    proof fn lemma_sorted_at(&self, i: int)
        requires
            self.inv(),
            0 <= i < self.nodes@.len(),
        ensures
            sorted(self.ents@[i]),
        decreases self.ents@[i].len(),
    {
        self.lemma_node(i);
        let n = self.nodes@[i];
        if let Some(c) = n.left {
            self.lemma_sorted_at(c as int);
        }
        if let Some(c) = n.right {
            self.lemma_sorted_at(c as int);
        }
        lemma_sorted_node(below(self.ents@, n.left), self.own(i), below(self.ents@, n.right));
    }


    /// After node `i` joins the search path, with its entries and value
    /// brought up to date, the links are as they were and every node but
    /// `i` agrees with its subtrees again: `i` takes over the hole that its
    /// parent on the path left.
    proof fn lemma_step(
        &self,
        before_nodes: Seq<ArenaCumlNode>,
        before_ents: Seq<Seq<(int, int)>>,
        old_ents: Seq<Seq<(int, int)>>,
        parent: Seq<int>,
        h: int,
        h_left: bool,
        i: usize,
        k: int,
        v: int,
    )
        requires
            0 <= i < before_nodes.len(),
            self.nodes@.len() == before_nodes.len(),
            self.ents@.len() == before_ents.len() == before_nodes.len(),
            old_ents.len() == before_nodes.len(),
            parent.len() == before_nodes.len(),
            self.nodes@ == before_nodes.update(i as int, self.nodes@[i as int]),
            self.nodes@[i as int].key == before_nodes[i as int].key,
            self.nodes@[i as int].left == before_nodes[i as int].left,
            self.nodes@[i as int].right == before_nodes[i as int].right,
            self.ents@ == before_ents.update(i as int, add_entry(old_ents[i as int], k, v)),
            parent[i as int] == h,
            h != i as int,
            -1 <= h < before_nodes.len(),
            forall|j: int|
                0 <= j < before_nodes.len() ==> #[trigger] links_ok(before_nodes, parent, j),
            forall|j: int|
                0 <= j < before_nodes.len() && j != h ==> #[trigger] node_ok(
                    before_nodes,
                    before_ents,
                    j,
                ),
            0 <= h ==> (if h_left {
                before_nodes[h].left == Some(i) && before_ents[h] == node_ents(
                    before_nodes[h],
                    add_entry(old_ents[i as int], k, v),
                    below(before_ents, before_nodes[h].right),
                ) && keys_above(
                    below(before_ents, before_nodes[h].right),
                    before_nodes[h].key as int,
                )
                    && keys_below(add_entry(old_ents[i as int], k, v), before_nodes[h].key as int)
            } else {
                before_nodes[h].right == Some(i) && before_ents[h] == node_ents(
                    before_nodes[h],
                    below(before_ents, before_nodes[h].left),
                    add_entry(old_ents[i as int], k, v),
                ) && keys_below(
                    below(before_ents, before_nodes[h].left),
                    before_nodes[h].key as int,
                )
                    && keys_above(add_entry(old_ents[i as int], k, v), before_nodes[h].key as int)
            }),
        ensures
            forall|j: int|
                0 <= j < before_nodes.len() ==> #[trigger] links_ok(self.nodes@, parent, j),
            forall|j: int|
                0 <= j < before_nodes.len() && j != i as int ==> #[trigger] node_ok(
                    self.nodes@,
                    self.ents@,
                    j,
                ),
    {
        let nodes2 = self.nodes@;
        let ents2 = self.ents@;
        assert forall|j: int| 0 <= j < before_nodes.len() implies #[trigger] links_ok(
            nodes2,
            parent,
            j,
        ) by {
            assert(links_ok(before_nodes, parent, j));
        }
        assert forall|j: int|
            0 <= j < before_nodes.len() && j != i as int implies #[trigger] node_ok(
            nodes2,
            ents2,
            j,
        ) by {
            assert(links_ok(before_nodes, parent, j));
            let nj = before_nodes[j];
            assert(nodes2[j] == nj);
            assert(ents2[j] == before_ents[j]);
            if j == h {
                if h_left {
                    assert(below(ents2, nj.left) == add_entry(old_ents[i as int], k, v));
                    if let Some(c) = nj.right {
                        assert(c != i);
                    }
                    assert(below(ents2, nj.right) == below(before_ents, nj.right));
                } else {
                    assert(below(ents2, nj.right) == add_entry(old_ents[i as int], k, v));
                    if let Some(c) = nj.left {
                        assert(c != i);
                    }
                    assert(below(ents2, nj.left) == below(before_ents, nj.left));
                }
            } else {
                assert(node_ok(before_nodes, before_ents, j));
                if let Some(c) = nj.left {
                    assert(parent[c as int] == j);
                    assert(c != i);
                }
                if let Some(c) = nj.right {
                    assert(parent[c as int] == j);
                    assert(c != i);
                }
                assert(below(ents2, nj.left) == below(before_ents, nj.left));
                assert(below(ents2, nj.right) == below(before_ents, nj.right));
            }
        }
    }

    /// Adds `v` to the value at key `k`: down the search path each node
    /// whose left subtree gains the value adds it too, and a key not yet
    /// present gets a new node at the end of the vector.
    #[verifier::rlimit(100)]
    pub fn insert(&mut self, k: i64, v: i64)
        requires
            old(self).wf(),
            sums_fit(vals(add_entry(old(self)@, k as int, v as int))),
        ensures
            final(self).wf(),
            final(self)@ == add_entry(old(self)@, k as int, v as int),
    {
        let len = self.nodes.len();
        let ghost old_nodes = self.nodes@;
        let ghost old_ents = self.ents@;
        let ghost parent = self.parent@;
        let ghost ki = k as int;
        let ghost vi = v as int;
        let mut p = self.root;
        let mut last: Option<usize> = None;
        let mut went_left = false;
        let ghost mut path: Set<int> = Set::empty();
        while p.is_some()
            invariant
                self.nodes@.len() == len,
                old_nodes.len() == len,
                self.ents@.len() == len,
                old_ents.len() == len,
                self.parent@ == parent,
                parent.len() == len,
                self.root == old(self).root,
                ki == k,
                vi == v,
                old(self).inv(),
                sums_fit(vals(add_entry(old(self)@, ki, vi))),
                old(self).nodes@ == old_nodes,
                old(self).ents@ == old_ents,
                old(self).parent@ == parent,
                p matches Some(c) ==> c < len && !path.contains(c as int),
                p matches Some(c) ==> parent[c as int] == index_of(last),
                last is None ==> p == self.root,
                last matches Some(h) ==> h < len && path.contains(h as int) && (if went_left {
                    self.nodes@[h as int].left == p && ki < self.nodes@[h as int].key
                } else {
                    self.nodes@[h as int].right == p && ki > self.nodes@[h as int].key
                }),
                last is Some ==> (self.root matches Some(r) && path.contains(r as int)),
                forall|j: int|
                    #![trigger path.contains(j)]
                    path.contains(j) ==> 0 <= j < len && self.ents@[j] == add_entry(
                        old_ents[j],
                        ki,
                        vi,
                    ) && self.nodes@[j].key == old_nodes[j].key && self.nodes@[j].left
                        == old_nodes[j].left && self.nodes@[j].right == old_nodes[j].right
                        && old_ents[j].len() > below(old_ents, p).len() && (self.root == Some(
                        j as usize) || (0 <= parent[j] && path.contains(parent[j]))),
                forall|j: int|
                    #![trigger self.nodes@[j]]
                    #![trigger self.ents@[j]]
                    0 <= j < len && !path.contains(j) ==> self.nodes@[j] == old_nodes[j]
                        && self.ents@[j] == old_ents[j],
                forall|j: int| 0 <= j < len ==> #[trigger] links_ok(self.nodes@, parent, j),
                forall|j: int|
                    0 <= j < len && j != index_of(last) ==> #[trigger] node_ok(
                        self.nodes@,
                        self.ents@,
                        j,
                    ),
                last matches Some(h) ==> (if went_left {
                    self.ents@[h as int] == node_ents(
                        self.nodes@[h as int],
                        add_entry(below(old_ents, p), ki, vi),
                        below(self.ents@, self.nodes@[h as int].right),
                    ) && keys_above(
                        below(self.ents@, self.nodes@[h as int].right),
                        self.nodes@[h as int].key as int,
                    )
                } else {
                    self.ents@[h as int] == node_ents(
                        self.nodes@[h as int],
                        below(self.ents@, self.nodes@[h as int].left),
                        add_entry(below(old_ents, p), ki, vi),
                    ) && keys_below(
                        below(self.ents@, self.nodes@[h as int].left),
                        self.nodes@[h as int].key as int,
                    )
                }),
                last matches Some(h) ==> (if went_left {
                    keys_below(below(old_ents, p), self.nodes@[h as int].key as int)
                } else {
                    keys_above(below(old_ents, p), self.nodes@[h as int].key as int)
                }),
                sums_fit(vals(add_entry(below(old_ents, p), ki, vi))),
            decreases below(old_ents, p).len(),
        {
            let i = p.unwrap();
            let mut n = self.nodes[i];
            let ghost l = below(old_ents, n.left);
            let ghost m = (n.key as int, n.val - total(l));
            let ghost r = below(old_ents, n.right);
            proof {
                assert(!path.contains(i as int));
                assert(n == old_nodes[i as int]);
                old(self).lemma_node(i as int);
                assert(old(self).own(i as int) == m);
                assert(old_ents[i as int] == l + seq![m] + r);
                lemma_add_total(l, ki, vi);
                // The children of `i` are off the path: their one parent is
                // `i`, which is off it too, and no link leads to the root.
                assert(links_ok(self.nodes@, parent, i as int));
                assert(parent[i as int] != i);
                if let Some(c) = n.left {
                    assert(parent[c as int] == i);
                    if path.contains(c as int) {
                        if let Some(rt) = self.root {
                            assert(parent[rt as int] == -1);
                        }
                    }
                    assert(!path.contains(c as int));
                }
                if let Some(c) = n.right {
                    assert(parent[c as int] == i);
                    if path.contains(c as int) {
                        if let Some(rt) = self.root {
                            assert(parent[rt as int] == -1);
                        }
                    }
                    assert(!path.contains(c as int));
                }
                assert(below(self.ents@, n.left) == l);
                assert(below(self.ents@, n.right) == r);
                if let Some(h) = last {
                    let kh = self.nodes@[h as int].key as int;
                    if went_left {
                        lemma_add_keys_below(old_ents[i as int], ki, vi, kh);
                    } else {
                        lemma_add_keys_above(old_ents[i as int], ki, vi, kh);
                    }
                }
            }
            let ghost prev = last;
            let ghost prev_left = went_left;
            let ghost before_ents = self.ents@;
            let ghost before_nodes = self.nodes@;
            if k < n.key {
                proof {
                    assert(keys_above(seq![m] + r, ki));
                    lemma_add_before(l, seq![m] + r, ki, vi);
                    assert(l + seq![m] + r =~= l + (seq![m] + r));
                    assert(add_entry(l, ki, vi) + (seq![m] + r) =~= add_entry(l, ki, vi)
                        + seq![m] + r);
                    lemma_add_keys_below(l, ki, vi, n.key as int);
                    lemma_fit_node(add_entry(l, ki, vi), m, r);
                }
                n.val = n.val + v;
                self.nodes.set(i, n);
                self.ents = Ghost(
                    self.ents@.update(i as int, add_entry(old_ents[i as int], ki, vi)),
                );
                proof {
                    path = path.insert(i as int);
                }
                last = Some(i);
                went_left = true;
                p = n.left;
                proof {
                    self.lemma_step(
                        before_nodes,
                        before_ents,
                        old_ents,
                        parent,
                        index_of(prev),
                        prev_left,
                        i,
                        ki,
                        vi,
                    );
                }
            } else if k > n.key {
                proof {
                    assert(keys_below(l + seq![m], ki));
                    lemma_add_after(l + seq![m], r, ki, vi);
                    assert(l + seq![m] + add_entry(r, ki, vi) =~= (l + seq![m]) + add_entry(
                        r,
                        ki,
                        vi,
                    ));
                    lemma_add_keys_above(r, ki, vi, n.key as int);
                    lemma_fit_node(l, m, add_entry(r, ki, vi));
                }
                self.ents = Ghost(
                    self.ents@.update(i as int, add_entry(old_ents[i as int], ki, vi)),
                );
                proof {
                    path = path.insert(i as int);
                    assert(self.nodes@ =~= before_nodes.update(i as int, self.nodes@[i as int]));
                }
                last = Some(i);
                went_left = false;
                p = n.right;
                proof {
                    self.lemma_step(
                        before_nodes,
                        before_ents,
                        old_ents,
                        parent,
                        index_of(prev),
                        prev_left,
                        i,
                        ki,
                        vi,
                    );
                }
            } else {
                proof {
                    lemma_add_after(l, seq![m] + r, ki, vi);
                    assert(l + seq![m] + r =~= l + (seq![m] + r));
                    let m2 = (m.0, m.1 + vi);
                    assert((seq![m] + r).update(0, m2) =~= seq![m2] + r);
                    assert(l + (seq![m2] + r) =~= l + seq![m2] + r);
                    lemma_fit_node(l, m2, r);
                }
                n.val = n.val + v;
                self.nodes.set(i, n);
                self.ents = Ghost(
                    self.ents@.update(i as int, add_entry(old_ents[i as int], ki, vi)),
                );
                proof {
                    self.lemma_step(
                        before_nodes,
                        before_ents,
                        old_ents,
                        parent,
                        index_of(prev),
                        prev_left,
                        i,
                        ki,
                        vi,
                    );
                    let nodes2 = self.nodes@;
                    let ents2 = self.ents@;
                    assert(below(ents2, n.left) == l);
                    assert(below(ents2, n.right) == r);
                    assert(node_ok(nodes2, ents2, i as int));
                    assert(self.inv());
                    match self.root {
                        Some(rt) => {
                            if rt != i {
                                assert(path.contains(rt as int));
                            }
                        },
                        None => {},
                    }
                    assert(self@ == add_entry(old(self)@, ki, vi));
                    if let Some(rt) = self.root {
                        self.lemma_sorted_at(rt as int);
                    }
                }
                return;
            }
        }
        let ghost before_ents = self.ents@;
        let ghost before_nodes_end = self.nodes@;
        self.nodes.push(ArenaCumlNode { key: k, val: v, left: None, right: None });
        self.ents = Ghost(self.ents@.push(seq![(ki, vi)]));
        self.parent = Ghost(self.parent@.push(match last {
            Some(h) => h as int,
            None => -1,
        }));
        match last {
            None => {
                self.root = Some(len);
            },
            Some(h) => {
                let mut hn = self.nodes[h];
                if went_left {
                    hn.left = Some(len);
                } else {
                    hn.right = Some(len);
                }
                self.nodes.set(h, hn);
            },
        }
        proof {
            let nodes2 = self.nodes@;
            let ents2 = self.ents@;
            let parent2 = self.parent@;
            assert(ents2[len as int] == seq![(ki, vi)]);
            assert(add_entry(Seq::<(int, int)>::empty(), ki, vi) == seq![(ki, vi)]);
            assert forall|j: int| 0 <= j <= len implies #[trigger] links_ok(nodes2, parent2, j) by {
                if j < len {
                    assert(links_ok(before_nodes_end, parent, j));
                }
            }
            assert(node_ok(nodes2, ents2, len as int)) by {
                let e = Seq::<(int, int)>::empty();
                assert(seq![(ki, vi)] =~= e + seq![(ki, vi - total(e))] + e);
            }
            assert forall|j: int| 0 <= j <= len implies #[trigger] node_ok(nodes2, ents2, j) by {
                if j < len {
                    assert(links_ok(before_nodes_end, parent, j));
                    let nj = before_nodes_end[j];
                    if j == index_of(last) {
                        if went_left {
                            lemma_add_keys_below(Seq::<(int, int)>::empty(), ki, vi, nj.key as int);
                        } else {
                            lemma_add_keys_above(Seq::<(int, int)>::empty(), ki, vi, nj.key as int);
                        }
                        assert(below(ents2, nodes2[j].left) == (if went_left {
                            seq![(ki, vi)]
                        } else {
                            below(before_ents, nj.left)
                        }));
                        assert(below(ents2, nodes2[j].right) == (if went_left {
                            below(before_ents, nj.right)
                        } else {
                            seq![(ki, vi)]
                        }));
                    } else {
                        assert(node_ok(before_nodes_end, before_ents, j));
                        assert(nodes2[j] == nj);
                        assert(below(ents2, nj.left) == below(before_ents, nj.left));
                        assert(below(ents2, nj.right) == below(before_ents, nj.right));
                    }
                }
            }
            assert(self.inv());
            assert(self@ == add_entry(old(self)@, ki, vi)) by {
                if let Some(h) = last {
                    assert(path.contains(old(self).root.unwrap() as int));
                }
            }
            if let Some(rt) = self.root {
                self.lemma_sorted_at(rt as int);
            }
        }
    }

    /// Builds an empty map.
    pub fn new() -> (r: ArenaCumlTree)
        ensures
            r.wf(),
            r@ == Seq::<(int, int)>::empty(),
    {
        ArenaCumlTree::with_capacity(0)
    }

    /// Builds an empty map with room for `c` nodes before it reallocates.
    pub fn with_capacity(c: usize) -> (r: ArenaCumlTree)
        ensures
            r.wf(),
            r@ == Seq::<(int, int)>::empty(),
    {
        let ghost ents: Seq<Seq<(int, int)>> = Seq::empty();
        let ghost parent: Seq<int> = Seq::empty();
        let r = ArenaCumlTree {
            nodes: Vec::with_capacity(c),
            root: None,
            ents: Ghost(ents),
            parent: Ghost(parent),
        };
        proof {
            crate::sums::lemma_zeros_fit(vals(r@));
        }
        r
    }
}

impl CumlMap for ArenaCumlTree {
    type Key = i64;

    open spec fn inv(&self) -> bool {
        self.wf()
    }

    open spec fn can_insert(&self, key: i64, val: i64) -> bool {
        sums_fit(vals(add_entry(self@, key as int, val as int)))
    }

    open spec fn can_query(&self, key: i64) -> bool {
        true
    }

    open spec fn value_at(&self, key: i64) -> int {
        single(self@, key as int)
    }

    open spec fn cumulative_at(&self, key: i64) -> int {
        cuml(self@, key as int)
    }

    open spec fn monotone(&self) -> bool {
        all_nonneg(vals(self@))
    }

    open spec fn quantile_ok(&self, t: int, r: Option<i64>) -> bool {
        opt_int(r) == first_reach(self@, 0, t)
    }

    fn insert(&mut self, key: i64, val: i64) {
        proof {
            lemma_add_single(self@, key as int, val as int);
        }
        ArenaCumlTree::insert(self, key, val)
    }

    fn get_cuml(&self, key: i64) -> (r: i64) {
        ArenaCumlTree::get_cuml(self, key)
    }

    fn get_single(&self, key: i64) -> (r: i64) {
        ArenaCumlTree::get_single(self, key)
    }

    fn get_quantile(&self, quant: i64) -> (r: Option<i64>) {
        ArenaCumlTree::get_quantile(self, quant)
    }
}

} // verus!
