use cuml_map::AACumlTree;
use cuml_map::AVLTree;
use cuml_map::ArenaCumlTree;
use cuml_map::BoxedCumlTree;
use cuml_map::CumlMap;
use cuml_map::ExtensibleFenwickTree;
use cuml_map::FenwickTree;

fn check_trivial<M: CumlMap<Key = i64>>(mut t: M) {
    t.insert(0, 1);
    t.insert(1, 2);
    t.insert(2, 3);
    t.insert(4, 5);

    assert_eq!(t.get_single(0), 1);
    assert_eq!(t.get_single(1), 2);
    assert_eq!(t.get_single(2), 3);
    assert_eq!(t.get_single(3), 0);
    assert_eq!(t.get_single(4), 5);

    assert_eq!(t.get_cuml(0), 1);
    assert_eq!(t.get_cuml(1), 3);
    assert_eq!(t.get_cuml(2), 6);
    assert_eq!(t.get_cuml(4), 11);

    assert_eq!(t.get_quantile(1), Some(0));
    assert_eq!(t.get_quantile(2), Some(1));
    assert_eq!(t.get_quantile(3), Some(1));
    assert_eq!(t.get_quantile(4), Some(2));
    assert_eq!(t.get_quantile(6), Some(2));
    assert_eq!(t.get_quantile(10), Some(4));
    assert_eq!(t.get_quantile(11), Some(4));
    assert_eq!(t.get_quantile(12), None);
}

fn check_small_neg_mono<M: CumlMap<Key = i64>>(mut t: M) {
    t.insert(0, -3);
    t.insert(1, -1);
    t.insert(2, 3);
    t.insert(3, 1);

    assert_eq!(t.get_single(0), -3);
    assert_eq!(t.get_single(1), -1);
    assert_eq!(t.get_single(2), 3);
    assert_eq!(t.get_single(3), 1);

    assert_eq!(t.get_cuml(0), -3);
    assert_eq!(t.get_cuml(1), -4);
    assert_eq!(t.get_cuml(2), -1);
    assert_eq!(t.get_cuml(3), 0);
}

fn check_neg_key<M: CumlMap<Key = i64>>(mut t: M) {
    t.insert(-2, 1);
    t.insert(1, 2);
    t.insert(-1, 3);
    t.insert(3, 5);

    assert_eq!(t.get_single(-2), 1);
    assert_eq!(t.get_single(-1), 3);
    assert_eq!(t.get_single(0), 0);
    assert_eq!(t.get_single(1), 2);
    assert_eq!(t.get_single(3), 5);

    assert_eq!(t.get_cuml(-3), 0);
    assert_eq!(t.get_cuml(-2), 1);
    assert_eq!(t.get_cuml(-1), 4);
    assert_eq!(t.get_cuml(0), 4);
    assert_eq!(t.get_cuml(1), 6);
    assert_eq!(t.get_cuml(3), 11);

    assert_eq!(t.get_quantile(1), Some(-2));
    assert_eq!(t.get_quantile(2), Some(-1));
    assert_eq!(t.get_quantile(3), Some(-1));
    assert_eq!(t.get_quantile(4), Some(-1));
    assert_eq!(t.get_quantile(6), Some(1));
    assert_eq!(t.get_quantile(10), Some(3));
    assert_eq!(t.get_quantile(11), Some(3));
    assert_eq!(t.get_quantile(12), None);
}

/// Inserts keys in increasing order, which forces rotations in the
/// balanced trees, and checks every answer against plain sums.
fn check_degenerate<M: CumlMap<Key = i64>>(mut t: M) {
    let n: i64 = 300;
    let mut tot = 0;
    for i in 1..n {
        t.insert(i, i);
        tot += i;
        assert_eq!(t.get_cuml(i), tot);
        assert_eq!(t.get_single(i), i);
    }
    for i in (1..n).rev() {
        t.insert(-i, 2);
    }
    assert_eq!(t.get_cuml(0), 2 * (n - 1));
    assert_eq!(t.get_cuml(n), tot + 2 * (n - 1));
    assert_eq!(t.get_single(-7), 2);
    assert_eq!(t.get_quantile(2 * (n - 1) + 1), Some(1));
    assert_eq!(t.get_quantile(3), Some(-(n - 2)));
}

#[test]
fn boxed_trivial() {
    check_trivial(BoxedCumlTree::new());
}

#[test]
fn aa_trivial() {
    check_trivial(AACumlTree::with_capacity(8));
}

#[test]
fn avl_trivial() {
    check_trivial(AVLTree::new());
}

#[test]
fn extensible_trivial_through_trait() {
    check_trivial(ExtensibleFenwickTree::new());
}

#[test]
fn arena_trivial() {
    check_trivial(ArenaCumlTree::new());
}

#[test]
fn arena_small_neg_mono() {
    check_small_neg_mono(ArenaCumlTree::with_capacity(4));
}

#[test]
fn arena_neg_key() {
    check_neg_key(ArenaCumlTree::new());
}

#[test]
fn arena_degenerate() {
    check_degenerate(ArenaCumlTree::with_capacity(600));
}

#[test]
fn boxed_small_neg_mono() {
    check_small_neg_mono(BoxedCumlTree::new());
}

#[test]
fn aa_small_neg_mono() {
    check_small_neg_mono(AACumlTree::with_capacity(0));
}

#[test]
fn avl_small_neg_mono() {
    check_small_neg_mono(AVLTree::new());
}

#[test]
fn boxed_neg_key() {
    check_neg_key(BoxedCumlTree::new());
}

#[test]
fn aa_neg_key() {
    check_neg_key(AACumlTree::with_capacity(0));
}

#[test]
fn avl_neg_key() {
    check_neg_key(AVLTree::new());
}

#[test]
fn extensible_neg_key_through_trait() {
    check_neg_key(ExtensibleFenwickTree::with_extent(-1, 1));
}

#[test]
fn boxed_degenerate() {
    check_degenerate(BoxedCumlTree::new());
}

#[test]
fn aa_degenerate() {
    check_degenerate(AACumlTree::with_capacity(0));
}

#[test]
fn avl_degenerate() {
    check_degenerate(AVLTree::new());
}

#[test]
fn extensible_degenerate() {
    check_degenerate(ExtensibleFenwickTree::new());
}

#[test]
fn quantile_takes_the_first_key_reaching_the_target() {
    // A zero value after the key that reaches the target must not win.
    let mut b = BoxedCumlTree::new();
    b.insert(2, 0);
    b.insert(1, 5);
    assert_eq!(b.get_quantile(5), Some(1));
    let mut a = AACumlTree::with_capacity(0);
    a.insert(2, 0);
    a.insert(1, 5);
    assert_eq!(a.get_quantile(5), Some(1));
    let mut v = AVLTree::new();
    v.insert(2, 0);
    v.insert(1, 5);
    assert_eq!(v.get_quantile(5), Some(1));
    let mut r = ArenaCumlTree::new();
    r.insert(2, 0);
    r.insert(1, 5);
    assert_eq!(r.get_quantile(5), Some(1));
    let mut f = FenwickTree::with_capacity(3);
    f.insert(2, 0);
    f.insert(1, 5);
    assert_eq!(f.get_quantile(5), Some(1));
}

#[test]
fn fixed_tree_through_trait() {
    fn fill<M: CumlMap<Key = usize>>(t: &mut M) {
        t.insert(3, 4);
        t.insert(0, 1);
        t.insert(3, 2);
    }
    let mut t = FenwickTree::with_capacity(6);
    fill(&mut t);
    assert_eq!(CumlMap::get_cuml(&t, 2), 1);
    assert_eq!(CumlMap::get_cuml(&t, 5), 7);
    assert_eq!(CumlMap::get_single(&t, 3), 6);
    assert_eq!(CumlMap::get_quantile(&t, 2), Some(3));
    assert_eq!(t.capacity(), 6);
}
