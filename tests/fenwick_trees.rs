use cuml_map::ExtensibleFenwickTree;
use cuml_map::FenwickTree;

#[test]
fn ftf_trivial() {
    let mut t = FenwickTree::with_capacity(5);
    t.insert(0, 1);
    t.insert(1, 2);
    t.insert(2, 3);
    t.insert(4, 5);

    assert_eq!(t.get_single(0), 1);
    assert_eq!(t.get_single(1), 2);
    assert_eq!(t.get_single(2), 3);
    assert_eq!(t.get_single(4), 5);

    assert_eq!(t.get_cuml(0), 1);
    assert_eq!(t.get_cuml(1), 3);
    assert_eq!(t.get_cuml(2), 6);
    assert_eq!(t.get_cuml(4), 11);

    assert_eq!(t.get_quantile(1), Some(0));
    assert_eq!(t.get_quantile(2), Some(1));
    assert_eq!(t.get_quantile(3), Some(1));
    assert_eq!(t.get_quantile(4), Some(2));
    assert_eq!(t.get_quantile(6), Some(2));
    assert_eq!(t.get_quantile(10), Some(4));
    assert_eq!(t.get_quantile(11), Some(4));
    assert_eq!(t.get_quantile(12), None);
}

#[test]
fn fte_trivial() {
    let mut t = ExtensibleFenwickTree::new();
    t.insert(0, 1);
    t.insert(1, 2);
    t.insert(2, 3);
    t.insert(4, 5);

    assert_eq!(t.get_single(0), 1);
    assert_eq!(t.get_single(1), 2);
    assert_eq!(t.get_single(2), 3);
    assert_eq!(t.get_single(4), 5);

    assert_eq!(t.get_cuml(0), 1);
    assert_eq!(t.get_cuml(1), 3);
    assert_eq!(t.get_cuml(2), 6);
    assert_eq!(t.get_cuml(4), 11);

    assert_eq!(t.get_quantile(1), Some(0));
    assert_eq!(t.get_quantile(2), Some(1));
    assert_eq!(t.get_quantile(3), Some(1));
    assert_eq!(t.get_quantile(4), Some(2));
    assert_eq!(t.get_quantile(6), Some(2));
    assert_eq!(t.get_quantile(10), Some(4));
    assert_eq!(t.get_quantile(11), Some(4));
    assert_eq!(t.get_quantile(12), None);
}

#[test]
fn ftf_small_neg_mono() {
    let mut t = FenwickTree::with_capacity(5);
    t.insert(0, -3);
    t.insert(1, -1);
    t.insert(2, 3);
    t.insert(3, 1);

    assert_eq!(t.get_single(0), -3);
    assert_eq!(t.get_single(1), -1);
    assert_eq!(t.get_single(2), 3);
    assert_eq!(t.get_single(3), 1);

    assert_eq!(t.get_cuml(0), -3);
    assert_eq!(t.get_cuml(1), -4);
    assert_eq!(t.get_cuml(2), -1);
    assert_eq!(t.get_cuml(3), 0);
}

#[test]
fn fte_small_neg_mono() {
    let mut t = ExtensibleFenwickTree::new();
    t.insert(0, -3);
    t.insert(1, -1);
    t.insert(2, 3);
    t.insert(3, 1);

    assert_eq!(t.get_single(0), -3);
    assert_eq!(t.get_single(1), -1);
    assert_eq!(t.get_single(2), 3);
    assert_eq!(t.get_single(3), 1);

    assert_eq!(t.get_cuml(0), -3);
    assert_eq!(t.get_cuml(1), -4);
    assert_eq!(t.get_cuml(2), -1);
    assert_eq!(t.get_cuml(3), 0);
}

#[test]
fn small_neg_mono_capacity_four() {
    let mut t = FenwickTree::with_capacity(4);
    t.insert(0, -3);
    t.insert(1, -1);
    t.insert(2, 3);
    t.insert(3, 1);

    assert_eq!(t.get_cuml(0), -3);
    assert_eq!(t.get_cuml(1), -4);
    assert_eq!(t.get_cuml(2), -1);
    assert_eq!(t.get_cuml(3), 0);
}

#[test]
fn fte_neg_key() {
    let mut t = ExtensibleFenwickTree::new();
    t.insert(-2, 1);
    t.insert(1, 2);
    t.insert(-1, 3);
    t.insert(3, 5);

    assert_eq!(t.get_single(-2), 1);
    assert_eq!(t.get_single(-1), 3);
    assert_eq!(t.get_single(0), 0);
    assert_eq!(t.get_single(1), 2);
    assert_eq!(t.get_single(3), 5);

    assert_eq!(t.get_cuml(-2), 1);
    assert_eq!(t.get_cuml(-1), 4);
    assert_eq!(t.get_cuml(0), 4);
    assert_eq!(t.get_cuml(1), 6);
    assert_eq!(t.get_cuml(3), 11);

    assert_eq!(t.get_quantile(1), Some(-2));
    assert_eq!(t.get_quantile(2), Some(-1));
    assert_eq!(t.get_quantile(3), Some(-1));
    assert_eq!(t.get_quantile(4), Some(-1));
    assert_eq!(t.get_quantile(6), Some(1));
    assert_eq!(t.get_quantile(10), Some(3));
    assert_eq!(t.get_quantile(11), Some(3));
    assert_eq!(t.get_quantile(12), None);
}

#[test]
fn fte_oob_1() {
    let mut t = ExtensibleFenwickTree::with_capacity(10);
    t.insert(5, 5);
    assert_eq!(t.get_cuml(-10), 0);
    assert_eq!(t.get_single(-10), 0);
    assert_eq!(t.get_cuml(10), 5);
    assert_eq!(t.get_single(10), 0);
}

#[test]
fn eft_oob_query() {
    let mut t = ExtensibleFenwickTree::with_capacity(10);
    t.insert(3, 2);

    assert_eq!(t.get_cuml(15), 2);
    assert_eq!(t.get_single(15), 0);

    t.insert(9, 5);

    assert_eq!(t.get_cuml(15), 7);
    assert_eq!(t.get_single(15), 0);
}

#[test]
fn cumulative_never_decreases_with_nonneg_values() {
    let mut t = FenwickTree::with_capacity(13);
    let inserts = [(3usize, 4i64), (0, 2), (12, 7), (7, 0), (5, 9), (3, 1), (11, 3)];
    for (k, v) in inserts {
        t.insert(k, v);
    }
    let mut last = t.get_cuml(0);
    for k in 1..13 {
        let c = t.get_cuml(k);
        assert!(c >= last);
        last = c;
    }
    assert_eq!(last, 26);
}

#[test]
fn cumulative_differences_are_singles() {
    let mut t = FenwickTree::with_capacity(9);
    let inserts = [(8usize, -4i64), (1, 6), (4, 2), (4, 3), (0, -7), (6, 11)];
    for (k, v) in inserts {
        t.insert(k, v);
    }
    assert_eq!(t.get_single(0), t.get_cuml(0));
    assert_eq!(t.get_single(0), -7);
    for k in 1..9 {
        assert_eq!(t.get_cuml(k) - t.get_cuml(k - 1), t.get_single(k));
    }
    assert_eq!(t.get_single(4), 5);
    assert_eq!(t.get_cuml(8), 11);
}

#[test]
fn quantile_is_tight() {
    let mut t = FenwickTree::with_capacity(11);
    let inserts = [(2usize, 3i64), (3, 0), (5, 4), (6, 1), (10, 2)];
    for (k, v) in inserts {
        t.insert(k, v);
    }
    let total = t.get_cuml(10);
    assert_eq!(total, 10);
    for target in 1..=total {
        let q = t.get_quantile(target).unwrap();
        assert!(t.get_cuml(q) >= target);
        if q > 0 {
            assert!(t.get_cuml(q - 1) < target);
        }
    }
    assert_eq!(t.get_quantile(4), Some(5));
    assert_eq!(t.get_quantile(total + 1), None);
    assert_eq!(t.get_quantile(0), Some(0));
}

#[test]
fn growth_is_transparent() {
    let inserts = [(-7i64, 2i64), (30, 1), (3, 4), (-40, 6), (3, 1), (100, 5)];
    let mut a = ExtensibleFenwickTree::new();
    let mut b = ExtensibleFenwickTree::with_capacity(1000);
    let mut c = ExtensibleFenwickTree::with_extent(-50, 200);
    let mut d = ExtensibleFenwickTree::with_extent(90, 3);
    for (k, v) in inserts {
        a.insert(k, v);
        b.insert(k, v);
        c.insert(k, v);
        d.insert(k, v);
    }
    for k in -60..120 {
        let x = a.get_cuml(k);
        assert_eq!(b.get_cuml(k), x);
        assert_eq!(c.get_cuml(k), x);
        assert_eq!(d.get_cuml(k), x);
        let y = a.get_single(k);
        assert_eq!(b.get_single(k), y);
        assert_eq!(c.get_single(k), y);
        assert_eq!(d.get_single(k), y);
    }
    assert_eq!(a.get_cuml(3), 13);
    assert_eq!(d.get_single(3), 5);
}

#[test]
fn negative_keys_exclude_the_rest() {
    let mut t = ExtensibleFenwickTree::new();
    t.insert(-3, 4);
    t.insert(-1, 2);
    assert_eq!(t.get_cuml(-1), 6);
    t.insert(0, 100);
    t.insert(5, 7);
    assert_eq!(t.get_cuml(-4), 0);
    assert_eq!(t.get_cuml(-3), 4);
    assert_eq!(t.get_cuml(-2), 4);
    assert_eq!(t.get_cuml(-1), 6);
    assert_eq!(t.get_cuml(0), 106);
    assert_eq!(t.get_cuml(5), 113);
}

#[test]
fn quantile_on_empty_trees() {
    let t = FenwickTree::with_capacity(0);
    assert_eq!(t.get_quantile(1), None);
    assert_eq!(t.get_single(0), 0);
    let e = ExtensibleFenwickTree::new();
    assert_eq!(e.get_quantile(1), None);
    assert_eq!(e.get_cuml(7), 0);
    assert_eq!(e.get_single(-7), 0);
}

#[test]
fn ensure_contains_grows_both_ways() {
    let mut t = ExtensibleFenwickTree::with_extent(0, 4);
    t.insert(2, 9);
    t.ensure_contains(-20);
    t.ensure_contains(50);
    assert_eq!(t.get_single(2), 9);
    assert_eq!(t.get_cuml(-20), 0);
    assert_eq!(t.get_cuml(50), 9);
    t.insert(-20, 1);
    t.insert(50, 1);
    assert_eq!(t.get_cuml(49), 10);
    assert_eq!(t.get_quantile(11), Some(50));
}
