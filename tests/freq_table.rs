use cuml_map::CumlFreqTable;
use cuml_map::CumlMap;

#[test]
fn freq_trivial() {
    let mut t = CumlFreqTable::with_capacity(5);
    t.insert(0, 1);
    t.insert(1, 2);
    t.insert(2, 3);
    t.insert(4, 5);

    assert_eq!(t.get_single(0), 1);
    assert_eq!(t.get_single(1), 2);
    assert_eq!(t.get_single(2), 3);
    assert_eq!(t.get_single(3), 0);
    assert_eq!(t.get_single(4), 5);

    assert_eq!(t.get_cuml(0), 1);
    assert_eq!(t.get_cuml(1), 3);
    assert_eq!(t.get_cuml(2), 6);
    assert_eq!(t.get_cuml(4), 11);
    assert_eq!(t.get_cuml(100), 11);

    assert_eq!(t.get_quantile(1), Some(0));
    assert_eq!(t.get_quantile(2), Some(1));
    assert_eq!(t.get_quantile(3), Some(1));
    assert_eq!(t.get_quantile(4), Some(2));
    assert_eq!(t.get_quantile(6), Some(2));
    assert_eq!(t.get_quantile(10), Some(4));
    assert_eq!(t.get_quantile(11), Some(4));
    assert_eq!(t.get_quantile(12), None);
}

#[test]
fn freq_small_neg_mono() {
    let mut t = CumlFreqTable::with_capacity(4);
    t.insert(0, -3);
    t.insert(1, -1);
    t.insert(2, 3);
    t.insert(3, 1);

    assert_eq!(t.get_single(0), -3);
    assert_eq!(t.get_single(1), -1);
    assert_eq!(t.get_single(2), 3);
    assert_eq!(t.get_single(3), 1);

    assert_eq!(t.get_cuml(0), -3);
    assert_eq!(t.get_cuml(1), -4);
    assert_eq!(t.get_cuml(2), -1);
    assert_eq!(t.get_cuml(3), 0);
}

#[test]
fn freq_capacity_rounds_up_to_a_power_of_two() {
    let mut t = CumlFreqTable::with_capacity(9);
    t.insert(15, 4);
    assert_eq!(t.get_single(15), 4);
    assert_eq!(t.get_cuml(14), 0);
    assert_eq!(t.get_cuml(15), 4);
    assert_eq!(t.get_quantile(1), Some(15));

    let mut one = CumlFreqTable::with_capacity(0);
    one.insert(0, 7);
    assert_eq!(one.get_single(0), 7);
    assert_eq!(one.get_cuml(0), 7);
    assert_eq!(one.get_quantile(7), Some(0));
    assert_eq!(one.get_quantile(8), None);
}

#[test]
fn freq_matches_plain_sums() {
    let mut t = CumlFreqTable::with_capacity(64);
    let mut vals = [0i64; 64];
    for i in 0..64usize {
        let v = ((i * 37) % 11) as i64;
        t.insert((i * 13) % 64, v);
        vals[(i * 13) % 64] += v;
    }
    let mut run = 0;
    for k in 0..64usize {
        run += vals[k];
        assert_eq!(t.get_cuml(k), run);
        assert_eq!(t.get_single(k), vals[k]);
    }
    for target in 1..=run {
        let q = t.get_quantile(target).unwrap();
        assert!(t.get_cuml(q) >= target);
        if q > 0 {
            assert!(t.get_cuml(q - 1) < target);
        }
    }
}

#[test]
fn freq_through_trait() {
    fn fill<M: CumlMap<Key = usize>>(t: &mut M) {
        t.insert(6, 2);
        t.insert(1, 1);
    }
    let mut t = CumlFreqTable::with_capacity(8);
    fill(&mut t);
    assert_eq!(CumlMap::get_cuml(&t, 5), 1);
    assert_eq!(CumlMap::get_quantile(&t, 2), Some(6));
}
