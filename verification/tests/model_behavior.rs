//! Behaviour of the adaptive probability model around its rescale boundary.

use arith_coder::Probabilities;

#[test]
fn cold_start_is_uniform() {
    let mut p = Probabilities::new();
    for i in 0..257 {
        assert_eq!(p.pro[i], i as u64);
    }
    assert_eq!(p.sum, 256);
    // 63 observations stay short of the rescale boundary
    for k in 0..63 {
        p.add((k * 11 % 256) as usize);
    }
    for i in 0..257 {
        assert_eq!(p.pro[i], i as u64);
    }
    assert_eq!(p.sum, 256);
}

#[test]
fn rescale_keeps_table_valid() {
    let mut p = Probabilities::new();
    for k in 0..64 {
        p.add((k % 5) as usize);
    }
    assert_eq!(p.sum, 1073741824);
    assert_eq!(p.pro[0], 0);
    assert_eq!(p.pro[256], 1073741824);
    for s in 0..256 {
        assert!(p.pro[s] < p.pro[s + 1]);
        assert!(p.pro[s + 1] - p.pro[s] >= 1);
    }
}

#[test]
fn rescale_uses_lifetime_counts() {
    // the second rescale is computed from the full history, not from the
    // counts since the first one
    let mut p = Probabilities::new();
    for _ in 0..64 {
        p.add(0);
    }
    for _ in 0..64 {
        p.add(1);
    }
    // lifetime counts 64 and 64: both symbols get half the scaled mass
    assert_eq!(p.pro[1], 536870785);
    assert_eq!(p.pro[2] - p.pro[1], 536870785);
    assert_eq!(p.pro[256], 1073741824);
}

#[test]
fn update_probabilities_rebuilds_exactly() {
    let mut p = Probabilities::new();
    p.add(5);
    p.update_probabilities();
    assert_eq!(p.sum, 1073741824);
    assert_eq!(p.pro[256], 1073741824);
    // symbol 5 carries the whole scaled mass, everyone else keeps one unit
    assert_eq!(p.pro[6] - p.pro[5], 1073741569);
    for s in 0..256 {
        if s != 5 {
            assert_eq!(p.pro[s + 1] - p.pro[s], 1);
        }
    }
}
