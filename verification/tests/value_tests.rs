use codecrafters_redis::value::{
    floats_equal, is_nan, score_of_key, score_order_key, OrderedScore, SortedSetData,
};
use std::cmp::Ordering;

#[test]
fn test_sorted_set_add() {
    let mut zset = SortedSetData::new();
    assert!(zset.add(b"member1".to_vec(), 1.0f64.to_bits()));
    assert_eq!(zset.len(), 1);
    assert!(!zset.add(b"member1".to_vec(), 2.0f64.to_bits())); // update
    assert_eq!(zset.len(), 1);
}

#[test]
fn test_ordered_score_sorting() {
    let s1 = OrderedScore::new(1.0f64.to_bits(), b"a".to_vec());
    let s2 = OrderedScore::new(2.0f64.to_bits(), b"b".to_vec());
    let s3 = OrderedScore::new((-1.0f64).to_bits(), b"c".to_vec());

    assert!(s3 < s1); // -1 < 1
    assert!(s1 < s2); // 1 < 2
}

#[test]
fn test_lexicographic_tiebreak() {
    let s1 = OrderedScore::new(1.0f64.to_bits(), b"apple".to_vec());
    let s2 = OrderedScore::new(1.0f64.to_bits(), b"banana".to_vec());
    let s3 = OrderedScore::new(1.0f64.to_bits(), b"cherry".to_vec());

    assert!(s1 < s2);
    assert!(s2 < s3);
}

#[test]
fn rank_range_and_score() {
    let mut zset = SortedSetData::new();
    zset.add(b"b".to_vec(), 2.0f64.to_bits());
    zset.add(b"a".to_vec(), 1.0f64.to_bits());
    zset.add(b"c".to_vec(), 1.0f64.to_bits());
    assert_eq!(zset.rank(b"a"), Some(0));
    assert_eq!(zset.rank(b"c"), Some(1));
    assert_eq!(zset.rank(b"b"), Some(2));
    assert_eq!(zset.rank(b"z"), None);
    assert_eq!(zset.range(0, -1), vec![b"a".to_vec(), b"c".to_vec(), b"b".to_vec()]);
    assert_eq!(zset.range(-2, -2), vec![b"c".to_vec()]);
    assert_eq!(zset.range(2, 1), Vec::<Vec<u8>>::new());
    assert_eq!(zset.score(b"b"), Some(2.0f64.to_bits()));
    assert_eq!(zset.score(b"z"), None);
    // moving a member to a new score changes its rank
    assert!(!zset.add(b"b".to_vec(), (-5.0f64).to_bits()));
    assert_eq!(zset.rank(b"b"), Some(0));
    assert_eq!(zset.len(), 3);
}

#[test]
fn order_key_follows_float_order() {
    let xs = [f64::NEG_INFINITY, -2.5, -0.0, 0.0, 1e-300, 3.0, f64::INFINITY];
    for w in xs.windows(2) {
        assert!(score_order_key(w[0].to_bits()) < score_order_key(w[1].to_bits()));
    }
    for x in xs {
        assert_eq!(score_of_key(score_order_key(x.to_bits())), x.to_bits());
    }
    assert!(floats_equal(0.0f64.to_bits(), (-0.0f64).to_bits()));
    assert!(!floats_equal(f64::NAN.to_bits(), f64::NAN.to_bits()));
    assert!(is_nan(f64::NAN.to_bits()));
    assert!(!is_nan(f64::INFINITY.to_bits()));
}

#[test]
fn ordered_score_compares_like_ord() {
    let a = OrderedScore::new(1.0f64.to_bits(), b"x".to_vec());
    let b = OrderedScore::new(1.0f64.to_bits(), b"x".to_vec());
    assert_eq!(a.partial_cmp(&b), Some(Ordering::Equal));
    assert_eq!(a.cmp(&b), Ordering::Equal);
    let c = a.clone();
    assert_eq!(c.member(), &b"x".to_vec());
    assert_eq!(c.key(), a.key());
}
