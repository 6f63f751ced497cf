use novelty_search::order_key::{order_key, INFINITY_BITS, NEG_INFINITY_BITS, SIGN_BIT};
use novelty_search::selection::{
    first_max_index, first_min_index, last_max_index, tournament_select, tournament_winner,
};

fn key(x: f64) -> u64 {
    order_key(x.to_bits())
}

#[test]
fn infinity_bit_patterns() {
    assert_eq!(f64::INFINITY.to_bits(), INFINITY_BITS);
    assert_eq!(f64::NEG_INFINITY.to_bits(), NEG_INFINITY_BITS);
    assert_eq!((-0.0f64).to_bits(), SIGN_BIT);
}

#[test]
fn keys_order_like_floats() {
    let values = [
        f64::NEG_INFINITY,
        -1e300,
        -2.5,
        -1.0,
        -1e-300,
        -0.0,
        0.0,
        1e-300,
        1e-10,
        1.0,
        5.0,
        6.0,
        1e300,
        f64::INFINITY,
    ];
    for &a in &values {
        for &b in &values {
            assert_eq!(a < b, key(a) < key(b), "{} < {}", a, b);
            assert_eq!(a == b, key(a) == key(b), "{} == {}", a, b);
        }
    }
}

#[test]
fn zeros_share_a_key() {
    assert_eq!(key(0.0), key(-0.0));
    assert_eq!(key(0.0), SIGN_BIT);
    assert_eq!(order_key(0), 0x8000_0000_0000_0000);
    assert_eq!(key(1.0), 0x8000_0000_0000_0000 + 1.0f64.to_bits());
}

#[test]
fn first_max_takes_earliest() {
    assert_eq!(first_max_index(&vec![3, 7, 1, 7, 2]), 1);
    assert_eq!(first_max_index(&vec![5]), 0);
    assert_eq!(first_max_index(&vec![4, 4, 4]), 0);
}

#[test]
fn last_max_takes_latest() {
    assert_eq!(last_max_index(&vec![3, 7, 1, 7, 2]), 3);
    assert_eq!(last_max_index(&vec![4, 4, 4]), 2);
    assert_eq!(last_max_index(&vec![9, 1]), 0);
}

#[test]
fn first_min_takes_earliest() {
    assert_eq!(first_min_index(&vec![3, 1, 4, 1, 5]), 1);
    assert_eq!(first_min_index(&vec![2, 2]), 0);
}

#[test]
fn tournament_winner_is_first_best_contestant() {
    let keys = vec![10, 50, 30, 50];
    assert_eq!(tournament_winner(&keys, &vec![0, 2, 1]), 1);
    assert_eq!(tournament_winner(&keys, &vec![3, 1, 0]), 3);
    assert_eq!(tournament_winner(&keys, &vec![2, 0, 2]), 2);
    assert_eq!(tournament_winner(&keys, &vec![0, 0, 0]), 0);
}

#[test]
fn tournament_select_stays_in_range() {
    assert_eq!(tournament_select(&vec![42], &mut rand::rng()), 0);
    let keys: Vec<u64> = (0..20).collect();
    let mut rng = rand::rng();
    let mut seen_low = false;
    for _ in 0..200 {
        let w = tournament_select(&keys, &mut rng);
        assert!(w < 20);
        if w < 19 {
            seen_low = true;
        }
    }
    assert!(seen_low);
}
