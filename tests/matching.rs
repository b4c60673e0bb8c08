use wlrune::matching::{best_match, resample_closure, RecognizeError};

#[test]
fn empty_store_is_reported() {
    assert_eq!(best_match(&Vec::new()), Err(RecognizeError::EmptyPatternStore));
}

#[test]
fn smallest_key_wins() {
    assert_eq!(best_match(&vec![9, 4, 7]), Ok(1));
    assert_eq!(best_match(&vec![42]), Ok(0));
    assert_eq!(best_match(&vec![u64::MAX, u64::MAX - 1]), Ok(1));
}

#[test]
fn first_of_equal_keys_wins() {
    assert_eq!(best_match(&vec![5, 3, 3, 8]), Ok(1));
    assert_eq!(best_match(&vec![2, 2, 2]), Ok(0));
}

#[test]
fn keys_of_distances_keep_their_order() {
    let distances = [0.75f64, 0.0, 2.5, 0.25];
    let keys: Vec<u64> = distances.iter().map(|d| d.to_bits()).collect();
    assert_eq!(best_match(&keys), Ok(1));
}

#[test]
fn resample_count_closure() {
    assert_eq!(resample_closure(63, 64), Ok(true));
    assert_eq!(resample_closure(64, 64), Ok(false));
    assert_eq!(resample_closure(62, 64), Err(RecognizeError::InternalInvariantViolation));
    assert_eq!(resample_closure(65, 64), Err(RecognizeError::InternalInvariantViolation));
    assert_eq!(resample_closure(0, 0), Ok(false));
}
