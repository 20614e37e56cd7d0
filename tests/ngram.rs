use best_corpus::ngram::{get_unique_vecs_idx, NgramError};

#[test]
fn example_sequence_has_two_distinct_bigrams() {
    let raw: Vec<u8> = vec![1, 2, 1, 2, 3];
    assert_eq!(get_unique_vecs_idx(2, &raw), Ok(vec![0, 2]));
}

#[test]
fn last_window_is_left_out() {
    // windows [1], [2], [3]; the window [4] at offset 3 is not materialised
    let raw: Vec<u8> = vec![1, 2, 3, 4];
    let idx = get_unique_vecs_idx(1, &raw).unwrap();
    assert_eq!(idx, vec![0, 1, 2]);
    assert_eq!(idx.len(), raw.len() - 1);
}

#[test]
fn windows_are_sorted_before_the_scan() {
    // windows [1], [2], [1] sort to [1], [1], [2]
    let raw: Vec<u8> = vec![1, 2, 1, 5];
    assert_eq!(get_unique_vecs_idx(1, &raw), Ok(vec![0, 2]));
}

#[test]
fn sorting_is_lexicographic() {
    // windows [2,1], [1,3], [3,2], [2,1] sort to [1,3], [2,1], [2,1], [3,2]
    let raw: Vec<u8> = vec![2, 1, 3, 2, 1, 9];
    assert_eq!(get_unique_vecs_idx(2, &raw), Ok(vec![0, 1, 3]));
}

#[test]
fn constant_sequence_has_one_distinct_window() {
    let raw: Vec<u8> = vec![7; 10];
    assert_eq!(get_unique_vecs_idx(3, &raw), Ok(vec![0]));
}

#[test]
fn distinct_count_stays_within_bounds() {
    let raw: Vec<u8> = vec![4, 8, 15, 16, 23, 42, 4, 8, 15];
    for g in 1..raw.len() as u8 {
        let idx = get_unique_vecs_idx(g, &raw).unwrap();
        assert!(idx.len() >= 1);
        assert!(idx.len() <= raw.len() - g as usize);
        assert_eq!(idx[0], 0);
    }
}

#[test]
fn all_distinct_windows_are_counted() {
    let raw: Vec<u8> = vec![5, 4, 3, 2, 1, 0];
    assert_eq!(get_unique_vecs_idx(2, &raw), Ok(vec![0, 1, 2, 3]));
}

#[test]
fn zero_gram_is_rejected() {
    let raw: Vec<u8> = vec![1, 2, 3];
    assert_eq!(get_unique_vecs_idx(0, &raw), Err(NgramError::GramZero));
}

#[test]
fn gram_equal_to_length_is_rejected() {
    let raw: Vec<u8> = vec![1, 2, 3];
    assert_eq!(get_unique_vecs_idx(3, &raw), Err(NgramError::GramTooLong));
}

#[test]
fn gram_longer_than_sequence_is_rejected() {
    let raw: Vec<u8> = vec![1, 2];
    assert_eq!(get_unique_vecs_idx(5, &raw), Err(NgramError::GramTooLong));
}

#[test]
fn empty_sequence_is_rejected() {
    let raw: Vec<u8> = vec![];
    assert_eq!(get_unique_vecs_idx(1, &raw), Err(NgramError::GramTooLong));
}
