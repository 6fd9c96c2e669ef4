use stable_marriage::ranking::{is_permutation, rank_of};

#[test]
fn permutation_is_recognised() {
    assert!(is_permutation(&vec![2, 0, 1], 3));
    assert!(is_permutation(&vec![], 0));
    assert!(is_permutation(&vec![0], 1));
}

#[test]
fn wrong_length_is_no_permutation() {
    assert!(!is_permutation(&vec![0, 1], 3));
    assert!(!is_permutation(&vec![0, 1, 2], 2));
    assert!(!is_permutation(&vec![], 1));
}

#[test]
fn repetition_is_no_permutation() {
    assert!(!is_permutation(&vec![1, 1, 0], 3));
}

#[test]
fn stranger_is_no_permutation() {
    assert!(!is_permutation(&vec![0, 3, 1], 3));
}

#[test]
fn rank_is_first_place() {
    assert_eq!(rank_of(&vec![4, 2, 7, 2], 2), Some(1));
    assert_eq!(rank_of(&vec![4, 2, 7, 2], 4), Some(0));
    assert_eq!(rank_of(&vec![4, 2, 7, 2], 7), Some(2));
}

#[test]
fn absent_candidate_has_no_rank() {
    assert_eq!(rank_of(&vec![4, 2, 7], 5), None);
    assert_eq!(rank_of(&vec![], 0), None);
}
