use stable_marriage::state::{MatchError, MatchState};

#[test]
fn new_state_is_unmatched_at_first_choice() {
    let s = MatchState::new(3, vec![2, 0, 1]);
    assert_eq!(s.item, 3);
    assert!(!s.matched);
    assert_eq!(s.position, 0);
    assert_eq!(s.preference_list, vec![2, 0, 1]);
    assert_eq!(s.candidate(), Some(2));
}

#[test]
fn advance_moves_to_next_candidate() {
    let mut s = MatchState::new(0, vec![2, 0, 1]);
    s.matched = true;
    assert_eq!(s.advance(), Ok(()));
    assert!(!s.matched);
    assert_eq!(s.position, 1);
    assert_eq!(s.candidate(), Some(0));
    assert_eq!(s.advance(), Ok(()));
    assert_eq!(s.position, 2);
    assert_eq!(s.candidate(), Some(1));
}

#[test]
fn advance_past_last_candidate_is_a_violation() {
    let mut s = MatchState::new(0, vec![1, 0]);
    assert_eq!(s.advance(), Ok(()));
    assert_eq!(s.advance(), Err(MatchError::InternalInvariantViolation));
    assert_eq!(s.position, 2);
    assert_eq!(s.candidate(), None);
    // The cursor rests behind the list.
    assert_eq!(s.advance(), Err(MatchError::InternalInvariantViolation));
    assert_eq!(s.position, 2);
}

#[test]
fn empty_list_has_no_candidate() {
    let mut s = MatchState::new(0, vec![]);
    assert_eq!(s.candidate(), None);
    assert_eq!(s.advance(), Err(MatchError::InternalInvariantViolation));
    assert_eq!(s.position, 0);
}
