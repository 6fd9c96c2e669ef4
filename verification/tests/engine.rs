use stable_marriage::engine::{deferred_acceptance, is_valid_profile};
use stable_marriage::state::MatchError;

/// All orderings of `0..n`.
fn orderings(n: usize) -> Vec<Vec<usize>> {
    if n == 0 {
        return vec![vec![]];
    }
    let mut all = Vec::new();
    for shorter in orderings(n - 1) {
        for at in 0..n {
            let mut longer = shorter.clone();
            longer.insert(at, n - 1);
            all.push(longer);
        }
    }
    all
}

fn rank(list: &Vec<usize>, c: usize) -> usize {
    list.iter().position(|&x| x == c).unwrap()
}

fn is_stable(proposers: &Vec<Vec<usize>>, proposees: &Vec<Vec<usize>>, m: &Vec<usize>) -> bool {
    let n = proposers.len();
    for p in 0..n {
        for q in 0..n {
            let holder = rank(m, q);
            if rank(&proposers[p], q) < rank(&proposers[p], m[p])
                && rank(&proposees[q], p) < rank(&proposees[q], holder)
            {
                return false;
            }
        }
    }
    true
}

/// A small generator of numbers, so that the instances below are fixed.
fn next(state: &mut u64) -> usize {
    *state = state
        .wrapping_mul(6364136223846793005)
        .wrapping_add(1442695040888963407);
    (*state >> 33) as usize
}

fn some_profile(n: usize, state: &mut u64) -> (Vec<Vec<usize>>, Vec<Vec<usize>>) {
    let all = orderings(n);
    let mut proposers = Vec::new();
    let mut proposees = Vec::new();
    for _ in 0..n {
        proposers.push(all[next(state) % all.len()].clone());
        proposees.push(all[next(state) % all.len()].clone());
    }
    (proposers, proposees)
}

#[test]
fn rejected_proposer_settles_for_second_choice() {
    // A1: [B1, B2], A2: [B1, B2]; B1: [A2, A1], B2: [A1, A2].
    let proposers = vec![vec![0, 1], vec![0, 1]];
    let proposees = vec![vec![1, 0], vec![0, 1]];
    let m = deferred_acceptance(&proposers, &proposees).unwrap();
    assert_eq!(m.partners, vec![1, 0]);
    assert_eq!(m.rounds, 2);
    // Both propose to B1, then A1 proposes to B2.
    assert_eq!(m.proposals, 3);
}

#[test]
fn single_pair_is_matched() {
    let m = deferred_acceptance(&vec![vec![0]], &vec![vec![0]]).unwrap();
    assert_eq!(m.partners, vec![0]);
    assert_eq!(m.rounds, 1);
    assert_eq!(m.proposals, 1);
}

#[test]
fn empty_populations_give_empty_pairing() {
    let m = deferred_acceptance(&vec![], &vec![]).unwrap();
    assert_eq!(m.partners, Vec::<usize>::new());
    assert_eq!(m.rounds, 0);
    assert_eq!(m.proposals, 0);
}

#[test]
fn holder_is_traded_for_a_better_proposer() {
    // Both proposers want proposee 0, which ranks proposer 1 first: proposer 0
    // is accepted, then traded away in the same round.
    let proposers = vec![vec![0, 1, 2], vec![0, 2, 1], vec![1, 0, 2]];
    let proposees = vec![vec![1, 0, 2], vec![0, 2, 1], vec![0, 1, 2]];
    let m = deferred_acceptance(&proposers, &proposees).unwrap();
    // Round 1: 0 takes 0, 1 displaces 0 there, 2 takes 1. Round 2: 0 asks 1,
    // which ranks it above 2. Round 3: 2 asks 0 and is turned down. Round 4:
    // 2 takes 2.
    assert_eq!(m.partners, vec![1, 0, 2]);
    assert_eq!(m.rounds, 4);
    assert_eq!(m.proposals, 6);
}

#[test]
fn agreeing_first_choices_take_one_round() {
    let proposers = vec![vec![2, 0, 1], vec![0, 1, 2], vec![1, 2, 0]];
    let proposees = vec![vec![0, 1, 2], vec![0, 1, 2], vec![0, 1, 2]];
    let m = deferred_acceptance(&proposers, &proposees).unwrap();
    assert_eq!(m.partners, vec![2, 0, 1]);
    assert_eq!(m.rounds, 1);
    assert_eq!(m.proposals, 3);
}

#[test]
fn unequal_sizes_are_refused() {
    let proposers = vec![vec![0], vec![0]];
    let proposees = vec![vec![0, 1]];
    assert!(!is_valid_profile(&proposers, &proposees));
    assert!(matches!(
        deferred_acceptance(&proposers, &proposees),
        Err(MatchError::InvalidPreconditions)
    ));
}

#[test]
fn short_list_is_refused() {
    let proposers = vec![vec![0, 1], vec![0]];
    let proposees = vec![vec![0, 1], vec![1, 0]];
    assert!(!is_valid_profile(&proposers, &proposees));
    assert!(matches!(
        deferred_acceptance(&proposers, &proposees),
        Err(MatchError::InvalidPreconditions)
    ));
}

#[test]
fn repeated_candidate_is_refused() {
    let proposers = vec![vec![0, 1], vec![1, 0]];
    let proposees = vec![vec![0, 0], vec![1, 0]];
    assert!(!is_valid_profile(&proposers, &proposees));
    assert!(matches!(
        deferred_acceptance(&proposers, &proposees),
        Err(MatchError::InvalidPreconditions)
    ));
}

#[test]
fn unknown_candidate_is_refused() {
    let proposers = vec![vec![0, 2], vec![1, 0]];
    let proposees = vec![vec![0, 1], vec![1, 0]];
    assert!(!is_valid_profile(&proposers, &proposees));
    assert!(matches!(
        deferred_acceptance(&proposers, &proposees),
        Err(MatchError::InvalidPreconditions)
    ));
}

#[test]
fn complete_profile_is_valid() {
    let proposers = vec![vec![0, 1], vec![1, 0]];
    let proposees = vec![vec![0, 1], vec![1, 0]];
    assert!(is_valid_profile(&proposers, &proposees));
    assert!(is_valid_profile(&vec![], &vec![]));
}

#[test]
fn result_has_no_blocking_pair() {
    let mut state = 11;
    for n in 1..=5 {
        for _ in 0..40 {
            let (proposers, proposees) = some_profile(n, &mut state);
            let m = deferred_acceptance(&proposers, &proposees).unwrap();
            assert!(is_stable(&proposers, &proposees, &m.partners));
        }
    }
}

#[test]
fn everyone_is_paired_exactly_once() {
    let mut state = 23;
    for n in 0..=5 {
        for _ in 0..40 {
            let (proposers, proposees) = some_profile(n, &mut state);
            let m = deferred_acceptance(&proposers, &proposees).unwrap();
            assert_eq!(m.partners.len(), n);
            let mut taken = m.partners.clone();
            taken.sort();
            assert_eq!(taken, (0..n).collect::<Vec<usize>>());
        }
    }
}

#[test]
fn no_stable_pairing_serves_a_proposer_better() {
    let mut state = 37;
    for n in 1..=4 {
        for _ in 0..30 {
            let (proposers, proposees) = some_profile(n, &mut state);
            let m = deferred_acceptance(&proposers, &proposees).unwrap();
            let mut stable_seen = 0;
            for other in orderings(n) {
                if is_stable(&proposers, &proposees, &other) {
                    stable_seen += 1;
                    for p in 0..n {
                        assert!(
                            rank(&proposers[p], m.partners[p]) <= rank(&proposers[p], other[p])
                        );
                    }
                }
            }
            assert!(stable_seen >= 1);
        }
    }
}

#[test]
fn two_stable_pairings_and_the_proposers_get_theirs() {
    // Each side's first choices point the opposite way: both pairings are
    // stable, and the proposers get the one that they prefer.
    let proposers = vec![vec![0, 1], vec![1, 0]];
    let proposees = vec![vec![1, 0], vec![0, 1]];
    assert!(is_stable(&proposers, &proposees, &vec![0, 1]));
    assert!(is_stable(&proposers, &proposees, &vec![1, 0]));
    let m = deferred_acceptance(&proposers, &proposees).unwrap();
    assert_eq!(m.partners, vec![0, 1]);
    let swapped = deferred_acceptance(&proposees, &proposers).unwrap();
    assert_eq!(swapped.partners, vec![1, 0]);
}

#[test]
fn same_preferences_give_same_pairing() {
    let mut state = 41;
    for n in 0..=5 {
        for _ in 0..20 {
            let (proposers, proposees) = some_profile(n, &mut state);
            let first = deferred_acceptance(&proposers, &proposees).unwrap();
            let second = deferred_acceptance(&proposers.clone(), &proposees.clone()).unwrap();
            assert_eq!(first.partners, second.partners);
            assert_eq!(first.rounds, second.rounds);
        }
    }
}

#[test]
fn rounds_stay_within_proposers_times_candidates() {
    let mut state = 53;
    for n in 0..=6 {
        for _ in 0..40 {
            let (proposers, proposees) = some_profile(n, &mut state);
            let m = deferred_acceptance(&proposers, &proposees).unwrap();
            assert!(m.rounds <= (n * n) as u128);
        }
    }
}

#[test]
fn proposals_stay_within_proposers_times_candidates() {
    let mut state = 59;
    for n in 0..=6 {
        for _ in 0..40 {
            let (proposers, proposees) = some_profile(n, &mut state);
            let m = deferred_acceptance(&proposers, &proposees).unwrap();
            assert!(m.rounds <= m.proposals);
            assert!(m.proposals <= (n * n) as u128);
        }
    }
}

#[test]
fn every_proposer_proposes_down_to_its_partner() {
    // Nobody proposes to a candidate twice, and nobody skips one.
    let mut state = 61;
    for n in 0..=6 {
        for _ in 0..40 {
            let (proposers, proposees) = some_profile(n, &mut state);
            let m = deferred_acceptance(&proposers, &proposees).unwrap();
            let mut expected = 0;
            for p in 0..n {
                expected += rank(&proposers[p], m.partners[p]) + 1;
            }
            assert_eq!(m.proposals, expected as u128);
        }
    }
}

#[test]
fn worst_case_takes_many_rounds() {
    // Everybody agrees on the order of the other side: the proposers are
    // served one by one.
    let n = 4;
    let proposers = vec![vec![0, 1, 2, 3]; n];
    let proposees = vec![vec![0, 1, 2, 3]; n];
    let m = deferred_acceptance(&proposers, &proposees).unwrap();
    assert_eq!(m.partners, vec![0, 1, 2, 3]);
    assert_eq!(m.rounds, 4);
    assert!(m.rounds <= 16);
    // Four propose in the first round, and one fewer in each round after.
    assert_eq!(m.proposals, 10);
}
