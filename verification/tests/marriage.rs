use stable_marriage::marriage::{locate, marry, marry_with_preferences, MarriageItem};
use stable_marriage::person::Person;
use stable_marriage::random::{arrange, draw_places, RandomSource};
use stable_marriage::state::MatchError;

fn people(names: &[&str]) -> Vec<Person> {
    names.iter().map(|n| Person::new(n.to_string())).collect()
}

fn names(pairs: &Vec<(Person, Person)>) -> Vec<(String, String)> {
    pairs
        .iter()
        .map(|(a, b)| (a.name.clone(), b.name.clone()))
        .collect()
}

fn pair(a: &str, b: &str) -> (String, String) {
    (a.to_string(), b.to_string())
}

#[test]
fn person_is_known_by_name() {
    let p = Person::new("Ada".to_string());
    assert_eq!(p.name, "Ada");
    assert!(p == Person::new("Ada".to_string()));
    assert!(p != Person::new("Bob".to_string()));
    assert!(p.clone() == p);
}

#[test]
fn locate_finds_first_equal_member() {
    let crowd = people(&["Ann", "Bea", "Ann", "Cy"]);
    assert_eq!(locate(&crowd, &Person::new("Ann".to_string())), Some(0));
    assert_eq!(locate(&crowd, &Person::new("Bea".to_string())), Some(1));
    assert_eq!(locate(&crowd, &Person::new("Cy".to_string())), Some(3));
    assert_eq!(locate(&crowd, &Person::new("Dan".to_string())), None);
    assert_eq!(locate(&Vec::<Person>::new(), &Person::new("Ann".to_string())), None);
}

#[test]
fn two_by_two_with_given_preferences() {
    let a = people(&["A1", "A2"]);
    let b = people(&["B1", "B2"]);
    let a_prefs = vec![people(&["B1", "B2"]), people(&["B1", "B2"])];
    let b_prefs = vec![people(&["A2", "A1"]), people(&["A1", "A2"])];
    let pairs = marry_with_preferences(a, b, &a_prefs, &b_prefs).unwrap();
    assert_eq!(names(&pairs), vec![pair("A1", "B2"), pair("A2", "B1")]);
}

#[test]
fn sole_proposer_gets_sole_proposee() {
    let pairs = marry_with_preferences(
        people(&["A"]),
        people(&["B"]),
        &vec![people(&["B"])],
        &vec![people(&["A"])],
    )
    .unwrap();
    assert_eq!(names(&pairs), vec![pair("A", "B")]);
}

#[test]
fn nobody_to_marry() {
    let pairs =
        marry_with_preferences(people(&[]), people(&[]), &Vec::new(), &Vec::new()).unwrap();
    assert!(pairs.is_empty());
    let mut rng = RandomSource::from_seed(0);
    let pairs = marry(people(&[]), people(&[]), &mut rng).unwrap();
    assert!(pairs.is_empty());
}

#[test]
fn three_by_three_with_given_preferences() {
    let men = people(&["Al", "Bo", "Cy"]);
    let women = people(&["Di", "Eve", "Flo"]);
    let men_prefs = vec![
        people(&["Di", "Eve", "Flo"]),
        people(&["Di", "Flo", "Eve"]),
        people(&["Eve", "Di", "Flo"]),
    ];
    let women_prefs = vec![
        people(&["Bo", "Al", "Cy"]),
        people(&["Al", "Cy", "Bo"]),
        people(&["Al", "Bo", "Cy"]),
    ];
    let pairs = marry_with_preferences(men, women, &men_prefs, &women_prefs).unwrap();
    assert_eq!(
        names(&pairs),
        vec![pair("Al", "Eve"), pair("Bo", "Di"), pair("Cy", "Flo")]
    );
}

#[test]
fn populations_of_different_sizes_are_refused() {
    let res = marry_with_preferences(
        people(&["A1", "A2"]),
        people(&["B1"]),
        &vec![people(&["B1"]), people(&["B1"])],
        &vec![people(&["A1", "A2"])],
    );
    assert!(matches!(res, Err(MatchError::InvalidPreconditions)));
    let mut rng = RandomSource::from_seed(0);
    let res = marry(people(&["A1", "A2"]), people(&["B1"]), &mut rng);
    assert!(matches!(res, Err(MatchError::InvalidPreconditions)));
}

#[test]
fn missing_preference_list_is_refused() {
    let res = marry_with_preferences(
        people(&["A1", "A2"]),
        people(&["B1", "B2"]),
        &vec![people(&["B1", "B2"])],
        &vec![people(&["A1", "A2"]), people(&["A1", "A2"])],
    );
    assert!(matches!(res, Err(MatchError::InvalidPreconditions)));
}

#[test]
fn incomplete_preference_list_is_refused() {
    let res = marry_with_preferences(
        people(&["A1", "A2"]),
        people(&["B1", "B2"]),
        &vec![people(&["B1", "B2"]), people(&["B1"])],
        &vec![people(&["A1", "A2"]), people(&["A1", "A2"])],
    );
    assert!(matches!(res, Err(MatchError::InvalidPreconditions)));
}

#[test]
fn preference_for_a_stranger_is_refused() {
    let res = marry_with_preferences(
        people(&["A1", "A2"]),
        people(&["B1", "B2"]),
        &vec![people(&["B1", "B2"]), people(&["B1", "B3"])],
        &vec![people(&["A1", "A2"]), people(&["A1", "A2"])],
    );
    assert!(matches!(res, Err(MatchError::InvalidPreconditions)));
}

#[test]
fn repeated_preference_is_refused() {
    let res = marry_with_preferences(
        people(&["A1", "A2"]),
        people(&["B1", "B2"]),
        &vec![people(&["B1", "B2"]), people(&["B1", "B2"])],
        &vec![people(&["A1", "A1"]), people(&["A1", "A2"])],
    );
    assert!(matches!(res, Err(MatchError::InvalidPreconditions)));
}

#[test]
fn namesakes_cannot_be_told_apart() {
    let res = marry_with_preferences(
        people(&["A", "A"]),
        people(&["B1", "B2"]),
        &vec![people(&["B1", "B2"]), people(&["B1", "B2"])],
        &vec![people(&["A", "A"]), people(&["A", "A"])],
    );
    assert!(matches!(res, Err(MatchError::InvalidPreconditions)));
}

#[test]
fn generated_preferences_name_every_candidate_once() {
    let mut rng = RandomSource::from_seed(17);
    let me = Person::new("me".to_string());
    let candidates = people(&["a", "b", "c", "d", "e", "f"]);
    for _ in 0..50 {
        let prefs = me.generate_preferences(candidates.clone(), &mut rng);
        assert_eq!(prefs.len(), candidates.len());
        for c in &candidates {
            assert_eq!(prefs.iter().filter(|p| *p == c).count(), 1);
        }
    }
}

#[test]
fn random_marriage_pairs_everyone_once() {
    let men = people(&["Al", "Bo", "Cy", "Dan", "Ed"]);
    let women = people(&["Fay", "Gil", "Hat", "Ivy", "Jo"]);
    for seed in 0..50 {
        let mut rng = RandomSource::from_seed(seed);
        let pairs = marry(men.clone(), women.clone(), &mut rng).unwrap();
        assert_eq!(pairs.len(), 5);
        for (i, (man, _)) in pairs.iter().enumerate() {
            assert!(*man == men[i]);
        }
        for woman in &women {
            assert_eq!(pairs.iter().filter(|(_, w)| w == woman).count(), 1);
        }
    }
}

#[test]
fn same_seed_gives_same_marriage() {
    let men = people(&["Al", "Bo", "Cy", "Dan"]);
    let women = people(&["Fay", "Gil", "Hat", "Ivy"]);
    let mut first = RandomSource::from_seed(5);
    let mut second = RandomSource::from_seed(5);
    let a = marry(men.clone(), women.clone(), &mut first).unwrap();
    let b = marry(men, women, &mut second).unwrap();
    assert_eq!(names(&a), names(&b));
}

#[test]
fn both_directions_can_be_married() {
    let men = people(&["Al", "Bo", "Cy"]);
    let women = people(&["Fay", "Gil", "Hat"]);
    let mut rng = RandomSource::from_seed(8);
    let male_pairs = marry(men.clone(), women.clone(), &mut rng).unwrap();
    let female_pairs = marry(women, men, &mut rng).unwrap();
    assert_eq!(male_pairs.len(), 3);
    assert_eq!(female_pairs.len(), 3);
}

#[test]
fn lone_couple_is_married_whatever_the_seed() {
    for seed in 0..20 {
        let mut rng = RandomSource::from_seed(seed);
        let pairs = marry(people(&["Al"]), people(&["Fay"]), &mut rng).unwrap();
        assert_eq!(names(&pairs), vec![pair("Al", "Fay")]);
    }
}

#[test]
fn people_are_ranked_as_the_draws_take_them_out() {
    let abc = people(&["a", "b", "c"]);
    let kept = arrange(abc.clone(), &vec![0, 0, 0]);
    let turned = arrange(abc, &vec![1, 1, 0]);
    let names = |list: Vec<Person>| list.into_iter().map(|p| p.name).collect::<Vec<String>>();
    assert_eq!(names(kept), vec!["a", "b", "c"]);
    assert_eq!(names(turned), vec!["b", "c", "a"]);
}

#[test]
fn generated_preferences_are_the_arrangement_of_the_draws() {
    let me = Person::new("me".to_string());
    let candidates = people(&["a", "b", "c", "d", "e"]);
    for seed in 0..20 {
        let mut one = RandomSource::from_seed(seed);
        let mut other = RandomSource::from_seed(seed);
        let prefs = me.generate_preferences(candidates.clone(), &mut one);
        let draws = draw_places(candidates.len(), &mut other);
        let expected = arrange(candidates.clone(), &draws);
        assert_eq!(prefs.len(), expected.len());
        for (given, wanted) in prefs.iter().zip(expected.iter()) {
            assert!(given == wanted);
        }
    }
}
