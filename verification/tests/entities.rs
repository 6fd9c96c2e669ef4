use stable_marriage::marriage::{marry, MarriageItem};
use stable_marriage::random::RandomSource;
use stable_marriage::state::MatchError;

/// An entity whose preferences are written on it.
#[derive(Clone, Debug, Hash, PartialEq)]
struct Card {
    id: u32,
    wishes: Vec<u32>,
}

impl MarriageItem<Card> for Card {
    fn generate_preferences(&self, list: Vec<Card>, _rng: &mut RandomSource) -> Vec<Card> {
        let mut prefs = Vec::new();
        for wish in &self.wishes {
            for candidate in &list {
                if candidate.id == *wish {
                    prefs.push(candidate.clone());
                }
            }
        }
        prefs
    }
}

fn card(id: u32, wishes: &[u32]) -> Card {
    Card { id, wishes: wishes.to_vec() }
}

fn ids(pairs: &Vec<(Card, Card)>) -> Vec<(u32, u32)> {
    pairs.iter().map(|(a, b)| (a.id, b.id)).collect()
}

#[test]
fn written_preferences_decide_the_marriage() {
    let proposers = vec![card(1, &[11, 12]), card(2, &[11, 12])];
    let proposees = vec![card(11, &[2, 1]), card(12, &[1, 2])];
    let mut rng = RandomSource::from_seed(0);
    let pairs = marry(proposers, proposees, &mut rng).unwrap();
    assert_eq!(ids(&pairs), vec![(1, 12), (2, 11)]);
}

#[test]
fn incomplete_written_preferences_are_refused() {
    let proposers = vec![card(1, &[11, 12]), card(2, &[11])];
    let proposees = vec![card(11, &[2, 1]), card(12, &[1, 2])];
    let mut rng = RandomSource::from_seed(0);
    let res = marry(proposers, proposees, &mut rng);
    assert!(matches!(res, Err(MatchError::InvalidPreconditions)));
}

#[test]
fn written_preferences_need_no_randomness() {
    let proposers = vec![card(1, &[12, 11, 13]), card(2, &[12, 13, 11]), card(3, &[11, 12, 13])];
    let proposees = vec![card(11, &[1, 2, 3]), card(12, &[2, 1, 3]), card(13, &[3, 2, 1])];
    let mut first = RandomSource::from_seed(1);
    let mut second = RandomSource::from_seed(2);
    let a = marry(proposers.clone(), proposees.clone(), &mut first).unwrap();
    let b = marry(proposers, proposees, &mut second).unwrap();
    assert_eq!(ids(&a), vec![(1, 11), (2, 12), (3, 13)]);
    assert_eq!(ids(&a), ids(&b));
}
