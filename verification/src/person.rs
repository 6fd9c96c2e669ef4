//! People, told apart by their names, who rank each other at random.

use vstd::prelude::*;
use vstd::std_specs::cmp::PartialEqSpecImpl;
use crate::marriage::{
    gathered,
    is_copy,
    lemma_reorderings_are_well_matched,
    married,
    ranked_by,
    told_apart,
    MarriageItem,
};
use crate::state::MatchError;
use crate::random::{
    fit_draws,
    is_drawn_order,
    lemma_taken_out_reorders,
    random_permutation,
    taken_out,
    RandomSource,
};
use crate::ranking::is_reordering;

verus! {

/// A person, known by name.
#[derive(Debug, Hash)]
pub struct Person {
    pub name: String,
}

impl Person {
    /// The person of that name.
    pub fn new(name: String) -> (p: Person)
        ensures
            p.name == name,
    {
        Person { name }
    }
}

impl Clone for Person {
    fn clone(&self) -> (copy: Person)
        ensures
            copy == *self,
    {
        Person { name: self.name.clone() }
    }
}

impl PartialEq for Person {
    /// People are equal when their names are.
    fn eq(&self, other: &Person) -> (r: bool) {
        self.name == other.name
    }
}

impl PartialEqSpecImpl for Person {
    open spec fn obeys_eq_spec() -> bool {
        true
    }

    open spec fn eq_spec(&self, other: &Person) -> bool {
        self.name@ == other.name@
    }
}

impl MarriageItem<Person> for Person {
    /// A person ranks the candidates in an order that draws take them out
    /// in, and so names every candidate once.
    open spec fn ranks(&self, list: Seq<Person>, prefs: Seq<Person>) -> bool {
        is_drawn_order(prefs, list)
    }

    /// A person has no leanings: it draws as many places as there are
    /// candidates and ranks the candidates as the draws take them out.
    fn generate_preferences(&self, list: Vec<Person>, rng: &mut RandomSource) -> (prefs: Vec<
        Person,
    >)
        ensures
            is_drawn_order(prefs@, list@),
            is_reordering(prefs@, list@),
            prefs@.to_multiset() == list@.to_multiset(),
    {
        random_permutation(list, rng)
    }
}


/// No two of `people` have the same name.
pub open spec fn distinct_names(people: Seq<Person>) -> bool {
    forall|i: int, j: int|
        0 <= i < people.len() && 0 <= j < people.len() && i != j ==> (#[trigger] people[i]).name@
            != (#[trigger] people[j]).name@
}

/// The rankings that people give of copies of a population hold each member
/// of the population once.
pub proof fn lemma_people_rank_everyone(asker: Person, population: Seq<Person>, prefs: Seq<Person>)
    requires
        ranked_by(asker, population, prefs),
    ensures
        is_reordering(prefs, population),
{
    let copy = choose|copy: Seq<Person>|
        is_copy(copy, population) && #[trigger] asker.ranks(copy, prefs);
    assert forall|k: int| 0 <= k < population.len() implies copy[k] == population[k] by {
        assert(cloned::<Person>(population[k], copy[k]));
    }
    assert(copy =~= population);
    let draws = choose|draws: Seq<int>|
        fit_draws(draws, copy.len() as int) && prefs == #[trigger] taken_out(copy, draws);
    lemma_taken_out_reorders(copy, draws);
}

/// People are always married: two lists of as many people, no two of a
/// list with the same name, are not refused, whatever rankings the people
/// gave.
pub proof fn lemma_people_get_married(
    proposers: Seq<Person>,
    proposees: Seq<Person>,
    proposer_prefs: Seq<Vec<Person>>,
    proposee_prefs: Seq<Vec<Person>>,
    res: Result<Vec<(Person, Person)>, MatchError>,
)
    requires
        proposers.len() == proposees.len(),
        distinct_names(proposers),
        distinct_names(proposees),
        gathered(proposers, proposees, proposer_prefs),
        gathered(proposees, proposers, proposee_prefs),
        married(proposers, proposees, proposer_prefs, proposee_prefs, res),
    ensures
        res is Ok,
{
    assert forall|p: int| 0 <= p < proposer_prefs.len() implies is_reordering(
        (#[trigger] proposer_prefs[p])@,
        proposees,
    ) by {
        lemma_people_rank_everyone(proposers[p], proposees, proposer_prefs[p]@);
    }
    assert forall|q: int| 0 <= q < proposee_prefs.len() implies is_reordering(
        (#[trigger] proposee_prefs[q])@,
        proposers,
    ) by {
        lemma_people_rank_everyone(proposees[q], proposers, proposee_prefs[q]@);
    }
    assert(told_apart(proposers));
    assert(told_apart(proposees));
    lemma_reorderings_are_well_matched(proposers, proposees, proposer_prefs, proposee_prefs);
}

} // verus!
