//! Marrying two populations of entities that are told apart by `==`.

use vstd::prelude::*;
use vstd::std_specs::cmp::PartialEqSpec;
use crate::courtship::{outcome, proposals_through, run_reaches, takes_rounds};
use crate::engine::{deferred_acceptance, rankings};
use crate::matching::{
    best_pairing,
    is_pairing,
    lemma_pairing_is_complete,
    partner_of,
    proposer_optimal,
    stable,
    valid_profile,
};
use crate::random::RandomSource;
use crate::ranking::{ints, is_ranking, is_reordering, reorders};
use crate::state::MatchError;

verus! {

/// An entity that can rank the members of the opposite population. It has
/// an identity that `==` tells and that can be hashed.
pub trait MarriageItem<T>: std::hash::Hash {
    /// What this entity says of its own rankings: whether `prefs` can be
    /// its ranking of `list`. An entity that says nothing takes every
    /// `prefs` for a ranking.
    open spec fn ranks(&self, list: Seq<T>, prefs: Seq<T>) -> bool {
        true
    }

    /// The candidates of `list` in the order of this entity's preference,
    /// the most preferred first. A ranking that does not name every
    /// candidate once cannot be married on; `rng` is there for rankings
    /// made at random.
    fn generate_preferences(&self, list: Vec<T>, rng: &mut RandomSource) -> (prefs: Vec<T>)
        ensures
            self.ranks(list@, prefs@),
    ;
}

/// `copy` holds a clone of each entry of `list`, in the order of `list`.
pub open spec fn is_copy<T: Clone>(copy: Seq<T>, list: Seq<T>) -> bool {
    &&& copy.len() == list.len()
    &&& forall|k: int| 0 <= k < list.len() ==> cloned::<T>(#[trigger] list[k], copy[k])
}

/// `prefs` can be the ranking that `asker` gives of a copy of `population`.
pub open spec fn ranked_by<A: MarriageItem<B>, B: Clone>(
    asker: A,
    population: Seq<B>,
    prefs: Seq<B>,
) -> bool {
    exists|copy: Seq<B>| is_copy(copy, population) && #[trigger] asker.ranks(copy, prefs)
}

/// `table` holds for each of `askers` a ranking that it can give of a copy
/// of `population`.
pub open spec fn gathered<A: MarriageItem<B>, B: Clone>(
    askers: Seq<A>,
    population: Seq<B>,
    table: Seq<Vec<B>>,
) -> bool {
    &&& table.len() == askers.len()
    &&& forall|i: int|
        0 <= i < askers.len() ==> ranked_by(askers[i], population, (#[trigger] table[i])@)
}

/// `j` is the first place of `population` at which a member stands that `x`
/// equals.
pub open spec fn is_place_of<T: PartialEq>(population: Seq<T>, x: T, j: int) -> bool {
    &&& 0 <= j < population.len()
    &&& x.eq_spec(&population[j])
    &&& forall|i: int| 0 <= i < j ==> !x.eq_spec(&#[trigger] population[i])
}

/// The first place of `population` at which a member stands that `x`
/// equals; the size of the population where `x` equals no member.
pub open spec fn place<T: PartialEq>(population: Seq<T>, x: T) -> int {
    if exists|j: int| is_place_of(population, x, j) {
        choose|j: int| is_place_of(population, x, j)
    } else {
        population.len() as int
    }
}

/// The places in `population` of the entries of `list`.
pub open spec fn places<T: PartialEq>(population: Seq<T>, list: Seq<T>) -> Seq<int> {
    Seq::new(list.len(), |k: int| place(population, list[k]))
}

/// The places in `population` of the entries of each list of `table`.
pub open spec fn place_table<T: PartialEq>(population: Seq<T>, table: Seq<Vec<T>>) -> Seq<
    Seq<int>,
> {
    Seq::new(table.len(), |i: int| places(population, table[i]@))
}

/// The pairs that pairing `m` makes of the two populations.
pub open spec fn paired<A, B>(proposers: Seq<A>, proposees: Seq<B>, m: Seq<int>) -> Seq<(A, B)> {
    Seq::new(proposers.len(), |p: int| (proposers[p], proposees[m[p]]))
}

/// The populations have the same size, every entity has a preference list,
/// and every list names each member of the opposite population once.
pub open spec fn well_matched<A: PartialEq, B: PartialEq>(
    proposers: Seq<A>,
    proposees: Seq<B>,
    proposer_prefs: Seq<Vec<B>>,
    proposee_prefs: Seq<Vec<A>>,
) -> bool {
    &&& proposers.len() == proposees.len()
    &&& proposer_prefs.len() == proposers.len()
    &&& proposee_prefs.len() == proposees.len()
    &&& valid_profile(
        place_table(proposees, proposer_prefs),
        place_table(proposers, proposee_prefs),
    )
}

/// `res` is what marrying the populations under the given preferences
/// comes to: the pairs of the stable pairing that is best for the
/// proposers, in the order of the proposers, or the refusal of populations
/// and preferences that do not fit together. The pairing is the one that
/// deferred acceptance reaches, in no more rounds and proposals than there
/// are proposers times candidates.
pub open spec fn married<A: PartialEq, B: PartialEq>(
    proposers: Seq<A>,
    proposees: Seq<B>,
    proposer_prefs: Seq<Vec<B>>,
    proposee_prefs: Seq<Vec<A>>,
    res: Result<Vec<(A, B)>, MatchError>,
) -> bool {
    let pp = place_table(proposees, proposer_prefs);
    let qp = place_table(proposers, proposee_prefs);
    match res {
        Ok(pairs) => {
            &&& well_matched(proposers, proposees, proposer_prefs, proposee_prefs)
            &&& stable(pp, qp, best_pairing(pp, qp))
            &&& proposer_optimal(pp, qp, best_pairing(pp, qp))
            &&& run_reaches(pp, qp, best_pairing(pp, qp))
            &&& pairs@ == paired(proposers, proposees, best_pairing(pp, qp))
        },
        Err(e) => {
            &&& e == MatchError::InvalidPreconditions
            &&& !well_matched(proposers, proposees, proposer_prefs, proposee_prefs)
        },
    }
}

/// The first place of `population` at which a member stands that `x`
/// equals, if there is one.
pub fn locate<T: PartialEq>(population: &Vec<T>, x: &T) -> (found: Option<usize>)
    requires
        T::obeys_eq_spec(),
    ensures
        match found {
            Some(j) => j < population.len() && j == place(population@, *x),
            None => place(population@, *x) == population.len(),
        },
{
    let mut j: usize = 0;
    while j < population.len()
        invariant
            T::obeys_eq_spec(),
            j <= population.len(),
            forall|i: int| 0 <= i < j ==> !x.eq_spec(&#[trigger] population[i]),
        decreases population.len() - j,
    {
        if x.eq(&population[j]) {
            assert(is_place_of(population@, *x, j as int));
            return Some(j);
        }
        j += 1;
    }
    None
}

/// The places in `population` of the entries of `list`.
fn index_list<T: PartialEq>(population: &Vec<T>, list: &Vec<T>) -> (indices: Vec<usize>)
    requires
        T::obeys_eq_spec(),
    ensures
        ints(indices@) == places(population@, list@),
{
    let mut indices: Vec<usize> = Vec::new();
    let mut k: usize = 0;
    while k < list.len()
        invariant
            T::obeys_eq_spec(),
            k <= list.len(),
            indices.len() == k,
            forall|a: int| 0 <= a < k ==> indices[a] as int == place(population@, list[a]),
        decreases list.len() - k,
    {
        let j = match locate(population, &list[k]) {
            Some(j) => j,
            None => population.len(),
        };
        indices.push(j);
        k += 1;
    }
    assert(ints(indices@) =~= places(population@, list@));
    indices
}

/// The places in `population` of the entries of each list of `table`.
fn index_table<T: PartialEq>(population: &Vec<T>, table: &Vec<Vec<T>>) -> (indexed: Vec<
    Vec<usize>,
>)
    requires
        T::obeys_eq_spec(),
    ensures
        rankings(indexed@) == place_table(population@, table@),
{
    let mut indexed: Vec<Vec<usize>> = Vec::new();
    let mut i: usize = 0;
    while i < table.len()
        invariant
            T::obeys_eq_spec(),
            i <= table.len(),
            indexed.len() == i,
            forall|a: int|
                0 <= a < i ==> ints(#[trigger] indexed[a]@) == places(population@, table[a]@),
        decreases table.len() - i,
    {
        indexed.push(index_list(population, &table[i]));
        i += 1;
    }
    assert(rankings(indexed@) =~= place_table(population@, table@));
    indexed
}

/// The items of `items`, each in a slot that it can be taken out of.
fn into_slots<T>(items: Vec<T>) -> (slots: Vec<Option<T>>)
    ensures
        slots.len() == items.len(),
        forall|i: int| 0 <= i < items.len() ==> slots[i] == Some(items[i]),
{
    let mut slots: Vec<Option<T>> = Vec::new();
    for item in it: items
        invariant
            slots.len() == it.index(),
            forall|i: int| 0 <= i < slots.len() ==> slots[i] == Some(it.seq()[i]),
    {
        slots.push(Some(item));
    }
    slots
}

/// The pairs that `partners` makes of the two populations.
fn pair_up<A, B>(proposers: Vec<A>, proposees: Vec<B>, partners: &Vec<usize>) -> (pairs: Vec<
    (A, B),
>)
    requires
        proposers.len() == proposees.len(),
        is_pairing(ints(partners@), proposers.len() as int),
    ensures
        pairs@ == paired(proposers@, proposees@, ints(partners@)),
{
    let n = proposers.len();
    let ghost m = ints(partners@);
    let mut suitors = into_slots(proposers);
    let mut brides = into_slots(proposees);
    let mut pairs: Vec<(A, B)> = Vec::new();
    let mut p: usize = 0;
    while p < n
        invariant
            p <= n,
            n == proposers.len(),
            n == proposees.len(),
            suitors.len() == n,
            brides.len() == n,
            m == ints(partners@),
            is_pairing(m, n as int),
            pairs.len() == p,
            forall|k: int| p <= k < n ==> suitors[k] == Some(proposers[k]),
            forall|k: int| p <= k < n ==> brides[m[k]] == Some(proposees[m[k]]),
            forall|k: int| 0 <= k < p ==> pairs[k] == (proposers[k], proposees[m[k]]),
        decreases n - p,
    {
        let q = partners[p];
        assert(m[p as int] == q);
        assert(0 <= m[p as int] < n);
        let suitor = suitors[p].take();
        let bride = brides[q].take();
        assert forall|k: int| p + 1 <= k < n implies brides[m[k]] == Some(proposees[m[k]]) by {
            assert(m[k] != m[p as int]);
            assert(0 <= m[k] < n);
        }
        match (suitor, bride) {
            (Some(a), Some(b)) => {
                pairs.push((a, b));
            },
            // Both slots are full: nobody is paired twice.
            _ => {},
        }
        p += 1;
    }
    assert(pairs@ =~= paired(proposers@, proposees@, m));
    pairs
}

/// Marries the two populations under the preferences given.
///
/// `proposer_prefs[p]` is the proposees as proposer `p` ranks them, the best
/// first, and `proposee_prefs[q]` the proposers as proposee `q` ranks them.
/// An entry of a list stands for the first member of the population that it
/// equals. Where the populations have the same size and every entity's list
/// names each member of the other population once, the result pairs every
/// proposer, in the order of the proposers, with its partner in the stable
/// pairing that is best for the proposers. Otherwise the input is refused
/// before any proposal is made.
pub fn marry_with_preferences<A: PartialEq, B: PartialEq>(
    proposers: Vec<A>,
    proposees: Vec<B>,
    proposer_prefs: &Vec<Vec<B>>,
    proposee_prefs: &Vec<Vec<A>>,
) -> (res: Result<Vec<(A, B)>, MatchError>)
    requires
        A::obeys_eq_spec(),
        B::obeys_eq_spec(),
    ensures
        married(proposers@, proposees@, proposer_prefs@, proposee_prefs@, res),
{
    let n = proposers.len();
    if proposees.len() != n || proposer_prefs.len() != n || proposee_prefs.len() != n {
        return Err(MatchError::InvalidPreconditions);
    }
    let by_proposers = index_table(&proposees, proposer_prefs);
    let by_proposees = index_table(&proposers, proposee_prefs);
    match deferred_acceptance(&by_proposers, &by_proposees) {
        Ok(matching) => {
            proof {
                let pp = rankings(by_proposers@);
                let qp = rankings(by_proposees@);
                let r = matching.rounds as nat;
                assert(takes_rounds(pp, qp, r) && outcome(pp, qp, r) == best_pairing(pp, qp) && r
                    <= proposals_through(pp, qp, r) <= pp.len() * qp.len());
            }
            Ok(pair_up(proposers, proposees, &matching.partners))
        },
        Err(e) => Err(e),
    }
}

/// Asks every member of `askers` for its ranking of `candidates`.
fn gather_preferences<A: MarriageItem<B>, B: Clone>(
    askers: &Vec<A>,
    candidates: &Vec<B>,
    rng: &mut RandomSource,
) -> (table: Vec<Vec<B>>)
    ensures
        gathered(askers@, candidates@, table@),
{
    let mut table: Vec<Vec<B>> = Vec::new();
    let mut i: usize = 0;
    while i < askers.len()
        invariant
            i <= askers.len(),
            table.len() == i,
            forall|j: int|
                0 <= j < i ==> ranked_by(askers[j], candidates@, (#[trigger] table[j])@),
        decreases askers.len() - i,
    {
        let copy = candidates.clone();
        let ghost handed = copy@;
        let prefs = askers[i].generate_preferences(copy, rng);
        proof {
            assert(is_copy(handed, candidates@));
            assert(askers[i as int].ranks(handed, prefs@));
        }
        table.push(prefs);
        i += 1;
    }
    table
}

/// Marries the two populations under preferences that the entities
/// themselves give.
///
/// Populations of different sizes are refused before any entity is asked.
/// Otherwise every proposer ranks the proposees and every proposee the
/// proposers, each being handed a copy of the other population, and the
/// populations are married under these rankings as by
/// `marry_with_preferences`: the rankings decide the result, and it is for
/// the entities to give rankings that are complete.
pub fn marry<A, B>(proposers: Vec<A>, proposees: Vec<B>, rng: &mut RandomSource) -> (res: Result<
    Vec<(A, B)>,
    MatchError,
>) where A: MarriageItem<B> + Clone + PartialEq, B: MarriageItem<A> + Clone + PartialEq
    requires
        A::obeys_eq_spec(),
        B::obeys_eq_spec(),
    ensures
        proposers.len() != proposees.len() ==> res == Err::<Vec<(A, B)>, MatchError>(
            MatchError::InvalidPreconditions,
        ),
        proposers.len() == 0 && proposees.len() == 0 ==> res is Ok && res->Ok_0.len() == 0,
        proposers.len() == proposees.len() ==> exists|
            proposer_prefs: Seq<Vec<B>>,
            proposee_prefs: Seq<Vec<A>>,
        |
            gathered(proposers@, proposees@, proposer_prefs) && gathered(
                proposees@,
                proposers@,
                proposee_prefs,
            ) && #[trigger] married(proposers@, proposees@, proposer_prefs, proposee_prefs, res),
{
    if proposers.len() != proposees.len() {
        return Err(MatchError::InvalidPreconditions);
    }
    let proposer_prefs = gather_preferences(&proposers, &proposees, rng);
    let proposee_prefs = gather_preferences(&proposees, &proposers, rng);
    let ghost suitors = proposers@;
    let ghost brides = proposees@;
    let res = marry_with_preferences(proposers, proposees, &proposer_prefs, &proposee_prefs);
    proof {
        assert(married(suitors, brides, proposer_prefs@, proposee_prefs@, res));
        if suitors.len() == 0 {
            assert(well_matched(suitors, brides, proposer_prefs@, proposee_prefs@));
        }
    }
    res
}


/// Populations and preferences decide what marrying them comes to: two
/// results for the same populations and preferences are both refusals, or
/// hold the same pairs in the same order.
pub proof fn lemma_same_preferences_same_marriage<A: PartialEq, B: PartialEq>(
    proposers: Seq<A>,
    proposees: Seq<B>,
    proposer_prefs: Seq<Vec<B>>,
    proposee_prefs: Seq<Vec<A>>,
    first: Result<Vec<(A, B)>, MatchError>,
    second: Result<Vec<(A, B)>, MatchError>,
)
    requires
        married(proposers, proposees, proposer_prefs, proposee_prefs, first),
        married(proposers, proposees, proposer_prefs, proposee_prefs, second),
    ensures
        match (first, second) {
            (Ok(a), Ok(b)) => a@ == b@,
            (Err(a), Err(b)) => a == b,
            _ => false,
        },
{
}

/// In a marriage everyone is in exactly one pair: the pair at place `p` is
/// that of the proposer at place `p`, and the proposee at place `q` is in
/// one pair and no other.
pub proof fn lemma_everyone_is_paired_once<A: PartialEq, B: PartialEq>(
    proposers: Seq<A>,
    proposees: Seq<B>,
    proposer_prefs: Seq<Vec<B>>,
    proposee_prefs: Seq<Vec<A>>,
    pairs: Vec<(A, B)>,
    q: int,
)
    requires
        married(
            proposers,
            proposees,
            proposer_prefs,
            proposee_prefs,
            Ok::<Vec<(A, B)>, MatchError>(pairs),
        ),
        0 <= q < proposees.len(),
    ensures
        pairs.len() == proposers.len(),
        forall|p: int| 0 <= p < pairs.len() ==> (#[trigger] pairs[p]).0 == proposers[p],
        ({
            let m = best_pairing(
                place_table(proposees, proposer_prefs),
                place_table(proposers, proposee_prefs),
            );
            let h = partner_of(m, q);
            &&& 0 <= h < pairs.len()
            &&& pairs[h].1 == proposees[q]
            &&& forall|p: int| 0 <= p < pairs.len() && m[p] == q ==> p == h
            &&& forall|p: int| 0 <= p < pairs.len() ==> (#[trigger] pairs[p]).1 == proposees[m[p]]
        }),
{
    let m = best_pairing(
        place_table(proposees, proposer_prefs),
        place_table(proposers, proposee_prefs),
    );
    lemma_pairing_is_complete(m, proposers.len() as int, q);
}

/// The members of `population` can be told apart: each equals itself and
/// none of the others.
pub open spec fn told_apart<T: PartialEq>(population: Seq<T>) -> bool {
    forall|i: int, j: int|
        0 <= i < population.len() && 0 <= j < population.len() ==> (
        #[trigger] population[i].eq_spec(&#[trigger] population[j]) <==> i == j)
}

/// In a population whose members can be told apart, each member stands at
/// its own place.
pub proof fn lemma_place_of_member<T: PartialEq>(population: Seq<T>, j: int)
    requires
        told_apart(population),
        0 <= j < population.len(),
    ensures
        place(population, population[j]) == j,
{
    let x = population[j];
    assert(is_place_of(population, x, j));
    let found = choose|found: int| is_place_of(population, x, found);
    assert(is_place_of(population, x, found));
    if found < j {
        assert(x.eq_spec(&population[found]));
    }
}

/// A list that holds each member of a population once, in whatever order,
/// ranks the population, if its members can be told apart.
pub proof fn lemma_reordering_ranks<T: PartialEq>(population: Seq<T>, list: Seq<T>)
    requires
        told_apart(population),
        is_reordering(list, population),
    ensures
        is_ranking(places(population, list), population.len() as int),
{
    let order = choose|order: Seq<int>| reorders(order, list, population);
    assert forall|k: int| 0 <= k < list.len() implies places(population, list)[k] == order[k] by {
        assert(list[k] == population[order[k]]);
        lemma_place_of_member(population, order[k]);
    }
    assert(places(population, list) =~= order);
}

/// Two populations of one size, each with members that can be told apart,
/// can be married on any preference lists that hold each member of the
/// other side once.
pub proof fn lemma_reorderings_are_well_matched<A: PartialEq, B: PartialEq>(
    proposers: Seq<A>,
    proposees: Seq<B>,
    proposer_prefs: Seq<Vec<B>>,
    proposee_prefs: Seq<Vec<A>>,
)
    requires
        proposers.len() == proposees.len(),
        proposer_prefs.len() == proposers.len(),
        proposee_prefs.len() == proposees.len(),
        told_apart(proposers),
        told_apart(proposees),
        forall|p: int|
            0 <= p < proposer_prefs.len() ==> is_reordering(
                (#[trigger] proposer_prefs[p])@,
                proposees,
            ),
        forall|q: int|
            0 <= q < proposee_prefs.len() ==> is_reordering(
                (#[trigger] proposee_prefs[q])@,
                proposers,
            ),
    ensures
        well_matched(proposers, proposees, proposer_prefs, proposee_prefs),
{
    let pp = place_table(proposees, proposer_prefs);
    let qp = place_table(proposers, proposee_prefs);
    assert forall|p: int| 0 <= p < pp.len() implies is_ranking(
        #[trigger] pp[p],
        pp.len() as int,
    ) by {
        lemma_reordering_ranks(proposees, proposer_prefs[p]@);
    }
    assert forall|q: int| 0 <= q < qp.len() implies is_ranking(
        #[trigger] qp[q],
        qp.len() as int,
    ) by {
        lemma_reordering_ranks(proposers, proposee_prefs[q]@);
    }
}

} // verus!
