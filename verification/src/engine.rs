//! Deferred acceptance on preference tables.

use vstd::prelude::*;
use crate::consistency::{
    consistent,
    courted,
    lemma_courted_bound,
    lemma_release_courts,
    lemma_turn_courts,
    lemma_cursor_total,
    lemma_initial,
    lemma_next_round,
    lemma_release,
    lemma_settled,
    lemma_total_bound,
    shaped,
    total,
};
use crate::courtship::{
    outcome,
    proposals_through,
    round_closed,
    run_reaches,
    round_scanned,
    takes_rounds,
    Snapshot,
};
use crate::run::{
    lemma_proposals_are_bounded,
    lemma_proposals_court,
    lemma_release_all,
    lemma_rounds_hold_proposals,
    lemma_scan,
    lemma_turn,
};
use crate::matching::{best_pairing, lemma_best_pairing, proposer_optimal, stable, valid_profile};
use crate::ranking::{
    ints,
    is_permutation,
    is_ranking,
    lemma_rank_of_entry,
    lemma_ranking_covers,
    rank,
    rank_of,
};
use crate::state::{MatchError, MatchState};

verus! {

/// A preference table as the rankings it holds.
pub open spec fn rankings(table: Seq<Vec<usize>>) -> Seq<Seq<int>> {
    Seq::new(table.len(), |i: int| ints(table[i]@))
}

/// The snapshot that the states of both sides and the list of proposers
/// turned down in this round stand for.
pub open spec fn snapshot(
    proposers: Seq<MatchState>,
    proposees: Seq<MatchState>,
    unmatched: Seq<usize>,
) -> Snapshot {
    Snapshot {
        cursor: Seq::new(proposers.len(), |p: int| proposers[p].position as int),
        committed: Seq::new(proposers.len(), |p: int| proposers[p].matched),
        held: Seq::new(proposees.len(), |q: int| proposees[q].matched),
        held_rank: Seq::new(proposees.len(), |q: int| proposees[q].position as int),
        pending: ints(unmatched),
    }
}

/// Each state is that of the entity at its place and holds that entity's ranking.
pub open spec fn keeps(states: Seq<MatchState>, table: Seq<Seq<int>>) -> bool {
    &&& states.len() == table.len()
    &&& forall|i: int|
        0 <= i < states.len() ==> ints((#[trigger] states[i]).preference_list@) == table[i]
            && states[i].item == i
}

/// The outcome of a run.
pub struct Matching {
    /// For each proposer, the proposee it is paired with.
    pub partners: Vec<usize>,
    /// The number of rounds of proposals that the run took. It is counted in
    /// 128 bits: its bound, the square of a length, need not fit in `usize`.
    pub rounds: u128,
    /// The number of proposals that were made in these rounds.
    pub proposals: u128,
}

/// Whether every list of `table` ranks `n` candidates.
fn all_rankings(table: &Vec<Vec<usize>>, n: usize) -> (ok: bool)
    ensures
        ok == forall|i: int|
            0 <= i < table.len() ==> is_ranking(#[trigger] rankings(table@)[i], n as int),
{
    let mut i: usize = 0;
    while i < table.len()
        invariant
            i <= table.len(),
            forall|j: int| 0 <= j < i ==> is_ranking(#[trigger] rankings(table@)[j], n as int),
        decreases table.len() - i,
    {
        if !is_permutation(&table[i], n) {
            assert(!is_ranking(rankings(table@)[i as int], n as int));
            return false;
        }
        i += 1;
    }
    true
}

/// Whether both sides have the same size and every list ranks the whole other side.
pub fn is_valid_profile(proposer_prefs: &Vec<Vec<usize>>, proposee_prefs: &Vec<Vec<usize>>) -> (ok:
    bool)
    ensures
        ok == valid_profile(rankings(proposer_prefs@), rankings(proposee_prefs@)),
{
    let n = proposer_prefs.len();
    if proposee_prefs.len() != n {
        return false;
    }
    all_rankings(proposer_prefs, n) && all_rankings(proposee_prefs, n)
}

/// A list of the same entries.
fn copy_of(list: &Vec<usize>) -> (copy: Vec<usize>)
    ensures
        copy@ == list@,
{
    let mut copy: Vec<usize> = Vec::new();
    let mut k: usize = 0;
    while k < list.len()
        invariant
            k <= list.len(),
            copy@ == list@.subrange(0, k as int),
        decreases list.len() - k,
    {
        copy.push(list[k]);
        assert(copy@ =~= list@.subrange(0, k + 1));
        k += 1;
    }
    assert(copy@ =~= list@);
    copy
}

/// For each list of `table` the state of its owner before the first proposal.
fn fresh_states(table: &Vec<Vec<usize>>) -> (states: Vec<MatchState>)
    ensures
        keeps(states@, rankings(table@)),
        forall|i: int|
            0 <= i < states.len() ==> !(#[trigger] states[i]).matched && states[i].position == 0,
{
    let mut states: Vec<MatchState> = Vec::new();
    let mut i: usize = 0;
    while i < table.len()
        invariant
            i <= table.len(),
            states.len() == i,
            forall|j: int|
                0 <= j < i ==> ints((#[trigger] states[j]).preference_list@) == rankings(table@)[j]
                    && states[j].item == j && !states[j].matched && states[j].position == 0,
        decreases table.len() - i,
    {
        states.push(MatchState::new(i, copy_of(&table[i])));
        i += 1;
    }
    states
}

/// Proposer `i` proposes to the candidate under its cursor.
fn propose(
    proposers: &mut Vec<MatchState>,
    proposees: &mut Vec<MatchState>,
    unmatched: &mut Vec<usize>,
    i: usize,
    Ghost(pp): Ghost<Seq<Seq<int>>>,
    Ghost(qp): Ghost<Seq<Seq<int>>>,
)
    requires
        keeps(old(proposers)@, pp),
        keeps(old(proposees)@, qp),
        consistent(
            pp,
            qp,
            snapshot(old(proposers)@, old(proposees)@, old(unmatched)@),
            i as int,
            i as int,
        ),
        i < pp.len(),
        !old(proposers)[i as int].matched,
    ensures
        keeps(final(proposers)@, pp),
        keeps(final(proposees)@, qp),
        consistent(
            pp,
            qp,
            snapshot(final(proposers)@, final(proposees)@, final(unmatched)@),
            i + 1,
            i + 1,
        ),
        snapshot(final(proposers)@, final(proposees)@, final(unmatched)@) == snapshot(
            old(proposers)@,
            old(proposees)@,
            old(unmatched)@,
        ).turn(pp, qp, i as int),
        courted(snapshot(final(proposers)@, final(proposees)@, final(unmatched)@)) == courted(
            snapshot(old(proposers)@, old(proposees)@, old(unmatched)@),
        ) + 1,
{
    let ghost n = pp.len() as int;
    let ghost before = snapshot(proposers@, proposees@, unmatched@);
    assert(0 <= before.cursor[i as int] < n);
    assert(is_ranking(pp[i as int], n));
    let target = proposers[i].preference_list[proposers[i].position];
    assert(target as int == before.target(pp, i as int));
    assert(0 <= pp[i as int][before.cursor[i as int]] < n);
    assert(is_ranking(qp[target as int], n));
    proof {
        lemma_ranking_covers(qp[target as int], n, i as int);
    }
    match rank_of(&proposees[target].preference_list, i) {
        None => {
            // A candidate that does not know the proposer turns it down. It
            // does not come to that: every list names every proposer.
            proof {
                let k = rank(qp[target as int], i as int);
                assert(proposees[target as int].preference_list[k] == i);
            }
            unmatched.push(i);
        },
        Some(r) => {
            proof {
                assert(qp[target as int][r as int] == i);
                lemma_rank_of_entry(qp[target as int], r as int);
            }
            if !proposees[target].matched {
                proposers[i].matched = true;
                proposees[target].matched = true;
                proposees[target].position = r;
            } else if r < proposees[target].position {
                assert(0 <= before.held_rank[target as int] < n);
                let holder = proposees[target].preference_list[proposees[target].position];
                unmatched.push(holder);
                proposers[i].matched = true;
                proposees[target].position = r;
            } else {
                unmatched.push(i);
            }
            proof {
                let after = snapshot(proposers@, proposees@, unmatched@);
                let wanted = before.turn(pp, qp, i as int);
                assert(after.cursor =~= wanted.cursor);
                assert(after.committed =~= wanted.committed);
                assert(after.held =~= wanted.held);
                assert(after.held_rank =~= wanted.held_rank);
                assert(after.pending =~= wanted.pending);
            }
        },
    }
    proof {
        lemma_turn(pp, qp, before, i as int);
        lemma_turn_courts(pp, qp, before, i as int);
    }
}

/// One round of proposals: every proposer that is not matched proposes once.
/// Whoever is turned down or traded away in the round is listed in the
/// result, and the proposals are counted.
fn scan(
    proposers: &mut Vec<MatchState>,
    proposees: &mut Vec<MatchState>,
    proposals: &mut u128,
    Ghost(pp): Ghost<Seq<Seq<int>>>,
    Ghost(qp): Ghost<Seq<Seq<int>>>,
) -> (unmatched: Vec<usize>)
    requires
        keeps(old(proposers)@, pp),
        keeps(old(proposees)@, qp),
        consistent(pp, qp, snapshot(old(proposers)@, old(proposees)@, Seq::empty()), 0, 0),
        *old(proposals) == courted(snapshot(old(proposers)@, old(proposees)@, Seq::empty())),
    ensures
        *final(proposals) == courted(snapshot(final(proposers)@, final(proposees)@, unmatched@)),
        keeps(final(proposers)@, pp),
        keeps(final(proposees)@, qp),
        consistent(
            pp,
            qp,
            snapshot(final(proposers)@, final(proposees)@, unmatched@),
            pp.len() as int,
            pp.len() as int,
        ),
        snapshot(final(proposers)@, final(proposees)@, unmatched@) == snapshot(
            old(proposers)@,
            old(proposees)@,
            Seq::empty(),
        ).scan(pp, qp, 0),
{
    let mut unmatched: Vec<usize> = Vec::new();
    let ghost start = snapshot(proposers@, proposees@, Seq::empty());
    assert(unmatched@ =~= Seq::empty());
    let n = proposers.len();
    let mut i: usize = 0;
    while i < n
        invariant
            i <= n,
            n == pp.len(),
            keeps(proposers@, pp),
            keeps(proposees@, qp),
            consistent(pp, qp, snapshot(proposers@, proposees@, unmatched@), i as int, i as int),
            snapshot(proposers@, proposees@, unmatched@).scan(pp, qp, i as int) == start.scan(
                pp,
                qp,
                0,
            ),
            *proposals == courted(snapshot(proposers@, proposees@, unmatched@)),
        decreases n - i,
    {
        if !proposers[i].matched {
            propose(proposers, proposees, &mut unmatched, i, Ghost(pp), Ghost(qp));
            proof {
                lemma_courted_bound(pp, qp, snapshot(proposers@, proposees@, unmatched@));
                assert(n * n <= u128::MAX) by (nonlinear_arith)
                    requires
                        0 <= n <= 0xffff_ffff_ffff_ffff,
                ;
            }
            *proposals = *proposals + 1;
        } else {
            proof {
                lemma_turn(pp, qp, snapshot(proposers@, proposees@, unmatched@), i as int);
            }
        }
        i += 1;
    }
    unmatched
}

/// The end of a round: each proposer on the list is unmatched and moves on
/// to its next candidate.
fn release(
    proposers: &mut Vec<MatchState>,
    unmatched: &Vec<usize>,
    Ghost(proposees): Ghost<Seq<MatchState>>,
    Ghost(pp): Ghost<Seq<Seq<int>>>,
    Ghost(qp): Ghost<Seq<Seq<int>>>,
) -> (r: Result<(), MatchError>)
    requires
        keeps(old(proposers)@, pp),
        consistent(
            pp,
            qp,
            snapshot(old(proposers)@, proposees, unmatched@),
            pp.len() as int,
            pp.len() as int,
        ),
    ensures
        r is Ok,
        keeps(final(proposers)@, pp),
        consistent(pp, qp, snapshot(final(proposers)@, proposees, Seq::empty()), 0, 0),
        snapshot(final(proposers)@, proposees, Seq::empty()) == snapshot(
            old(proposers)@,
            proposees,
            unmatched@,
        ).release_all(),
        courted(snapshot(final(proposers)@, proposees, Seq::empty())) == courted(
            snapshot(old(proposers)@, proposees, unmatched@),
        ),
{
    let ghost n = pp.len() as int;
    let ghost start = snapshot(proposers@, proposees, unmatched@);
    let mut j: usize = 0;
    assert(unmatched@.skip(0) =~= unmatched@);
    while j < unmatched.len()
        invariant
            j <= unmatched.len(),
            n == pp.len(),
            keeps(proposers@, pp),
            consistent(pp, qp, snapshot(proposers@, proposees, unmatched@.skip(j as int)), 0, n),
            snapshot(proposers@, proposees, unmatched@.skip(j as int)).release_all()
                == start.release_all(),
            courted(snapshot(proposers@, proposees, unmatched@.skip(j as int))) == courted(start),
        decreases unmatched.len() - j,
    {
        let ghost before = snapshot(proposers@, proposees, unmatched@.skip(j as int));
        let x = unmatched[j];
        proof {
            assert(before.pending[0] == x);
            lemma_release(pp, qp, before);
            lemma_release_courts(pp, qp, before);
            assert(ints(proposers[x as int].preference_list@) == pp[x as int]);
            assert(is_ranking(pp[x as int], n));
        }
        let moved = proposers[x].advance();
        proof {
            let after = snapshot(proposers@, proposees, unmatched@.skip(j + 1));
            let wanted = before.release();
            assert(after.cursor =~= wanted.cursor);
            assert(after.committed =~= wanted.committed);
            assert(after.held =~= wanted.held);
            assert(after.held_rank =~= wanted.held_rank);
            assert(after.pending =~= wanted.pending);
            assert(after == wanted);
        }
        if moved.is_err() {
            return moved;
        }
        j += 1;
    }
    proof {
        assert(unmatched@.skip(j as int) =~= Seq::empty());
        lemma_next_round(pp, qp, snapshot(proposers@, proposees, Seq::empty()));
    }
    Ok(())
}

/// Pairs the two sides by deferred acceptance, the proposers proposing.
///
/// `proposer_prefs[p]` lists the proposees as proposer `p` ranks them, best
/// first; `proposee_prefs[q]` lists the proposers as proposee `q` ranks
/// them. Where both tables have the same number of lists and every list
/// ranks the whole other side, rounds of proposals are held until nobody is
/// turned down. The result is the stable pairing that is best for every
/// proposer, with the numbers of rounds and of proposals that it took to
/// reach it: no more rounds than proposals, and no more proposals than
/// there are proposers times candidates. Otherwise no proposal is made.
///
/// No proposer ever runs out of candidates, so that
/// `MatchError::InternalInvariantViolation` is never returned.
pub fn deferred_acceptance(
    proposer_prefs: &Vec<Vec<usize>>,
    proposee_prefs: &Vec<Vec<usize>>,
) -> (res: Result<Matching, MatchError>)
    ensures
        match res {
            Ok(m) => {
                let pp = rankings(proposer_prefs@);
                let qp = rankings(proposee_prefs@);
                &&& valid_profile(pp, qp)
                &&& takes_rounds(pp, qp, m.rounds as nat)
                &&& ints(m.partners@) == outcome(pp, qp, m.rounds as nat)
                &&& stable(pp, qp, ints(m.partners@))
                &&& proposer_optimal(pp, qp, ints(m.partners@))
                &&& ints(m.partners@) == best_pairing(pp, qp)
                &&& m.rounds <= proposer_prefs.len() * proposee_prefs.len()
                &&& run_reaches(pp, qp, ints(m.partners@))
                &&& m.proposals == proposals_through(pp, qp, m.rounds as nat)
                &&& m.rounds <= m.proposals <= proposer_prefs.len() * proposee_prefs.len()
            },
            Err(e) => {
                &&& e == MatchError::InvalidPreconditions
                &&& !valid_profile(rankings(proposer_prefs@), rankings(proposee_prefs@))
            },
        },
{
    if !is_valid_profile(proposer_prefs, proposee_prefs) {
        return Err(MatchError::InvalidPreconditions);
    }
    let ghost pp = rankings(proposer_prefs@);
    let ghost qp = rankings(proposee_prefs@);
    let n = proposer_prefs.len();
    let mut proposers = fresh_states(proposer_prefs);
    let mut proposees = fresh_states(proposee_prefs);
    let mut rounds: u128 = 0;
    let mut proposals: u128 = 0;
    let mut complete = n == 0;
    proof {
        lemma_initial(pp, qp);
        let first = snapshot(proposers@, proposees@, Seq::empty());
        let wanted = Snapshot::initial(n as int);
        assert(first.cursor =~= wanted.cursor);
        assert(first.committed =~= wanted.committed);
        assert(first.held =~= wanted.held);
        assert(first.held_rank =~= wanted.held_rank);
        assert(first.pending =~= wanted.pending);
        assert(first == wanted);
        assert(wanted.release_all() == wanted);
        lemma_total_bound(first.cursor, 0);
        lemma_proposals_court(pp, qp, 0);
    }
    while !complete
        invariant
            n == pp.len(),
            valid_profile(pp, qp),
            keeps(proposers@, pp),
            keeps(proposees@, qp),
            n == 0 ==> complete && rounds == 0,
            proposals == courted(snapshot(proposers@, proposees@, Seq::empty())),
            snapshot(proposers@, proposees@, Seq::empty()) == if complete {
                round_scanned(pp, qp, rounds as nat)
            } else {
                round_closed(pp, qp, rounds as nat)
            },
            complete && n > 0 ==> rounds >= 1 && round_scanned(
                pp,
                qp,
                rounds as nat,
            ).pending.len() == 0,
            forall|k: nat|
                1 <= k < rounds + (if complete { 0int } else { 1int }) ==> (
                #[trigger] round_scanned(pp, qp, k)).pending.len() > 0,
            consistent(
                pp,
                qp,
                snapshot(proposers@, proposees@, Seq::empty()),
                if complete { n as int } else { 0 },
                if complete { n as int } else { 0 },
            ),
            rounds <= total(snapshot(proposers@, proposees@, Seq::empty()).cursor) + (if complete {
                1int
            } else {
                0int
            }),
        decreases
            n * n - total(snapshot(proposers@, proposees@, Seq::empty()).cursor) + (if complete {
                0int
            } else {
                1int
            }),
    {
        let ghost before = snapshot(proposers@, proposees@, Seq::empty());
        proof {
            lemma_cursor_total(pp, qp, before);
            assert(n * n <= u128::MAX) by (nonlinear_arith)
                requires
                    0 <= n <= 0xffff_ffff_ffff_ffff,
            ;
        }
        rounds = rounds + 1;
        let unmatched = scan(&mut proposers, &mut proposees, &mut proposals, Ghost(pp), Ghost(qp));
        let ghost scanned = snapshot(proposers@, proposees@, unmatched@);
        proof {
            assert(scanned == round_scanned(pp, qp, rounds as nat));
            lemma_scan(pp, qp, before, 0);
        }
        if unmatched.len() == 0 {
            complete = true;
            assert(unmatched@ =~= Seq::empty());
        } else {
            let ghost others = proposees@;
            let moved = release(&mut proposers, &unmatched, Ghost(others), Ghost(pp), Ghost(qp));
            if let Err(violation) = moved {
                return Err(violation);
            }
            proof {
                lemma_release_all(pp, qp, scanned);
                lemma_cursor_total(pp, qp, snapshot(proposers@, proposees@, Seq::empty()));
            }
        }
    }
    let mut partners: Vec<usize> = Vec::new();
    let mut p: usize = 0;
    let ghost last = snapshot(proposers@, proposees@, Seq::empty());
    while p < n
        invariant
            p <= n,
            n == pp.len(),
            n == proposers.len(),
            partners.len() == p,
            last == snapshot(proposers@, proposees@, Seq::empty()),
            shaped(pp, qp, last),
            keeps(proposers@, pp),
            forall|k: int| 0 <= k < p ==> partners[k] as int == last.target(pp, k),
        decreases n - p,
    {
        assert(0 <= last.cursor[p as int] < n);
        assert(ints(proposers[p as int].preference_list@) == pp[p as int]);
        assert(is_ranking(pp[p as int], n as int));
        partners.push(proposers[p].preference_list[proposers[p].position]);
        p += 1;
    }
    proof {
        assert(ints(partners@) =~= last.pairing(pp));
        lemma_settled(pp, qp, last);
        lemma_best_pairing(pp, qp, last.pairing(pp));
        lemma_cursor_total(pp, qp, last);
        lemma_proposals_court(pp, qp, rounds as nat);
        lemma_proposals_are_bounded(pp, qp, rounds as nat);
        lemma_rounds_hold_proposals(pp, qp, rounds as nat);
    }
    Ok(Matching { partners, rounds, proposals })
}

} // verus!
