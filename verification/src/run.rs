//! Whole runs of deferred acceptance: that they end, how soon, and in what.

use vstd::prelude::*;
use crate::consistency::{
    consistent,
    courted,
    count,
    lemma_count_bound,
    lemma_courted_bound,
    lemma_release_courts,
    lemma_turn_courts,
    lemma_accept,
    lemma_cursor_total,
    lemma_displace,
    lemma_initial,
    lemma_next_round,
    lemma_reject,
    lemma_release,
    lemma_settled,
    lemma_skip,
    lemma_total_bound,
    lemma_total_update,
    total,
};
use crate::courtship::{
    outcome,
    proposals_through,
    round_closed,
    round_scanned,
    run_reaches,
    takes_rounds,
    Snapshot,
};
use crate::matching::{best_pairing, lemma_best_pairing, proposer_optimal, stable, valid_profile};
use crate::ranking::rank;

verus! {

/// Whatever a proposer does with its turn, the scan can go on.
pub proof fn lemma_turn(proposers: Seq<Seq<int>>, proposees: Seq<Seq<int>>, s: Snapshot, i: int)
    requires
        consistent(proposers, proposees, s, i, i),
        0 <= i < proposers.len(),
    ensures
        consistent(proposers, proposees, s.turn(proposers, proposees, i), i + 1, i + 1),
        s.turn(proposers, proposees, i).cursor == s.cursor,
{
    let q = s.target(proposers, i);
    if s.committed[i] {
        lemma_skip(proposers, proposees, s, i);
    } else if !s.held[q] {
        lemma_accept(proposers, proposees, s, i, q);
    } else if rank(proposees[q], i) < s.held_rank[q] {
        lemma_displace(proposers, proposees, s, i, q);
    } else {
        lemma_reject(proposers, proposees, s, i, q);
    }
}

/// A scan moves no cursor and leaves every proposer engaged or pending.
pub proof fn lemma_scan(proposers: Seq<Seq<int>>, proposees: Seq<Seq<int>>, s: Snapshot, i: int)
    requires
        consistent(proposers, proposees, s, i, i),
        0 <= i <= proposers.len(),
    ensures
        consistent(
            proposers,
            proposees,
            s.scan(proposers, proposees, i),
            proposers.len() as int,
            proposers.len() as int,
        ),
        s.scan(proposers, proposees, i).cursor == s.cursor,
    decreases proposers.len() - i,
{
    if i < proposers.len() {
        lemma_turn(proposers, proposees, s, i);
        lemma_scan(proposers, proposees, s.turn(proposers, proposees, i), i + 1);
    }
}

/// Releasing the pending proposers moves as many cursors by one.
pub proof fn lemma_release_all(proposers: Seq<Seq<int>>, proposees: Seq<Seq<int>>, s: Snapshot)
    requires
        consistent(proposers, proposees, s, 0, proposers.len() as int),
    ensures
        consistent(proposers, proposees, s.release_all(), 0, 0),
        s.release_all().pending.len() == 0,
        total(s.release_all().cursor) == total(s.cursor) + s.pending.len(),
    decreases s.pending.len(),
{
    if s.pending.len() == 0 {
        lemma_next_round(proposers, proposees, s);
    } else {
        lemma_release(proposers, proposees, s);
        lemma_total_update(s.cursor, s.pending[0], s.cursor[s.pending[0]] + 1);
        lemma_release_all(proposers, proposees, s.release());
    }
}

/// Every round of a run finds and leaves a consistent snapshot.
pub proof fn lemma_round(proposers: Seq<Seq<int>>, proposees: Seq<Seq<int>>, k: nat)
    requires
        valid_profile(proposers, proposees),
    ensures
        consistent(proposers, proposees, round_closed(proposers, proposees, k), 0, 0),
        k >= 1 ==> consistent(
            proposers,
            proposees,
            round_scanned(proposers, proposees, k),
            proposers.len() as int,
            proposers.len() as int,
        ),
        k >= 1 ==> total(round_closed(proposers, proposees, k).cursor) == total(
            round_closed(proposers, proposees, (k - 1) as nat).cursor,
        ) + round_scanned(proposers, proposees, k).pending.len(),
        k == 0 ==> total(round_closed(proposers, proposees, k).cursor) == 0,
    decreases k,
{
    if k == 0 {
        lemma_initial(proposers, proposees);
        let first = Snapshot::initial(proposers.len() as int);
        assert(first.release_all() == first);
        lemma_total_bound(first.cursor, 0);
    } else {
        let before = round_closed(proposers, proposees, (k - 1) as nat);
        lemma_round(proposers, proposees, (k - 1) as nat);
        lemma_scan(proposers, proposees, before, 0);
        lemma_release_all(proposers, proposees, before.scan(proposers, proposees, 0));
    }
}

/// Every round but the last moves a cursor.
pub proof fn lemma_progress(proposers: Seq<Seq<int>>, proposees: Seq<Seq<int>>, k: nat)
    requires
        valid_profile(proposers, proposees),
        forall|j: nat|
            1 <= j <= k ==> (#[trigger] round_scanned(proposers, proposees, j)).pending.len() > 0,
    ensures
        total(round_closed(proposers, proposees, k).cursor) >= k,
    decreases k,
{
    lemma_round(proposers, proposees, k);
    if k > 0 {
        lemma_progress(proposers, proposees, (k - 1) as nat);
        assert(round_scanned(proposers, proposees, k).pending.len() > 0);
    }
}

/// A scan adds as many candidates courted as it holds proposals.
pub proof fn lemma_scan_courts(
    proposers: Seq<Seq<int>>,
    proposees: Seq<Seq<int>>,
    s: Snapshot,
    i: int,
)
    requires
        consistent(proposers, proposees, s, i, i),
        0 <= i <= proposers.len(),
    ensures
        courted(s.scan(proposers, proposees, i)) == courted(s) + s.scan_proposals(
            proposers,
            proposees,
            i,
        ),
    decreases proposers.len() - i,
{
    if i < proposers.len() {
        lemma_turn(proposers, proposees, s, i);
        lemma_turn_courts(proposers, proposees, s, i);
        lemma_scan_courts(proposers, proposees, s.turn(proposers, proposees, i), i + 1);
    }
}

/// A scan without a proposal changes nothing; a scan holds no fewer than no
/// proposals.
pub proof fn lemma_idle_scan(
    proposers: Seq<Seq<int>>,
    proposees: Seq<Seq<int>>,
    s: Snapshot,
    i: int,
)
    ensures
        s.scan_proposals(proposers, proposees, i) >= 0,
        s.scan_proposals(proposers, proposees, i) == 0 ==> s.scan(proposers, proposees, i) == s,
    decreases proposers.len() - i,
{
    if i < proposers.len() {
        lemma_idle_scan(proposers, proposees, s.turn(proposers, proposees, i), i + 1);
    }
}

/// A run has no more rounds than proposals: somebody proposes in every round.
pub proof fn lemma_rounds_hold_proposals(
    proposers: Seq<Seq<int>>,
    proposees: Seq<Seq<int>>,
    r: nat,
)
    requires
        valid_profile(proposers, proposees),
        takes_rounds(proposers, proposees, r),
    ensures
        r <= proposals_through(proposers, proposees, r),
{
    if proposers.len() > 0 {
        lemma_proposals_exceed_rounds(proposers, proposees, r);
    }
}

/// As long as no round is the last, and in the last, somebody proposes.
proof fn lemma_proposals_exceed_rounds(
    proposers: Seq<Seq<int>>,
    proposees: Seq<Seq<int>>,
    k: nat,
)
    requires
        valid_profile(proposers, proposees),
        proposers.len() > 0,
        forall|j: nat|
            1 <= j < k ==> (#[trigger] round_scanned(proposers, proposees, j)).pending.len() > 0,
    ensures
        k <= proposals_through(proposers, proposees, k),
    decreases k,
{
    if k > 0 {
        let before = round_closed(proposers, proposees, (k - 1) as nat);
        lemma_proposals_exceed_rounds(proposers, proposees, (k - 1) as nat);
        lemma_idle_scan(proposers, proposees, before, 0);
        if before.scan_proposals(proposers, proposees, 0) == 0 {
            // Nobody proposed: everybody was committed when the round began.
            lemma_round(proposers, proposees, (k - 1) as nat);
            assert(before.scan(proposers, proposees, 0) == before);
            lemma_scan(proposers, proposees, before, 0);
            assert(consistent(
                proposers,
                proposees,
                before,
                proposers.len() as int,
                proposers.len() as int,
            ));
            lemma_somebody_proposes(proposers, proposees, before, (k - 1) as nat);
        }
    }
}

/// In a round that is held somebody proposes: in the first round everybody,
/// in a later round those that the round before turned down.
proof fn lemma_somebody_proposes(
    proposers: Seq<Seq<int>>,
    proposees: Seq<Seq<int>>,
    s: Snapshot,
    k: nat,
)
    requires
        valid_profile(proposers, proposees),
        proposers.len() > 0,
        s == round_closed(proposers, proposees, k),
        consistent(proposers, proposees, s, proposers.len() as int, proposers.len() as int),
        k >= 1 ==> round_scanned(proposers, proposees, k).pending.len() > 0,
    ensures
        s.scan_proposals(proposers, proposees, 0) >= 1,
{
    lemma_round(proposers, proposees, k);
    lemma_idle_scan(proposers, proposees, s, 0);
    if s.scan_proposals(proposers, proposees, 0) == 0 {
        // All are committed and none is pending, so that every cursor is on
        // a partner; but the round before moved a cursor on, or none was held.
        assert(s.pending.len() == 0) by {
            lemma_release_all(proposers, proposees, round_scanned(proposers, proposees, k));
        }
        assert forall|p: int| 0 <= p < proposers.len() implies s.committed[p] by {
            if !s.committed[p] {
                assert(s.is_free(p));
            }
        }
        if k == 0 {
            assert(!Snapshot::initial(proposers.len() as int).committed[0]);
            assert(Snapshot::initial(proposers.len() as int).release_all()
                == Snapshot::initial(proposers.len() as int));
        } else {
            lemma_last_released_is_free(round_scanned(proposers, proposees, k));
        }
    }
}

/// After the release of pending proposers, the one released last is not committed.
proof fn lemma_last_released_is_free(s: Snapshot)
    requires
        s.pending.len() > 0,
        s.pending.no_duplicates(),
        forall|j: int| 0 <= j < s.pending.len() ==> 0 <= #[trigger] s.pending[j] < s.committed.len(),
    ensures
        !s.release_all().committed[s.pending.last()],
        s.release_all().committed.len() == s.committed.len(),
    decreases s.pending.len(),
{
    let t = s.release();
    if t.pending.len() > 0 {
        assert(t.pending.last() == s.pending.last());
        assert forall|a: int, b: int|
            0 <= a < t.pending.len() && 0 <= b < t.pending.len() && a != b implies t.pending[a]
            != t.pending[b] by {
            assert(t.pending[a] == s.pending[a + 1]);
            assert(t.pending[b] == s.pending[b + 1]);
        }
        assert forall|j: int| 0 <= j < t.pending.len() implies 0 <= #[trigger] t.pending[j]
            < t.committed.len() by {
            assert(t.pending[j] == s.pending[j + 1]);
        }
        lemma_last_released_is_free(t);
    } else {
        assert(t.release_all() == t);
    }
}

/// The release of the pending proposers leaves the candidates courted as
/// they are.
pub proof fn lemma_release_all_courts(
    proposers: Seq<Seq<int>>,
    proposees: Seq<Seq<int>>,
    s: Snapshot,
)
    requires
        consistent(proposers, proposees, s, 0, proposers.len() as int),
    ensures
        courted(s.release_all()) == courted(s),
    decreases s.pending.len(),
{
    if s.pending.len() > 0 {
        lemma_release(proposers, proposees, s);
        lemma_release_courts(proposers, proposees, s);
        lemma_release_all_courts(proposers, proposees, s.release());
    }
}

/// After every round as many candidates are courted as proposals were made.
pub proof fn lemma_proposals_court(proposers: Seq<Seq<int>>, proposees: Seq<Seq<int>>, k: nat)
    requires
        valid_profile(proposers, proposees),
    ensures
        courted(round_scanned(proposers, proposees, k)) == proposals_through(
            proposers,
            proposees,
            k,
        ),
        courted(round_closed(proposers, proposees, k)) == proposals_through(
            proposers,
            proposees,
            k,
        ),
    decreases k,
{
    lemma_round(proposers, proposees, k);
    if k == 0 {
        let first = Snapshot::initial(proposers.len() as int);
        assert(first.release_all() == first);
        lemma_total_bound(first.cursor, 0);
        assert(count(first.has_proposed()) == 0) by {
            lemma_none_counted(first.has_proposed());
        }
    } else {
        let before = round_closed(proposers, proposees, (k - 1) as nat);
        lemma_proposals_court(proposers, proposees, (k - 1) as nat);
        lemma_round(proposers, proposees, (k - 1) as nat);
        lemma_scan_courts(proposers, proposees, before, 0);
        lemma_release_all_courts(proposers, proposees, round_scanned(proposers, proposees, k));
    }
}

/// Where no flag is true, none is counted.
proof fn lemma_none_counted(flags: Seq<bool>)
    requires
        forall|k: int| 0 <= k < flags.len() ==> !flags[k],
    ensures
        count(flags) == 0,
    decreases flags.len(),
{
    if flags.len() > 0 {
        let rest = flags.drop_last();
        assert forall|k: int| 0 <= k < rest.len() implies !rest[k] by {
            assert(!flags[k]);
        }
        lemma_none_counted(rest);
    }
}

/// A run makes no more proposals than there are proposers times candidates:
/// no proposer proposes to the same candidate twice.
pub proof fn lemma_proposals_are_bounded(
    proposers: Seq<Seq<int>>,
    proposees: Seq<Seq<int>>,
    k: nat,
)
    requires
        valid_profile(proposers, proposees),
    ensures
        0 <= proposals_through(proposers, proposees, k) <= proposers.len() * proposees.len(),
{
    lemma_proposals_court(proposers, proposees, k);
    lemma_round(proposers, proposees, k);
    lemma_courted_bound(proposers, proposees, round_closed(proposers, proposees, k));
}

/// A run takes no more rounds than there are proposers times candidates:
/// every round but the last moves some cursor one place on, and no cursor
/// leaves its list.
pub proof fn lemma_rounds_are_bounded(proposers: Seq<Seq<int>>, proposees: Seq<Seq<int>>, r: nat)
    requires
        valid_profile(proposers, proposees),
        takes_rounds(proposers, proposees, r),
    ensures
        r <= proposers.len() * proposees.len(),
{
    if proposers.len() > 0 {
        let last = (r - 1) as nat;
        lemma_progress(proposers, proposees, last);
        lemma_round(proposers, proposees, last);
        lemma_cursor_total(proposers, proposees, round_closed(proposers, proposees, last));
    }
}

/// The run of a valid profile ends in the stable pairing that is best for
/// the proposers.
pub proof fn lemma_outcome_is_stable_and_optimal(
    proposers: Seq<Seq<int>>,
    proposees: Seq<Seq<int>>,
    r: nat,
)
    requires
        valid_profile(proposers, proposees),
        takes_rounds(proposers, proposees, r),
    ensures
        stable(proposers, proposees, outcome(proposers, proposees, r)),
        proposer_optimal(proposers, proposees, outcome(proposers, proposees, r)),
{
    if r == 0 {
        lemma_initial(proposers, proposees);
        lemma_settled(proposers, proposees, Snapshot::initial(0));
    } else {
        lemma_round(proposers, proposees, r);
        lemma_settled(proposers, proposees, round_scanned(proposers, proposees, r));
    }
}

/// The preferences decide how many rounds a run takes.
pub proof fn lemma_rounds_are_determined(
    proposers: Seq<Seq<int>>,
    proposees: Seq<Seq<int>>,
    a: nat,
    b: nat,
)
    requires
        takes_rounds(proposers, proposees, a),
        takes_rounds(proposers, proposees, b),
    ensures
        a == b,
{
    if proposers.len() > 0 {
        if a < b {
            assert(round_scanned(proposers, proposees, a).pending.len() > 0);
        }
        if b < a {
            assert(round_scanned(proposers, proposees, b).pending.len() > 0);
        }
    }
}

/// A run holds one proposal for each candidate that a proposer ranks no
/// lower than its partner: the places of the partners in their proposers'
/// lists, added up, and one more for every proposer.
pub proof fn lemma_proposals_of_a_run(proposers: Seq<Seq<int>>, proposees: Seq<Seq<int>>, r: nat)
    requires
        valid_profile(proposers, proposees),
        takes_rounds(proposers, proposees, r),
    ensures
        proposals_through(proposers, proposees, r) == total(
            round_scanned(proposers, proposees, r).cursor,
        ) + proposers.len(),
{
    let last = round_scanned(proposers, proposees, r);
    lemma_proposals_court(proposers, proposees, r);
    lemma_round(proposers, proposees, r);
    if proposers.len() > 0 {
        let flags = last.has_proposed();
        assert forall|p: int| 0 <= p < flags.len() implies flags[p] by {
            if !last.committed[p] {
                assert(last.is_free(p));
            }
        }
    } else {
        lemma_initial(proposers, proposees);
        assert(last.release_all() == last);
    }
    lemma_count_bound(last.has_proposed());
}

/// The run of a valid profile reaches the stable pairing that is best for
/// the proposers, in no more rounds than proposals and no more proposals
/// than there are proposers times candidates.
pub proof fn lemma_run_reaches_best_pairing(proposers: Seq<Seq<int>>, proposees: Seq<Seq<int>>)
    requires
        valid_profile(proposers, proposees),
    ensures
        run_reaches(proposers, proposees, best_pairing(proposers, proposees)),
{
    let r = lemma_run_ends(proposers, proposees);
    lemma_outcome_is_stable_and_optimal(proposers, proposees, r);
    lemma_best_pairing(proposers, proposees, outcome(proposers, proposees, r));
    lemma_proposals_are_bounded(proposers, proposees, r);
    lemma_rounds_hold_proposals(proposers, proposees, r);
}

/// A run comes to an end.
pub proof fn lemma_run_ends(proposers: Seq<Seq<int>>, proposees: Seq<Seq<int>>) -> (r: nat)
    requires
        valid_profile(proposers, proposees),
    ensures
        takes_rounds(proposers, proposees, r),
{
    if proposers.len() == 0 {
        0
    } else {
        lemma_seek_last_round(proposers, proposees, 1)
    }
}

/// If no round before round `k` is the last, then round `k` or a later one is.
proof fn lemma_seek_last_round(proposers: Seq<Seq<int>>, proposees: Seq<Seq<int>>, k: nat) -> (r:
    nat)
    requires
        valid_profile(proposers, proposees),
        proposers.len() > 0,
        k >= 1,
        forall|j: nat|
            1 <= j < k ==> (#[trigger] round_scanned(proposers, proposees, j)).pending.len() > 0,
    ensures
        takes_rounds(proposers, proposees, r),
    decreases proposers.len() * proposers.len() - k,
{
    if round_scanned(proposers, proposees, k).pending.len() == 0 {
        k
    } else {
        lemma_progress(proposers, proposees, k);
        lemma_round(proposers, proposees, k);
        lemma_cursor_total(proposers, proposees, round_closed(proposers, proposees, k));
        lemma_seek_last_round(proposers, proposees, k + 1)
    }
}

} // verus!
