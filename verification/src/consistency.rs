//! What stays true of every snapshot of a run, from the first proposal to
//! the last, and why each step of the run keeps it true.

use vstd::prelude::*;
use crate::courtship::Snapshot;
use crate::matching::{
    blocking_pair,
    is_pairing,
    no_worse_for_proposers,
    partner_of,
    prefers,
    proposer_optimal,
    stable,
    valid_profile,
};
use crate::ranking::{is_ranking, lemma_rank_of_entry, lemma_ranking_covers, rank};

verus! {

/// All cursors lie inside their lists.
pub open spec fn shaped(proposers: Seq<Seq<int>>, proposees: Seq<Seq<int>>, s: Snapshot) -> bool {
    let n = proposers.len();
    &&& valid_profile(proposers, proposees)
    &&& s.cursor.len() == n
    &&& s.committed.len() == n
    &&& s.held.len() == n
    &&& s.held_rank.len() == n
    &&& forall|p: int| 0 <= p < n ==> 0 <= #[trigger] s.cursor[p] < n
    &&& forall|q: int| 0 <= q < n && s.held[q] ==> 0 <= #[trigger] s.held_rank[q] < n
    &&& forall|j: int| 0 <= j < s.pending.len() ==> 0 <= #[trigger] s.pending[j] < n
    &&& s.pending.no_duplicates()
}

/// Engaged proposers and held proposees point at each other.
pub open spec fn engagements_agree(
    proposers: Seq<Seq<int>>,
    proposees: Seq<Seq<int>>,
    s: Snapshot,
) -> bool {
    let n = proposers.len();
    &&& forall|p: int|
        0 <= p < n && #[trigger] s.is_engaged(p) ==> s.held[s.target(proposers, p)] && s.holder(
            proposees,
            s.target(proposers, p),
        ) == p
    &&& forall|q: int|
        0 <= q < n && #[trigger] s.held[q] ==> s.is_engaged(s.holder(proposees, q)) && s.target(
            proposers,
            s.holder(proposees, q),
        ) == q
}

/// Whoever spurned a proposer holds somebody that it ranks higher.
pub open spec fn refusals_justified(
    proposers: Seq<Seq<int>>,
    proposees: Seq<Seq<int>>,
    s: Snapshot,
) -> bool {
    forall|p: int, q: int|
        0 <= p < proposers.len() && 0 <= q < proposers.len() && #[trigger] s.spurned(
            proposers,
            p,
            q,
        ) ==> s.held[q] && s.held_rank[q] < rank(proposees[q], p)
}

/// In the current round the proposers below `lo` have had their turn, and
/// the pending proposers that no candidate ever held lie below `hi`.
pub open spec fn scanned(s: Snapshot, lo: int, hi: int) -> bool {
    &&& forall|p: int| 0 <= p < s.cursor.len() && #[trigger] s.is_free(p) ==> p >= lo
    &&& forall|p: int|
        0 <= p < s.cursor.len() && #[trigger] s.is_pending(p) && !s.committed[p] ==> p < hi
}

/// Pairing `m` gives no proposer a partner that has spurned it.
pub open spec fn respects(proposers: Seq<Seq<int>>, s: Snapshot, m: Seq<int>) -> bool {
    forall|p: int| 0 <= p < proposers.len() ==> !s.spurned(proposers, p, #[trigger] m[p])
}

/// No proposer has been spurned by a partner that some stable pairing gives it.
pub open spec fn stable_partners_kept(
    proposers: Seq<Seq<int>>,
    proposees: Seq<Seq<int>>,
    s: Snapshot,
) -> bool {
    forall|m: Seq<int>| #[trigger] stable(proposers, proposees, m) ==> respects(proposers, s, m)
}

/// What holds of every snapshot of a run. During a scan `lo` and `hi` are
/// the place of the proposer whose turn is next; while the pending proposers
/// are released, `lo` is 0 and `hi` the number of proposers.
pub open spec fn consistent(
    proposers: Seq<Seq<int>>,
    proposees: Seq<Seq<int>>,
    s: Snapshot,
    lo: int,
    hi: int,
) -> bool {
    &&& shaped(proposers, proposees, s)
    &&& engagements_agree(proposers, proposees, s)
    &&& refusals_justified(proposers, proposees, s)
    &&& scanned(s, lo, hi)
    &&& stable_partners_kept(proposers, proposees, s)
}

/// Before the first proposal nobody has been spurned.
pub proof fn lemma_initial(proposers: Seq<Seq<int>>, proposees: Seq<Seq<int>>)
    requires
        valid_profile(proposers, proposees),
    ensures
        consistent(proposers, proposees, Snapshot::initial(proposers.len() as int), 0, 0),
{
    let n = proposers.len() as int;
    let s = Snapshot::initial(n);
    assert forall|p: int, q: int| 0 <= p < n && 0 <= q < n implies !s.spurned(proposers, p, q) by {
        lemma_ranking_covers(proposers[p], n, q);
    }
    assert forall|m: Seq<int>| #[trigger] stable(proposers, proposees, m) implies respects(
        proposers,
        s,
        m,
    ) by {
        assert forall|p: int| 0 <= p < n implies !s.spurned(proposers, p, #[trigger] m[p]) by {
            assert(0 <= m[p] < n);
        }
    }
}

/// A committed proposer lets its turn pass.
pub proof fn lemma_skip(proposers: Seq<Seq<int>>, proposees: Seq<Seq<int>>, s: Snapshot, i: int)
    requires
        consistent(proposers, proposees, s, i, i),
        0 <= i < proposers.len(),
        s.committed[i],
    ensures
        consistent(proposers, proposees, s, i + 1, i + 1),
{
    assert forall|p: int| 0 <= p < s.cursor.len() && #[trigger] s.is_free(p) implies p >= i + 1 by {
        assert(p >= i);
    }
}


proof fn lemma_push_contains(list: Seq<int>, x: int, y: int)
    ensures
        list.push(x).contains(y) <==> (list.contains(y) || y == x),
{
    let longer = list.push(x);
    if list.contains(y) {
        let j = choose|j: int| 0 <= j < list.len() && list[j] == y;
        assert(longer[j] == y);
    }
    if y == x {
        assert(longer[list.len() as int] == y);
    }
    if longer.contains(y) {
        let j = choose|j: int| 0 <= j < longer.len() && longer[j] == y;
        if j < list.len() {
            assert(list[j] == y);
        }
    }
}

proof fn lemma_drop_first_contains(list: Seq<int>, y: int)
    requires
        list.len() > 0,
        list.no_duplicates(),
    ensures
        list.drop_first().contains(y) <==> (list.contains(y) && y != list[0]),
        list.drop_first().no_duplicates(),
{
    let rest = list.drop_first();
    if rest.contains(y) {
        let j = choose|j: int| 0 <= j < rest.len() && rest[j] == y;
        assert(list[j + 1] == y);
    }
    if list.contains(y) && y != list[0] {
        let j = choose|j: int| 0 <= j < list.len() && list[j] == y;
        assert(rest[j - 1] == y);
    }
    assert forall|a: int, b: int|
        0 <= a < rest.len() && 0 <= b < rest.len() && a != b implies rest[a] != rest[b] by {
        assert(rest[a] == list[a + 1]);
        assert(rest[b] == list[b + 1]);
    }
}

/// The candidate under a cursor is the only one of that rank.
proof fn lemma_rank_at_cursor(
    proposers: Seq<Seq<int>>,
    proposees: Seq<Seq<int>>,
    s: Snapshot,
    p: int,
    q: int,
)
    requires
        shaped(proposers, proposees, s),
        0 <= p < proposers.len(),
        0 <= q < proposers.len(),
    ensures
        0 <= s.target(proposers, p) < proposers.len(),
        rank(proposers[p], s.target(proposers, p)) == s.cursor[p],
        rank(proposers[p], q) == s.cursor[p] <==> q == s.target(proposers, p),
        0 <= rank(proposers[p], q) < proposers.len(),
{
    let n = proposers.len() as int;
    assert(is_ranking(proposers[p], n));
    lemma_rank_of_entry(proposers[p], s.cursor[p]);
    lemma_ranking_covers(proposers[p], n, q);
}

/// What a held proposee knows of its holder.
proof fn lemma_holder(proposers: Seq<Seq<int>>, proposees: Seq<Seq<int>>, s: Snapshot, q: int)
    requires
        shaped(proposers, proposees, s),
        engagements_agree(proposers, proposees, s),
        0 <= q < proposers.len(),
        s.held[q],
    ensures
        0 <= s.holder(proposees, q) < proposers.len(),
        rank(proposees[q], s.holder(proposees, q)) == s.held_rank[q],
        s.is_engaged(s.holder(proposees, q)),
        s.target(proposers, s.holder(proposees, q)) == q,
{
    let n = proposers.len() as int;
    assert(is_ranking(proposees[q], n));
    assert(0 <= s.held_rank[q] < n);
    lemma_rank_of_entry(proposees[q], s.held_rank[q]);
}

/// A free proposee accepts whoever proposes to it.
pub proof fn lemma_accept(
    proposers: Seq<Seq<int>>,
    proposees: Seq<Seq<int>>,
    s: Snapshot,
    i: int,
    q: int,
)
    requires
        consistent(proposers, proposees, s, i, i),
        0 <= i < proposers.len(),
        !s.committed[i],
        q == s.target(proposers, i),
        !s.held[q],
    ensures
        consistent(proposers, proposees, s.accept(proposees, i, q), i + 1, i + 1),
{
    let n = proposers.len() as int;
    let t = s.accept(proposees, i, q);
    lemma_rank_at_cursor(proposers, proposees, s, i, q);
    assert(is_ranking(proposees[q], n));
    lemma_ranking_covers(proposees[q], n, i);
    assert(!s.is_pending(i));
    assert forall|p: int, c: int| t.spurned(proposers, p, c) == s.spurned(proposers, p, c) by {}
    assert(shaped(proposers, proposees, t));
    assert forall|p: int| 0 <= p < n && #[trigger] t.is_engaged(p) implies t.held[t.target(
        proposers,
        p,
    )] && t.holder(proposees, t.target(proposers, p)) == p by {
        if p != i {
            assert(s.is_engaged(p));
        }
    }
    assert forall|c: int| 0 <= c < n && #[trigger] t.held[c] implies t.is_engaged(
        t.holder(proposees, c),
    ) && t.target(proposers, t.holder(proposees, c)) == c by {
        if c != q {
            assert(s.held[c]);
            assert(s.is_engaged(s.holder(proposees, c)));
        } else {
            assert(t.is_engaged(i));
        }
    }
    assert forall|p: int, c: int|
        0 <= p < n && 0 <= c < n && #[trigger] t.spurned(proposers, p, c) implies t.held[c]
            && t.held_rank[c] < rank(proposees[c], p) by {
        assert(s.spurned(proposers, p, c));
    }
    assert forall|p: int| 0 <= p < n && #[trigger] t.is_free(p) implies p >= i + 1 by {
        assert(s.is_free(p));
    }
    assert forall|p: int| 0 <= p < n && #[trigger] t.is_pending(p) && !t.committed[p] implies p < i
        + 1 by {
        assert(s.is_pending(p));
    }
    assert forall|m: Seq<int>| #[trigger] stable(proposers, proposees, m) implies respects(
        proposers,
        t,
        m,
    ) by {
        assert(respects(proposers, s, m));
    }
}

/// A proposee that ranks the newcomer above its holder trades the holder in.
pub proof fn lemma_displace(
    proposers: Seq<Seq<int>>,
    proposees: Seq<Seq<int>>,
    s: Snapshot,
    i: int,
    q: int,
)
    requires
        consistent(proposers, proposees, s, i, i),
        0 <= i < proposers.len(),
        !s.committed[i],
        q == s.target(proposers, i),
        s.held[q],
        rank(proposees[q], i) < s.held_rank[q],
    ensures
        consistent(proposers, proposees, s.displace(proposees, i, q), i + 1, i + 1),
{
    let n = proposers.len() as int;
    let t = s.displace(proposees, i, q);
    let h = s.holder(proposees, q);
    lemma_rank_at_cursor(proposers, proposees, s, i, q);
    lemma_holder(proposers, proposees, s, q);
    lemma_rank_at_cursor(proposers, proposees, s, h, q);
    assert(is_ranking(proposees[q], n));
    lemma_ranking_covers(proposees[q], n, i);
    assert(!s.is_pending(i));
    assert(h != i);
    assert forall|p: int| t.is_pending(p) <==> (s.is_pending(p) || p == h) by {
        lemma_push_contains(s.pending, h, p);
    }
    assert(t.pending.no_duplicates()) by {
        assert forall|a: int, b: int|
            0 <= a < t.pending.len() && 0 <= b < t.pending.len() && a != b implies t.pending[a]
            != t.pending[b] by {
            if a < s.pending.len() && b < s.pending.len() {
                assert(s.pending[a] != s.pending[b]);
            } else if a < s.pending.len() {
                assert(s.pending[a] == t.pending[a]);
            } else {
                assert(s.pending[b] == t.pending[b]);
            }
        }
    }
    assert(shaped(proposers, proposees, t));
    assert forall|p: int| 0 <= p < n && #[trigger] t.is_engaged(p) implies t.held[t.target(
        proposers,
        p,
    )] && t.holder(proposees, t.target(proposers, p)) == p by {
        if p != i {
            assert(s.is_engaged(p));
        }
    }
    assert forall|c: int| 0 <= c < n && #[trigger] t.held[c] implies t.is_engaged(
        t.holder(proposees, c),
    ) && t.target(proposers, t.holder(proposees, c)) == c by {
        if c != q {
            assert(s.held[c]);
            assert(s.is_engaged(s.holder(proposees, c)));
        } else {
            assert(t.is_engaged(i));
        }
    }
    assert forall|p: int, c: int|
        0 <= p < n && 0 <= c < n && #[trigger] t.spurned(proposers, p, c) implies t.held[c]
            && t.held_rank[c] < rank(proposees[c], p) by {
        if s.spurned(proposers, p, c) {
        } else {
            lemma_rank_at_cursor(proposers, proposees, s, p, c);
            assert(p == h && c == q);
        }
    }
    assert forall|p: int| 0 <= p < n && #[trigger] t.is_free(p) implies p >= i + 1 by {
        assert(s.is_free(p));
    }
    assert forall|p: int| 0 <= p < n && #[trigger] t.is_pending(p) && !t.committed[p] implies p < i
        + 1 by {
        assert(s.is_pending(p));
    }
    assert forall|m: Seq<int>| #[trigger] stable(proposers, proposees, m) implies respects(
        proposers,
        t,
        m,
    ) by {
        assert(respects(proposers, s, m));
        assert forall|p: int| 0 <= p < n implies !t.spurned(proposers, p, #[trigger] m[p]) by {
            assert(!s.spurned(proposers, p, m[p]));
            assert(0 <= m[p] < n);
            if t.spurned(proposers, p, m[p]) {
                lemma_rank_at_cursor(proposers, proposees, s, p, m[p]);
                assert(p == h && m[h] == q);
                lemma_jilted(proposers, proposees, s, m, i, h, q);
            }
        }
    }
}

/// The heart of the matter. Proposee `q` ranks `winner`, who courts it,
/// above `loser`, and stable pairing `m` gives `winner` nobody that has
/// spurned it. Then `m` does not pair `loser` with `q`: `winner` and `q`
/// would leave their partners for each other.
proof fn lemma_jilted(
    proposers: Seq<Seq<int>>,
    proposees: Seq<Seq<int>>,
    s: Snapshot,
    m: Seq<int>,
    winner: int,
    loser: int,
    q: int,
)
    requires
        shaped(proposers, proposees, s),
        stable(proposers, proposees, m),
        respects(proposers, s, m),
        0 <= winner < proposers.len(),
        0 <= loser < proposers.len(),
        winner != loser,
        q == s.target(proposers, winner),
        !s.is_pending(winner),
        rank(proposees[q], winner) < rank(proposees[q], loser),
    ensures
        m[loser] != q,
{
    let n = proposers.len() as int;
    if m[loser] == q {
        assert(m[winner] != q);
        assert(0 <= m[winner] < n);
        assert(!s.spurned(proposers, winner, m[winner]));
        lemma_rank_at_cursor(proposers, proposees, s, winner, m[winner]);
        assert(prefers(proposers[winner], q, m[winner]));
        lemma_rank_of_entry(m, loser);
        assert(partner_of(m, q) == loser);
        assert(blocking_pair(proposers, proposees, m, winner, q));
    }
}

/// A proposee that ranks its holder above the newcomer turns the newcomer down.
pub proof fn lemma_reject(
    proposers: Seq<Seq<int>>,
    proposees: Seq<Seq<int>>,
    s: Snapshot,
    i: int,
    q: int,
)
    requires
        consistent(proposers, proposees, s, i, i),
        0 <= i < proposers.len(),
        !s.committed[i],
        q == s.target(proposers, i),
        s.held[q],
        rank(proposees[q], i) >= s.held_rank[q],
    ensures
        rank(proposees[q], i) > s.held_rank[q],
        consistent(proposers, proposees, s.reject(i), i + 1, i + 1),
{
    let n = proposers.len() as int;
    let t = s.reject(i);
    let r = rank(proposees[q], i);
    let h = s.holder(proposees, q);
    lemma_rank_at_cursor(proposers, proposees, s, i, q);
    lemma_holder(proposers, proposees, s, q);
    lemma_rank_at_cursor(proposers, proposees, s, h, q);
    assert(is_ranking(proposees[q], n));
    lemma_ranking_covers(proposees[q], n, i);
    assert(!s.is_pending(i));
    assert(h != i);
    assert(r > s.held_rank[q]);
    assert forall|p: int| t.is_pending(p) <==> (s.is_pending(p) || p == i) by {
        lemma_push_contains(s.pending, i, p);
    }
    assert(t.pending.no_duplicates()) by {
        assert forall|a: int, b: int|
            0 <= a < t.pending.len() && 0 <= b < t.pending.len() && a != b implies t.pending[a]
            != t.pending[b] by {
            if a < s.pending.len() && b < s.pending.len() {
                assert(s.pending[a] != s.pending[b]);
            } else if a < s.pending.len() {
                assert(s.pending[a] == t.pending[a]);
            } else {
                assert(s.pending[b] == t.pending[b]);
            }
        }
    }
    assert(shaped(proposers, proposees, t));
    assert forall|p: int| 0 <= p < n && #[trigger] t.is_engaged(p) implies t.held[t.target(
        proposers,
        p,
    )] && t.holder(proposees, t.target(proposers, p)) == p by {
        assert(s.is_engaged(p));
    }
    assert forall|c: int| 0 <= c < n && #[trigger] t.held[c] implies t.is_engaged(
        t.holder(proposees, c),
    ) && t.target(proposers, t.holder(proposees, c)) == c by {
        assert(s.held[c]);
        assert(s.is_engaged(s.holder(proposees, c)));
    }
    assert forall|p: int, c: int|
        0 <= p < n && 0 <= c < n && #[trigger] t.spurned(proposers, p, c) implies t.held[c]
            && t.held_rank[c] < rank(proposees[c], p) by {
        if s.spurned(proposers, p, c) {
        } else {
            lemma_rank_at_cursor(proposers, proposees, s, p, c);
            assert(p == i && c == q);
        }
    }
    assert forall|p: int| 0 <= p < n && #[trigger] t.is_free(p) implies p >= i + 1 by {
        assert(s.is_free(p));
    }
    assert forall|p: int| 0 <= p < n && #[trigger] t.is_pending(p) && !t.committed[p] implies p < i
        + 1 by {
        if p != i {
            assert(s.is_pending(p));
        }
    }
    assert forall|m: Seq<int>| #[trigger] stable(proposers, proposees, m) implies respects(
        proposers,
        t,
        m,
    ) by {
        assert(respects(proposers, s, m));
        assert forall|p: int| 0 <= p < n implies !t.spurned(proposers, p, #[trigger] m[p]) by {
            assert(!s.spurned(proposers, p, m[p]));
            assert(0 <= m[p] < n);
            if t.spurned(proposers, p, m[p]) {
                lemma_rank_at_cursor(proposers, proposees, s, p, m[p]);
                assert(p == i && m[i] == q);
                lemma_jilted(proposers, proposees, s, m, h, i, q);
            }
        }
    }
}


/// A pending proposer has a candidate left: had every proposee spurned it,
/// the proposees would hold as many proposers as there are, itself among them.
pub proof fn lemma_candidate_left(
    proposers: Seq<Seq<int>>,
    proposees: Seq<Seq<int>>,
    s: Snapshot,
    lo: int,
    hi: int,
    x: int,
)
    requires
        consistent(proposers, proposees, s, lo, hi),
        0 <= x < proposers.len(),
        s.is_pending(x),
    ensures
        s.cursor[x] + 1 < proposers.len(),
{
    let n = proposers.len() as int;
    if s.cursor[x] + 1 >= n {
        let holders = Seq::new(n as nat, |q: int| s.holder(proposees, q));
        assert forall|q: int| 0 <= q < n implies s.held[q] by {
            lemma_rank_at_cursor(proposers, proposees, s, x, q);
            assert(s.spurned(proposers, x, q));
        }
        assert forall|q: int| 0 <= q < n implies 0 <= #[trigger] holders[q] < n by {
            lemma_holder(proposers, proposees, s, q);
        }
        assert forall|a: int, b: int| 0 <= a < n && 0 <= b < n && a != b implies holders[a]
            != holders[b] by {
            lemma_holder(proposers, proposees, s, a);
            lemma_holder(proposers, proposees, s, b);
        }
        assert(is_ranking(holders, n));
        lemma_ranking_covers(holders, n, x);
        let q = rank(holders, x);
        lemma_holder(proposers, proposees, s, q);
        assert(s.is_engaged(x));
    }
}

/// When the scan of a round is over, the pending proposers move on one by one.
pub proof fn lemma_release(proposers: Seq<Seq<int>>, proposees: Seq<Seq<int>>, s: Snapshot)
    requires
        consistent(proposers, proposees, s, 0, proposers.len() as int),
        s.pending.len() > 0,
    ensures
        s.cursor[s.pending[0]] + 1 < proposers.len(),
        consistent(proposers, proposees, s.release(), 0, proposers.len() as int),
{
    let n = proposers.len() as int;
    let t = s.release();
    let x = s.pending[0];
    assert(0 <= x < n);
    assert(s.is_pending(x));
    lemma_candidate_left(proposers, proposees, s, 0, n, x);
    assert forall|p: int| t.is_pending(p) <==> (s.is_pending(p) && p != x) by {
        lemma_drop_first_contains(s.pending, p);
    }
    lemma_drop_first_contains(s.pending, x);
    assert forall|p: int, c: int| 0 <= p < n implies t.spurned(proposers, p, c) == s.spurned(
        proposers,
        p,
        c,
    ) by {}
    assert(shaped(proposers, proposees, t)) by {
        assert forall|j: int| 0 <= j < t.pending.len() implies 0 <= #[trigger] t.pending[j] < n by {
            assert(t.pending[j] == s.pending[j + 1]);
        }
    }
    assert forall|p: int| 0 <= p < n && #[trigger] t.is_engaged(p) implies t.held[t.target(
        proposers,
        p,
    )] && t.holder(proposees, t.target(proposers, p)) == p by {
        assert(s.is_engaged(p));
    }
    assert forall|c: int| 0 <= c < n && #[trigger] t.held[c] implies t.is_engaged(
        t.holder(proposees, c),
    ) && t.target(proposers, t.holder(proposees, c)) == c by {
        lemma_holder(proposers, proposees, s, c);
    }
    assert forall|p: int, c: int|
        0 <= p < n && 0 <= c < n && #[trigger] t.spurned(proposers, p, c) implies t.held[c]
            && t.held_rank[c] < rank(proposees[c], p) by {
        assert(s.spurned(proposers, p, c));
    }
    assert forall|m: Seq<int>| #[trigger] stable(proposers, proposees, m) implies respects(
        proposers,
        t,
        m,
    ) by {
        assert(respects(proposers, s, m));
        assert forall|p: int| 0 <= p < n implies !t.spurned(proposers, p, #[trigger] m[p]) by {
            assert(!s.spurned(proposers, p, m[p]));
        }
    }
}

/// Between rounds nobody is pending, so a new scan can begin.
pub proof fn lemma_next_round(proposers: Seq<Seq<int>>, proposees: Seq<Seq<int>>, s: Snapshot)
    requires
        consistent(proposers, proposees, s, 0, proposers.len() as int),
        s.pending.len() == 0,
    ensures
        consistent(proposers, proposees, s, 0, 0),
{
}

/// A round in which nobody was turned down ends the run: the cursors point
/// out a stable pairing, and no stable pairing serves any proposer better.
pub proof fn lemma_settled(proposers: Seq<Seq<int>>, proposees: Seq<Seq<int>>, s: Snapshot)
    requires
        consistent(proposers, proposees, s, proposers.len() as int, proposers.len() as int),
        s.pending.len() == 0,
    ensures
        stable(proposers, proposees, s.pairing(proposers)),
        proposer_optimal(proposers, proposees, s.pairing(proposers)),
{
    let n = proposers.len() as int;
    let m = s.pairing(proposers);
    assert forall|p: int| 0 <= p < n implies s.is_engaged(p) by {
        if !s.committed[p] {
            assert(s.is_free(p));
        }
    }
    assert forall|p: int| 0 <= p < n implies 0 <= #[trigger] m[p] < n by {
        lemma_rank_at_cursor(proposers, proposees, s, p, 0);
    }
    assert forall|a: int, b: int| 0 <= a < n && 0 <= b < n && a != b implies m[a] != m[b] by {
        assert(s.is_engaged(a));
        assert(s.is_engaged(b));
    }
    assert(is_pairing(m, n));
    assert forall|p: int, q: int| 0 <= p < n && 0 <= q < n implies !blocking_pair(
        proposers,
        proposees,
        m,
        p,
        q,
    ) by {
        lemma_rank_at_cursor(proposers, proposees, s, p, q);
        if prefers(proposers[p], q, m[p]) {
            assert(s.spurned(proposers, p, q));
            lemma_holder(proposers, proposees, s, q);
            let h = s.holder(proposees, q);
            assert(m[h] == q);
            lemma_rank_of_entry(m, h);
            assert(partner_of(m, q) == h);
        }
    }
    assert forall|other: Seq<int>| #[trigger]
        stable(proposers, proposees, other) implies no_worse_for_proposers(
        proposers,
        m,
        other,
    ) by {
        assert(respects(proposers, s, other));
        assert forall|p: int| 0 <= p < n implies rank(proposers[p], m[p]) <= rank(
            proposers[p],
            #[trigger] other[p],
        ) by {
            assert(0 <= other[p] < n);
            lemma_rank_at_cursor(proposers, proposees, s, p, other[p]);
            assert(!s.spurned(proposers, p, other[p]));
        }
    }
}

/// The sum of the entries of `list`.
pub open spec fn total(list: Seq<int>) -> int
    decreases list.len(),
{
    if list.len() == 0 {
        0
    } else {
        total(list.drop_last()) + list.last()
    }
}

/// Changing one entry changes the sum by as much.
pub proof fn lemma_total_update(list: Seq<int>, k: int, v: int)
    requires
        0 <= k < list.len(),
    ensures
        total(list.update(k, v)) == total(list) - list[k] + v,
    decreases list.len(),
{
    let changed = list.update(k, v);
    if k == list.len() - 1 {
        assert(changed.drop_last() =~= list.drop_last());
    } else {
        lemma_total_update(list.drop_last(), k, v);
        assert(changed.drop_last() =~= list.drop_last().update(k, v));
    }
}

/// A sum of entries between 0 and `bound` lies between 0 and `bound` times their number.
pub proof fn lemma_total_bound(list: Seq<int>, bound: int)
    requires
        forall|k: int| 0 <= k < list.len() ==> 0 <= #[trigger] list[k] <= bound,
    ensures
        0 <= total(list) <= list.len() * bound,
    decreases list.len(),
{
    if list.len() > 0 {
        let rest = list.drop_last();
        assert forall|k: int| 0 <= k < rest.len() implies 0 <= #[trigger] rest[k] <= bound by {
            assert(rest[k] == list[k]);
        }
        lemma_total_bound(rest, bound);
        assert(list.len() * bound == rest.len() * bound + bound) by (nonlinear_arith)
            requires
                list.len() == rest.len() + 1,
        ;
    }
}


/// The cursors of a snapshot add up to less than the proposers times the
/// candidates.
pub proof fn lemma_cursor_total(proposers: Seq<Seq<int>>, proposees: Seq<Seq<int>>, s: Snapshot)
    requires
        shaped(proposers, proposees, s),
    ensures
        0 <= total(s.cursor),
        proposers.len() == 0 ==> total(s.cursor) == 0,
        proposers.len() > 0 ==> total(s.cursor) + proposers.len() <= proposers.len()
            * proposers.len(),
{
    let n = proposers.len() as int;
    if n > 0 {
        lemma_total_bound(s.cursor, n - 1);
        assert(n * (n - 1) == n * n - n) by (nonlinear_arith);
    } else {
        lemma_total_bound(s.cursor, 0);
    }
}


/// The number of entries of `flags` that are true.
pub open spec fn count(flags: Seq<bool>) -> int
    decreases flags.len(),
{
    if flags.len() == 0 {
        0
    } else {
        count(flags.drop_last()) + (if flags.last() {
            1int
        } else {
            0int
        })
    }
}

/// Changing one flag changes the count by one, or leaves it.
pub proof fn lemma_count_update(flags: Seq<bool>, k: int, v: bool)
    requires
        0 <= k < flags.len(),
    ensures
        count(flags.update(k, v)) == count(flags) - (if flags[k] {
            1int
        } else {
            0int
        }) + (if v {
            1int
        } else {
            0int
        }),
    decreases flags.len(),
{
    let changed = flags.update(k, v);
    if k == flags.len() - 1 {
        assert(changed.drop_last() =~= flags.drop_last());
    } else {
        lemma_count_update(flags.drop_last(), k, v);
        assert(changed.drop_last() =~= flags.drop_last().update(k, v));
    }
}

/// No more flags are true than there are flags; all are counted where all are true.
pub proof fn lemma_count_bound(flags: Seq<bool>)
    ensures
        0 <= count(flags) <= flags.len(),
        (forall|k: int| 0 <= k < flags.len() ==> flags[k]) ==> count(flags) == flags.len(),
    decreases flags.len(),
{
    if flags.len() > 0 {
        let rest = flags.drop_last();
        lemma_count_bound(rest);
        if forall|k: int| 0 <= k < flags.len() ==> flags[k] {
            assert forall|k: int| 0 <= k < rest.len() implies rest[k] by {
                assert(flags[k]);
            }
        }
    }
}

/// The candidates that the proposers have proposed to so far, counted for
/// all proposers: for each those that its cursor has passed, and the one
/// under its cursor if it has proposed to it.
pub open spec fn courted(s: Snapshot) -> int {
    total(s.cursor) + count(s.has_proposed())
}

/// A turn in which a proposer proposes adds one to the candidates courted; a
/// turn that passes adds none.
pub proof fn lemma_turn_courts(
    proposers: Seq<Seq<int>>,
    proposees: Seq<Seq<int>>,
    s: Snapshot,
    i: int,
)
    requires
        consistent(proposers, proposees, s, i, i),
        0 <= i < proposers.len(),
    ensures
        courted(s.turn(proposers, proposees, i)) == courted(s) + (if s.committed[i] {
            0int
        } else {
            1int
        }),
{
    let t = s.turn(proposers, proposees, i);
    let q = s.target(proposers, i);
    if !s.committed[i] {
        lemma_rank_at_cursor(proposers, proposees, s, i, q);
        assert(!s.is_pending(i));
        if s.held[q] {
            lemma_holder(proposers, proposees, s, q);
        }
        assert forall|p: int| 0 <= p < proposers.len() && p != i implies t.has_proposed()[p]
            == s.has_proposed()[p] by {
            lemma_push_contains(s.pending, i, p);
            lemma_push_contains(s.pending, s.holder(proposees, q), p);
        }
        assert(t.has_proposed()[i]) by {
            lemma_push_contains(s.pending, i, i);
        }
        assert(t.has_proposed() =~= s.has_proposed().update(i, true));
        lemma_count_update(s.has_proposed(), i, true);
    }
}

/// The release of a pending proposer leaves the candidates courted as they
/// are: the one under its cursor is now one that its cursor has passed.
pub proof fn lemma_release_courts(proposers: Seq<Seq<int>>, proposees: Seq<Seq<int>>, s: Snapshot)
    requires
        consistent(proposers, proposees, s, 0, proposers.len() as int),
        s.pending.len() > 0,
    ensures
        courted(s.release()) == courted(s),
{
    let t = s.release();
    let x = s.pending[0];
    assert(0 <= x < proposers.len());
    assert(s.is_pending(x));
    assert forall|p: int| 0 <= p < proposers.len() implies t.has_proposed()[p] == (p != x
        && s.has_proposed()[p]) by {
        lemma_drop_first_contains(s.pending, p);
    }
    assert(t.has_proposed() =~= s.has_proposed().update(x, false));
    lemma_count_update(s.has_proposed(), x, false);
    lemma_total_update(s.cursor, x, s.cursor[x] + 1);
}

/// No more candidates are courted than there are proposers times candidates.
pub proof fn lemma_courted_bound(proposers: Seq<Seq<int>>, proposees: Seq<Seq<int>>, s: Snapshot)
    requires
        shaped(proposers, proposees, s),
    ensures
        0 <= courted(s) <= proposers.len() * proposers.len(),
{
    lemma_cursor_total(proposers, proposees, s);
    lemma_count_bound(s.has_proposed());
    if proposers.len() == 0 {
        assert(proposers.len() * proposers.len() == 0);
    }
}

} // verus!
