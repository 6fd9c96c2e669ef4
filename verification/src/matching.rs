//! Pairings of two equal-sized populations: when one is stable, and when a
//! stable one is the best that the proposing side can get.
//!
//! Entities are named by their place in their population. A profile is two
//! tables of rankings: `proposers[p]` ranks the proposees as `p` sees them,
//! `proposees[q]` ranks the proposers as `q` sees them. A pairing `m` gives
//! each proposer `p` the proposee `m[p]`.

use vstd::prelude::*;
use crate::ranking::{is_ranking, lemma_rank_of_entry, lemma_ranking_covers, rank};

verus! {

/// Both sides have the same size and every entity ranks the whole other side.
pub open spec fn valid_profile(proposers: Seq<Seq<int>>, proposees: Seq<Seq<int>>) -> bool {
    &&& proposers.len() == proposees.len()
    &&& forall|p: int|
        0 <= p < proposers.len() ==> is_ranking(#[trigger] proposers[p], proposers.len() as int)
    &&& forall|q: int|
        0 <= q < proposees.len() ==> is_ranking(#[trigger] proposees[q], proposees.len() as int)
}

/// `m` pairs each of `n` proposers with a proposee of its own.
pub open spec fn is_pairing(m: Seq<int>, n: int) -> bool {
    is_ranking(m, n)
}

/// The proposer that `m` pairs with proposee `q`.
pub open spec fn partner_of(m: Seq<int>, q: int) -> int {
    rank(m, q)
}

/// The owner of `list` would rather have `a` than `b`.
pub open spec fn prefers(list: Seq<int>, a: int, b: int) -> bool {
    rank(list, a) < rank(list, b)
}

/// Proposer `p` and proposee `q` would both rather have each other than the
/// partners that `m` gives them.
pub open spec fn blocking_pair(
    proposers: Seq<Seq<int>>,
    proposees: Seq<Seq<int>>,
    m: Seq<int>,
    p: int,
    q: int,
) -> bool {
    &&& prefers(proposers[p], q, m[p])
    &&& prefers(proposees[q], p, partner_of(m, q))
}

/// `m` is a pairing that no proposer and proposee would jointly leave.
pub open spec fn stable(proposers: Seq<Seq<int>>, proposees: Seq<Seq<int>>, m: Seq<int>) -> bool {
    &&& is_pairing(m, proposers.len() as int)
    &&& forall|p: int, q: int|
        0 <= p < proposers.len() && 0 <= q < proposers.len() ==> !#[trigger] blocking_pair(
            proposers,
            proposees,
            m,
            p,
            q,
        )
}

/// Every proposer ranks its partner in `m` no lower than its partner in `other`.
pub open spec fn no_worse_for_proposers(
    proposers: Seq<Seq<int>>,
    m: Seq<int>,
    other: Seq<int>,
) -> bool {
    forall|p: int|
        0 <= p < proposers.len() ==> rank(proposers[p], m[p]) <= rank(
            proposers[p],
            #[trigger] other[p],
        )
}

/// No stable pairing gives any proposer a partner that it ranks above the
/// one it has in `m`.
pub open spec fn proposer_optimal(
    proposers: Seq<Seq<int>>,
    proposees: Seq<Seq<int>>,
    m: Seq<int>,
) -> bool {
    forall|other: Seq<int>| #[trigger]
        stable(proposers, proposees, other) ==> no_worse_for_proposers(proposers, m, other)
}

/// The stable pairing of a profile that is best for the proposers.
pub open spec fn best_pairing(proposers: Seq<Seq<int>>, proposees: Seq<Seq<int>>) -> Seq<int> {
    choose|m: Seq<int>|
        stable(proposers, proposees, m) && proposer_optimal(proposers, proposees, m)
}

/// In a pairing every proposee has exactly one proposer, as every proposer
/// has exactly one proposee.
pub proof fn lemma_pairing_is_complete(m: Seq<int>, n: int, q: int)
    requires
        is_pairing(m, n),
        0 <= q < n,
    ensures
        0 <= partner_of(m, q) < n,
        m[partner_of(m, q)] == q,
        forall|p: int| 0 <= p < n && m[p] == q ==> p == partner_of(m, q),
{
    lemma_ranking_covers(m, n, q);
}

/// The proposer paired with a proposer's partner is that proposer.
pub proof fn lemma_partner_of_partner(m: Seq<int>, n: int, p: int)
    requires
        is_pairing(m, n),
        0 <= p < n,
    ensures
        partner_of(m, m[p]) == p,
{
    lemma_rank_of_entry(m, p);
}

/// A profile has at most one stable pairing that is best for the proposers:
/// the preferences alone decide it.
pub proof fn lemma_optimal_pairing_is_unique(
    proposers: Seq<Seq<int>>,
    proposees: Seq<Seq<int>>,
    a: Seq<int>,
    b: Seq<int>,
)
    requires
        valid_profile(proposers, proposees),
        stable(proposers, proposees, a),
        proposer_optimal(proposers, proposees, a),
        stable(proposers, proposees, b),
        proposer_optimal(proposers, proposees, b),
    ensures
        a == b,
{
    let n = proposers.len() as int;
    assert(no_worse_for_proposers(proposers, a, b));
    assert(no_worse_for_proposers(proposers, b, a));
    assert forall|p: int| 0 <= p < n implies a[p] == b[p] by {
        let list = proposers[p];
        assert(rank(list, a[p]) <= rank(list, b[p]));
        assert(rank(list, b[p]) <= rank(list, a[p]));
        lemma_ranking_covers(list, n, a[p]);
        lemma_ranking_covers(list, n, b[p]);
    }
    assert(a =~= b);
}

/// A stable pairing that is best for the proposers is the one that
/// `best_pairing` names.
pub proof fn lemma_best_pairing(proposers: Seq<Seq<int>>, proposees: Seq<Seq<int>>, m: Seq<int>)
    requires
        valid_profile(proposers, proposees),
        stable(proposers, proposees, m),
        proposer_optimal(proposers, proposees, m),
    ensures
        best_pairing(proposers, proposees) == m,
{
    lemma_optimal_pairing_is_unique(
        proposers,
        proposees,
        best_pairing(proposers, proposees),
        m,
    );
}

} // verus!
