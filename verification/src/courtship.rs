//! The course of deferred acceptance as a sequence of snapshots.
//!
//! A round scans the proposers in order. An uncommitted proposer proposes to
//! the candidate under its cursor. The candidate accepts it when it holds
//! nobody, trades its holder for it when it ranks the newcomer higher, and
//! turns it down otherwise. Whoever is turned down or traded away is pending
//! until the scan ends; then each pending proposer is released: its cursor
//! moves on by one and it proposes again in the next round. The run ends
//! with the first round in which nobody is turned down.

use vstd::prelude::*;
use crate::ranking::rank;

verus! {

/// The cursors and flags of both sides at one moment.
pub struct Snapshot {
    /// For each proposer, the place in its list of the candidate it courts.
    pub cursor: Seq<int>,
    /// For each proposer, whether it is marked as matched.
    pub committed: Seq<bool>,
    /// For each proposee, whether it holds a proposer.
    pub held: Seq<bool>,
    /// For each proposee, the place in its list of the proposer it holds.
    pub held_rank: Seq<int>,
    /// The proposers turned down or traded away since the round began.
    pub pending: Seq<int>,
}

impl Snapshot {
    /// The candidate under the cursor of proposer `p`.
    pub open spec fn target(self, proposers: Seq<Seq<int>>, p: int) -> int {
        proposers[p][self.cursor[p]]
    }

    /// The proposer that proposee `q` holds.
    pub open spec fn holder(self, proposees: Seq<Seq<int>>, q: int) -> int {
        proposees[q][self.held_rank[q]]
    }

    /// `p` has been turned down or traded away since the round began.
    pub open spec fn is_pending(self, p: int) -> bool {
        self.pending.contains(p)
    }

    /// `p` is held by the candidate under its cursor.
    pub open spec fn is_engaged(self, p: int) -> bool {
        self.committed[p] && !self.is_pending(p)
    }

    /// `p` has yet to propose in this round.
    pub open spec fn is_free(self, p: int) -> bool {
        !self.committed[p] && !self.is_pending(p)
    }

    /// `q` has turned `p` down or traded it away.
    pub open spec fn spurned(self, proposers: Seq<Seq<int>>, p: int, q: int) -> bool {
        let k = rank(proposers[p], q);
        k < self.cursor[p] || (k == self.cursor[p] && self.is_pending(p))
    }

    /// Nobody has proposed yet.
    pub open spec fn initial(n: int) -> Snapshot {
        Snapshot {
            cursor: Seq::new(n as nat, |p: int| 0int),
            committed: Seq::new(n as nat, |p: int| false),
            held: Seq::new(n as nat, |q: int| false),
            held_rank: Seq::new(n as nat, |q: int| 0int),
            pending: Seq::empty(),
        }
    }

    /// Free proposee `q` accepts proposer `p`.
    pub open spec fn accept(self, proposees: Seq<Seq<int>>, p: int, q: int) -> Snapshot {
        Snapshot {
            committed: self.committed.update(p, true),
            held: self.held.update(q, true),
            held_rank: self.held_rank.update(q, rank(proposees[q], p)),
            ..self
        }
    }

    /// Proposee `q` trades its holder for proposer `p`.
    pub open spec fn displace(self, proposees: Seq<Seq<int>>, p: int, q: int) -> Snapshot {
        Snapshot {
            committed: self.committed.update(p, true),
            held_rank: self.held_rank.update(q, rank(proposees[q], p)),
            pending: self.pending.push(self.holder(proposees, q)),
            ..self
        }
    }

    /// Proposer `p` is turned down.
    pub open spec fn reject(self, p: int) -> Snapshot {
        Snapshot { pending: self.pending.push(p), ..self }
    }

    /// The first pending proposer moves on to its next candidate.
    pub open spec fn release(self) -> Snapshot {
        let x = self.pending[0];
        Snapshot {
            cursor: self.cursor.update(x, self.cursor[x] + 1),
            committed: self.committed.update(x, false),
            pending: self.pending.drop_first(),
            ..self
        }
    }

    /// The pairing that the cursors point out.
    pub open spec fn pairing(self, proposers: Seq<Seq<int>>) -> Seq<int> {
        Seq::new(proposers.len(), |p: int| self.target(proposers, p))
    }

    /// The turn of proposer `i` in a scan: it lets the turn pass if it is
    /// committed, and proposes to the candidate under its cursor if not.
    pub open spec fn turn(
        self,
        proposers: Seq<Seq<int>>,
        proposees: Seq<Seq<int>>,
        i: int,
    ) -> Snapshot {
        let q = self.target(proposers, i);
        if self.committed[i] {
            self
        } else if !self.held[q] {
            self.accept(proposees, i, q)
        } else if rank(proposees[q], i) < self.held_rank[q] {
            self.displace(proposees, i, q)
        } else {
            self.reject(i)
        }
    }

    /// The turns of the proposers from `from` on, in their order.
    pub open spec fn scan(
        self,
        proposers: Seq<Seq<int>>,
        proposees: Seq<Seq<int>>,
        from: int,
    ) -> Snapshot
        decreases proposers.len() - from,
    {
        if from >= proposers.len() {
            self
        } else {
            self.turn(proposers, proposees, from).scan(proposers, proposees, from + 1)
        }
    }

    /// For each proposer, whether it has proposed to the candidate under
    /// its cursor.
    pub open spec fn has_proposed(self) -> Seq<bool> {
        Seq::new(self.cursor.len(), |p: int| self.committed[p] || self.is_pending(p))
    }

    /// The number of proposals in the turns of the proposers from `from` on:
    /// one for each proposer that is not committed when its turn comes.
    pub open spec fn scan_proposals(
        self,
        proposers: Seq<Seq<int>>,
        proposees: Seq<Seq<int>>,
        from: int,
    ) -> int
        decreases proposers.len() - from,
    {
        if from >= proposers.len() {
            0
        } else {
            (if self.committed[from] {
                0int
            } else {
                1int
            }) + self.turn(proposers, proposees, from).scan_proposals(
                proposers,
                proposees,
                from + 1,
            )
        }
    }

    /// The release of all pending proposers, in the order in which they were
    /// turned down.
    pub open spec fn release_all(self) -> Snapshot
        decreases self.pending.len(),
    {
        if self.pending.len() == 0 {
            self
        } else {
            self.release().release_all()
        }
    }
}

/// The snapshot at the end of the scan of round `k`. Round 0 stands for the
/// time before the first proposal.
pub open spec fn round_scanned(
    proposers: Seq<Seq<int>>,
    proposees: Seq<Seq<int>>,
    k: nat,
) -> Snapshot
    decreases k,
{
    if k == 0 {
        Snapshot::initial(proposers.len() as int)
    } else {
        round_scanned(proposers, proposees, (k - 1) as nat).release_all().scan(
            proposers,
            proposees,
            0,
        )
    }
}

/// The snapshot between the scan of round `k` and that of the next round.
pub open spec fn round_closed(
    proposers: Seq<Seq<int>>,
    proposees: Seq<Seq<int>>,
    k: nat,
) -> Snapshot {
    round_scanned(proposers, proposees, k).release_all()
}

/// The number of proposals in the rounds up to round `k`.
pub open spec fn proposals_through(
    proposers: Seq<Seq<int>>,
    proposees: Seq<Seq<int>>,
    k: nat,
) -> int
    decreases k,
{
    if k == 0 {
        0
    } else {
        proposals_through(proposers, proposees, (k - 1) as nat) + round_closed(
            proposers,
            proposees,
            (k - 1) as nat,
        ).scan_proposals(proposers, proposees, 0)
    }
}

/// The run ends with round `r`: that is the first round in which nobody is
/// turned down. Where there is nobody to propose, no round is held.
pub open spec fn takes_rounds(proposers: Seq<Seq<int>>, proposees: Seq<Seq<int>>, r: nat) -> bool {
    if proposers.len() == 0 {
        r == 0
    } else {
        &&& r >= 1
        &&& round_scanned(proposers, proposees, r).pending.len() == 0
        &&& forall|k: nat|
            1 <= k < r ==> (#[trigger] round_scanned(proposers, proposees, k)).pending.len() > 0
    }
}

/// The run ends in pairing `m`, after no more rounds than proposals and no
/// more proposals than there are proposers times candidates.
pub open spec fn run_reaches(
    proposers: Seq<Seq<int>>,
    proposees: Seq<Seq<int>>,
    m: Seq<int>,
) -> bool {
    exists|r: nat|
        {
            &&& #[trigger] takes_rounds(proposers, proposees, r)
            &&& outcome(proposers, proposees, r) == m
            &&& r <= proposals_through(proposers, proposees, r) <= proposers.len()
                * proposees.len()
        }
}

/// The pairing that the run ends with, if it ends with round `r`.
pub open spec fn outcome(proposers: Seq<Seq<int>>, proposees: Seq<Seq<int>>, r: nat) -> Seq<int> {
    round_scanned(proposers, proposees, r).pairing(proposers)
}

} // verus!
