//! Per-entity bookkeeping used while a matching is being computed.

use vstd::prelude::*;

verus! {

/// Why no pairing was produced.
#[derive(Clone, Copy, Debug, PartialEq, Eq, Structural)]
pub enum MatchError {
    /// The two populations differ in size, or some preference list is not a
    /// full ranking of the opposite population.
    InvalidPreconditions,
    /// An entity has been turned down by every candidate on its list.
    InternalInvariantViolation,
}

/// One entity during a run: whether it is matched, and where its cursor
/// stands in its preference list. A proposer's cursor is on the candidate it
/// proposes to next or is matched with; a proposee's cursor is on the
/// proposer it holds.
pub struct MatchState {
    /// The entity, by its place in its population.
    pub item: usize,
    pub matched: bool,
    pub position: usize,
    /// The entity's ranking of the opposite population, best first.
    pub preference_list: Vec<usize>,
}

impl MatchState {
    /// The cursor is on an entry of the list, or just behind the last one.
    pub open spec fn well_formed(&self) -> bool {
        self.position <= self.preference_list.len()
    }

    /// The cursor has run off the list: every candidate has turned the entity down.
    pub open spec fn exhausted(&self) -> bool {
        self.position >= self.preference_list.len()
    }

    /// An unmatched entity with its cursor on its first choice.
    pub fn new(item: usize, preference_list: Vec<usize>) -> (state: MatchState)
        ensures
            state.item == item,
            !state.matched,
            state.position == 0,
            state.preference_list == preference_list,
            state.well_formed(),
    {
        MatchState { item, matched: false, position: 0, preference_list }
    }

    /// The candidate under the cursor, if the cursor is on the list.
    pub fn candidate(&self) -> (c: Option<usize>)
        ensures
            c == if self.exhausted() {
                None
            } else {
                Some(self.preference_list[self.position as int])
            },
    {
        if self.position < self.preference_list.len() {
            Some(self.preference_list[self.position])
        } else {
            None
        }
    }

    /// Takes a refusal: the entity is unmatched and its cursor moves on to
    /// the next candidate. Fails when no candidate is left; the cursor then
    /// rests behind the list.
    pub fn advance(&mut self) -> (r: Result<(), MatchError>)
        ensures
            final(self).item == old(self).item,
            final(self).preference_list == old(self).preference_list,
            old(self).well_formed() ==> final(self).well_formed(),
            !final(self).matched,
            final(self).position == if old(self).exhausted() {
                old(self).position as int
            } else {
                old(self).position + 1
            },
            r == if final(self).exhausted() {
                Err::<(), MatchError>(MatchError::InternalInvariantViolation)
            } else {
                Ok::<(), MatchError>(())
            },
    {
        self.matched = false;
        if self.position < self.preference_list.len() {
            self.position = self.position + 1;
        }
        if self.position < self.preference_list.len() {
            Ok(())
        } else {
            Err(MatchError::InternalInvariantViolation)
        }
    }
}

} // verus!
