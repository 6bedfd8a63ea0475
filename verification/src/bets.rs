//! Bet-size candidates. A size is expressed in basis points (1/100 of a
//! percent): `PotRelative(5000)` is a half-pot bet, `LastBetRelative(30000)`
//! a raise to three times the last bet. The latter is legal only as a raise.

use vstd::prelude::*;

verus! {

#[derive(Clone, Copy, PartialEq, Eq, Structural)]
pub enum BetSize {
    /// Size is `round(pot * ratio)`, the ratio given in basis points.
    PotRelative(u32),
    /// Size is `round(last_bet * ratio)`; valid only when raising.
    LastBetRelative(u32),
}

#[derive(Clone)]
pub struct BetSizeCandidates {
    /// Candidates for an opening bet; `LastBetRelative` is not allowed here.
    pub bet: Vec<BetSize>,
    /// Candidates for a raise.
    pub raise: Vec<BetSize>,
}

impl BetSizeCandidates {
    /// No bet and no raise ever offered.
    pub fn empty() -> (r: BetSizeCandidates)
        ensures
            r.bet@.len() == 0,
            r.raise@.len() == 0,
    {
        BetSizeCandidates { bet: Vec::new(), raise: Vec::new() }
    }

    /// True when no opening-bet candidate is of the `LastBetRelative` kind.
    pub open spec fn spec_open_bets_wf(&self) -> bool {
        forall|i: int|
            0 <= i < self.bet@.len() ==> !(#[trigger] self.bet@[i] matches BetSize::LastBetRelative(
                _,
            ))
    }

    pub fn open_bets_wf(&self) -> (r: bool)
        ensures
            r == self.spec_open_bets_wf(),
    {
        let mut i: usize = 0;
        while i < self.bet.len()
            invariant
                i <= self.bet@.len(),
                forall|j: int|
                    0 <= j < i ==> !(#[trigger] self.bet@[j] matches BetSize::LastBetRelative(_)),
            decreases self.bet@.len() - i,
        {
            match self.bet[i] {
                BetSize::LastBetRelative(_) => {
                    return false;
                },
                BetSize::PotRelative(_) => {},
            }
            i = i + 1;
        }
        true
    }
}

} // verus!
