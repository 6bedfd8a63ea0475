//! Game configuration: the flop, stakes, both players' ranges, the
//! bet-size candidates per street, and the raise cap.

use crate::bets::BetSizeCandidates;
use crate::cards::NOT_DEALT;
use crate::range::HandRange;
use vstd::prelude::*;

verus! {

pub struct GameConfig {
    pub flop: [u8; 3],
    pub initial_pot: i32,
    pub initial_stack: i32,
    pub range: [HandRange; 2],
    pub flop_bet_sizes: [BetSizeCandidates; 2],
    pub turn_bet_sizes: [BetSizeCandidates; 2],
    pub river_bet_sizes: [BetSizeCandidates; 2],
    pub max_num_bet: i32,
}

impl GameConfig {
    /// What configuration validation establishes: three distinct flop cards,
    /// positive stakes, well-formed ranges, no raise-only size offered where
    /// only an opening bet is legal.
    pub open spec fn wf(&self) -> bool {
        &&& self.flop[0] < 52
        &&& self.flop[1] < 52
        &&& self.flop[2] < 52
        &&& self.flop[0] != self.flop[1]
        &&& self.flop[0] != self.flop[2]
        &&& self.flop[1] != self.flop[2]
        &&& 1 <= self.initial_pot
        &&& 1 <= self.initial_stack
        &&& 0 <= self.max_num_bet
        &&& self.range[0].wf()
        &&& self.range[1].wf()
        &&& self.flop_bet_sizes[0].spec_open_bets_wf()
        &&& self.flop_bet_sizes[1].spec_open_bets_wf()
        &&& self.turn_bet_sizes[0].spec_open_bets_wf()
        &&& self.turn_bet_sizes[1].spec_open_bets_wf()
        &&& self.river_bet_sizes[0].spec_open_bets_wf()
        &&& self.river_bet_sizes[1].spec_open_bets_wf()
    }

    /// A blank configuration: no flop, no stakes, empty ranges, no bets.
    pub fn new_blank() -> (r: GameConfig)
        ensures
            r.flop[0] == NOT_DEALT && r.flop[1] == NOT_DEALT && r.flop[2] == NOT_DEALT,
            r.initial_pot == 0,
            r.initial_stack == 0,
            r.max_num_bet == 0,
            r.range[0].spec_is_empty() && r.range[1].spec_is_empty(),
            r.range[0].wf() && r.range[1].wf(),
            r.flop_bet_sizes[0].spec_open_bets_wf() && r.flop_bet_sizes[1].spec_open_bets_wf(),
            r.turn_bet_sizes[0].spec_open_bets_wf() && r.turn_bet_sizes[1].spec_open_bets_wf(),
            r.river_bet_sizes[0].spec_open_bets_wf() && r.river_bet_sizes[1].spec_open_bets_wf(),
    {
        GameConfig {
            flop: [NOT_DEALT, NOT_DEALT, NOT_DEALT],
            initial_pot: 0,
            initial_stack: 0,
            range: [HandRange::new(), HandRange::new()],
            flop_bet_sizes: [BetSizeCandidates::empty(), BetSizeCandidates::empty()],
            turn_bet_sizes: [BetSizeCandidates::empty(), BetSizeCandidates::empty()],
            river_bet_sizes: [BetSizeCandidates::empty(), BetSizeCandidates::empty()],
            max_num_bet: 0,
        }
    }
}

} // verus!
