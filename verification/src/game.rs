//! The post-flop game: configuration validation, range materialization,
//! hand-strength precomputation, tree construction under a memory cap, and
//! the terminal-node counterfactual-value evaluator.

use crate::builder::{
    build_node, find_hand, hand_key, hands_wf, sat64, spec_array_mem, spec_struct_mem,
};
use crate::cards::{board_index, spec_board_index, NOT_DEALT};
use crate::config::GameConfig;
use crate::hand_rank::rank7;
use crate::range::HandRange;
use crate::strength::{build_strength_one, strength_built, HandStrength};
use crate::tree::{Action, PostFlopNode};
use vstd::prelude::*;

verus! {

/// A post-flop game: the validated configuration, the built tree, and the
/// tables the evaluator reads.
pub struct PostFlopGame {
    pub config: GameConfig,
    pub root: PostFlopNode,
    /// Total weight of non-conflicting card assignments, the normalization
    /// denominator of every payoff.
    pub num_combinations: u64,
    pub initial_reach: [Vec<u32>; 2],
    pub private_hand_cards: [Vec<(u8, u8)>; 2],
    pub same_hand_index: [Vec<Option<usize>>; 2],
    pub hand_strength: Vec<(HandStrength, HandStrength)>,
}

/// True when the hole pair `h` shares a card with the dealt board.
pub open spec fn spec_hand_blocked(h: (u8, u8), flop: [u8; 3], turn: u8, river: u8) -> bool {
    ||| h.0 == flop[0]
    ||| h.0 == flop[1]
    ||| h.0 == flop[2]
    ||| h.1 == flop[0]
    ||| h.1 == flop[1]
    ||| h.1 == flop[2]
    ||| (turn != NOT_DEALT && (h.0 == turn || h.1 == turn))
    ||| (river != NOT_DEALT && (h.0 == river || h.1 == river))
}

fn hand_blocked(h: (u8, u8), flop: &[u8; 3], turn: u8, river: u8) -> (r: bool)
    ensures
        r == spec_hand_blocked(h, *flop, turn, river),
{
    h.0 == flop[0] || h.0 == flop[1] || h.0 == flop[2] || h.1 == flop[0] || h.1 == flop[1] || h.1
        == flop[2] || (turn != NOT_DEALT && (h.0 == turn || h.1 == turn)) || (river != NOT_DEALT
        && (h.0 == river || h.1 == river))
}

/// One player's hand list and reach vector are exactly the range's
/// content: every entry is a positive-weight pair with its weight, and
/// every positive-weight pair appears.
pub open spec fn range_materialized(
    range: &HandRange,
    hands: Seq<(u8, u8)>,
    reach: Seq<u32>,
) -> bool {
    &&& reach.len() == hands.len()
    &&& forall|i: int|
        0 <= i < hands.len() ==> (#[trigger] reach[i]) == range.spec_weight(
            hands[i].0 as int,
            hands[i].1 as int,
        ) && reach[i] > 0
    &&& forall|c1: u8, c2: u8|
        c1 < c2 < 52 && range.spec_weight(c1 as int, c2 as int) > 0 ==> exists|i: int|
            0 <= i < hands.len() && (#[trigger] hands[i]) == (c1, c2)
}

/// One player's same-hand links are consistent: an entry points at the
/// opponent's identical hole pair when it exists and is absent otherwise.
pub open spec fn same_index_wf(
    own: Seq<(u8, u8)>,
    opp: Seq<(u8, u8)>,
    same: Seq<Option<usize>>,
) -> bool {
    &&& same.len() == own.len()
    &&& forall|i: int|
        0 <= i < own.len() ==> match #[trigger] same[i] {
            Option::Some(j) => j < opp.len() && opp[j as int] == own[i],
            Option::None => forall|j: int| 0 <= j < opp.len() ==> opp[j] != own[i],
        }
}

impl PostFlopGame {
    /// Everything `update_config` establishes on success.
    pub open spec fn wf(&self) -> bool {
        &&& self.config.wf()
        &&& hands_wf(self.private_hand_cards[0]@)
        &&& hands_wf(self.private_hand_cards[1]@)
        &&& self.private_hand_cards[0]@.len() <= 4096
        &&& self.private_hand_cards[1]@.len() <= 4096
        &&& self.initial_reach[0]@.len() == self.private_hand_cards[0]@.len()
        &&& self.initial_reach[1]@.len() == self.private_hand_cards[1]@.len()
        &&& range_materialized(
            &self.config.range[0],
            self.private_hand_cards[0]@,
            self.initial_reach[0]@,
        )
        &&& range_materialized(
            &self.config.range[1],
            self.private_hand_cards[1]@,
            self.initial_reach[1]@,
        )
        &&& same_index_wf(
            self.private_hand_cards[0]@,
            self.private_hand_cards[1]@,
            self.same_hand_index[0]@,
        )
        &&& same_index_wf(
            self.private_hand_cards[1]@,
            self.private_hand_cards[0]@,
            self.same_hand_index[1]@,
        )
        &&& self.hand_strength@.len() == 1326
        &&& forall|t: u8, r: u8|
            t < r < 52 && !spec_hand_blocked((t, r), self.config.flop, NOT_DEALT, NOT_DEALT)
                ==> (#[trigger] self.hand_strength@[spec_board_index(t, r)]).0.wf(
                self.private_hand_cards[0]@.len() as int,
                self.private_hand_cards[1]@.len() as int,
            ) && self.hand_strength@[spec_board_index(t, r)].1.wf(
                self.private_hand_cards[1]@.len() as int,
                self.private_hand_cards[0]@.len() as int,
            )
        &&& forall|t: u8, r: u8|
            t < r < 52 && !spec_hand_blocked((t, r), self.config.flop, NOT_DEALT, NOT_DEALT)
                ==> board_entry_built(
                self.config.flop,
                t,
                r,
                self.private_hand_cards[0]@,
                self.private_hand_cards[1]@,
                #[trigger] self.hand_strength@[spec_board_index(t, r)],
            )
        &&& self.root.wf(self.config.flop, self.config.initial_stack as int)
    }

    pub fn root(&self) -> (r: &PostFlopNode)
        ensures
            r == &self.root,
    {
        &self.root
    }

    pub fn num_private_hands(&self, player: usize) -> (r: usize)
        requires
            player < 2,
        ensures
            r == self.private_hand_cards[player as int]@.len(),
    {
        self.private_hand_cards[player].len()
    }

    pub fn initial_reach(&self, player: usize) -> (r: &Vec<u32>)
        requires
            player < 2,
        ensures
            r == &self.initial_reach[player as int],
    {
        &self.initial_reach[player]
    }

    pub fn private_hands(&self, player: usize) -> (r: &Vec<(u8, u8)>)
        requires
            player < 2,
        ensures
            r == &self.private_hand_cards[player as int],
    {
        &self.private_hand_cards[player]
    }

    pub fn num_combinations(&self) -> (r: u64)
        ensures
            r == self.num_combinations,
    {
        self.num_combinations
    }
}

/// Total weight of the opponent pairs that avoid the flop and the pair
/// (c1, c2), counted over the first `k` cells of the dense table.
pub open spec fn spec_excl_weight(
    r1: &HandRange,
    flop: [u8; 3],
    c1: int,
    c2: int,
    k: int,
) -> int
    decreases k,
{
    if k <= 0 {
        0
    } else {
        spec_excl_weight(r1, flop, c1, c2, k - 1) + {
            let c3 = (k - 1) / 52;
            let c4 = (k - 1) % 52;
            if c3 < c4 && c4 < 52 && !spec_hand_blocked(
                (c3 as u8, c4 as u8),
                flop,
                NOT_DEALT,
                NOT_DEALT,
            ) && c3 != c1 && c3 != c2 && c4 != c1 && c4 != c2 {
                r1.spec_weight(c3, c4) as int
            } else {
                0
            }
        }
    }
}

/// Total weight of non-conflicting assignments: for every flop-free pair of
/// the first player, its weight times the total opponent weight that avoids
/// the flop and that pair.
pub open spec fn spec_combo_sum(r0: &HandRange, r1: &HandRange, flop: [u8; 3], k: int) -> int
    decreases k,
{
    if k <= 0 {
        0
    } else {
        spec_combo_sum(r0, r1, flop, k - 1) + {
            let c1 = (k - 1) / 52;
            let c2 = (k - 1) % 52;
            if c1 < c2 && c2 < 52 && !spec_hand_blocked(
                (c1 as u8, c2 as u8),
                flop,
                NOT_DEALT,
                NOT_DEALT,
            ) {
                r0.spec_weight(c1, c2) * spec_excl_weight(r1, flop, c1, c2, 2704)
            } else {
                0
            }
        }
    }
}

/// Computes the total weight of opponent pairs avoiding the flop and (c1, c2).
#[verifier::loop_isolation(false)]
fn excl_weight(r1: &HandRange, flop: &[u8; 3], c1: u8, c2: u8) -> (r: u64)
    requires
        r1.wf(),
        c1 < c2 < 52,
    ensures
        r == spec_excl_weight(r1, *flop, c1 as int, c2 as int, 2704),
        r <= 2704 * 1000000,
{
    let mut total: u64 = 0;
    let mut k: usize = 0;
    while k < 2704
        invariant
            k <= 2704,
            total == spec_excl_weight(r1, *flop, c1 as int, c2 as int, k as int),
            total <= k * 1000000,
        decreases 2704 - k,
    {
        let c3 = (k / 52) as u8;
        let c4 = (k % 52) as u8;
        if c3 < c4 && !hand_blocked((c3, c4), flop, NOT_DEALT, NOT_DEALT) && c3 != c1 && c3 != c2
            && c4 != c1 && c4 != c2 {
            total = total + r1.get_weight(c3, c4) as u64;
        }
        k = k + 1;
    }
    total
}

/// Computes the normalization weight of the configuration.
#[verifier::loop_isolation(false)]
fn combo_sum(r0: &HandRange, r1: &HandRange, flop: &[u8; 3]) -> (r: u64)
    requires
        r0.wf(),
        r1.wf(),
    ensures
        r == spec_combo_sum(r0, r1, *flop, 2704),
{
    let mut total: u64 = 0;
    let mut k: usize = 0;
    while k < 2704
        invariant
            k <= 2704,
            total == spec_combo_sum(r0, r1, *flop, k as int),
            total <= k * 2704000000000000,
        decreases 2704 - k,
    {
        let c1 = (k / 52) as u8;
        let c2 = (k % 52) as u8;
        if c1 < c2 && !hand_blocked((c1, c2), flop, NOT_DEALT, NOT_DEALT) {
            let w0 = r0.get_weight(c1, c2) as u64;
            if w0 > 0 {
                let inner = excl_weight(r1, flop, c1, c2);
                proof {
                    assert(w0 * inner <= 1000000 * (2704 * 1000000)) by (nonlinear_arith)
                        requires
                            0 <= w0 <= 1000000,
                            0 <= inner <= 2704 * 1000000,
                    ;
                }
                total = total + w0 * inner;
            } else {
                proof {
                    assert(w0 * spec_excl_weight(r1, *flop, c1 as int, c2 as int, 2704) == 0)
                        by (nonlinear_arith)
                        requires
                            w0 == 0,
                    ;
                }
            }
        }
        k = k + 1;
    }
    total
}

impl PostFlopGame {
    /// Materializes one player's hand list and reach vector: every pair
    /// with a positive weight, in lexicographic order, with its weight.
    #[verifier::loop_isolation(false)]
    fn materialize_range(range: &HandRange) -> (r: (Vec<(u8, u8)>, Vec<u32>))
        requires
            range.wf(),
        ensures
            hands_wf(r.0@),
            r.0@.len() <= 4096,
            range_materialized(range, r.0@, r.1@),
            r.1@.len() == r.0@.len(),
            forall|i: int|
                0 <= i < r.0@.len() ==> (#[trigger] r.1@[i]) == range.spec_weight(
                    r.0@[i].0 as int,
                    r.0@[i].1 as int,
                ) && r.1@[i] > 0,
            forall|c1: u8, c2: u8|
                c1 < c2 < 52 && range.spec_weight(c1 as int, c2 as int) > 0 ==> exists|i: int|
                    0 <= i < r.0@.len() && (#[trigger] r.0@[i]) == (c1, c2),
    {
        let mut hands: Vec<(u8, u8)> = Vec::new();
        let mut reach: Vec<u32> = Vec::new();
        let mut c1: u8 = 0;
        while c1 < 52
            invariant
                c1 <= 52,
                hands_wf(hands@),
                reach@.len() == hands@.len(),
                forall|i: int|
                    0 <= i < hands@.len() ==> hand_key(#[trigger] hands@[i]) < c1 * 64,
                forall|i: int|
                    0 <= i < hands@.len() ==> (#[trigger] reach@[i]) == range.spec_weight(
                        hands@[i].0 as int,
                        hands@[i].1 as int,
                    ) && reach@[i] > 0,
                forall|a: u8, b: u8|
                    a < b < 52 && a < c1 && range.spec_weight(a as int, b as int) > 0
                        ==> exists|i: int| 0 <= i < hands@.len() && (#[trigger] hands@[i]) == (
                    a, b),
            decreases 52 - c1,
        {
            let mut c2: u8 = c1 + 1;
            while c2 < 52
                invariant
                    c1 < c2 <= 52,
                    hands_wf(hands@),
                    reach@.len() == hands@.len(),
                    forall|i: int|
                        0 <= i < hands@.len() ==> hand_key(#[trigger] hands@[i]) < c1 * 64 + c2,
                    forall|i: int|
                        0 <= i < hands@.len() ==> (#[trigger] reach@[i]) == range.spec_weight(
                            hands@[i].0 as int,
                            hands@[i].1 as int,
                        ) && reach@[i] > 0,
                    forall|a: u8, b: u8|
                        a < b < 52 && (a < c1 || (a == c1 && b < c2)) && range.spec_weight(
                            a as int,
                            b as int,
                        ) > 0 ==> exists|i: int|
                            0 <= i < hands@.len() && (#[trigger] hands@[i]) == (a, b),
                decreases 52 - c2,
            {
                let w = range.get_weight(c1, c2);
                let ghost old_hands = hands@;
                if w > 0 {
                    hands.push((c1, c2));
                    reach.push(w);
                    proof {
                        assert(hands@[hands@.len() - 1] == (c1, c2));
                        assert(forall|i: int|
                            0 <= i < old_hands.len() ==> hands@[i] == old_hands[i]);
                    }
                }
                proof {
                    assert forall|a: u8, b: u8|
                        a < b < 52 && (a < c1 || (a == c1 && b < c2 + 1)) && range.spec_weight(
                            a as int,
                            b as int,
                        ) > 0 implies exists|i: int|
                        0 <= i < hands@.len() && (#[trigger] hands@[i]) == (a, b) by {
                        if a == c1 && b == c2 {
                            assert(hands@[hands@.len() - 1] == (a, b));
                        } else {
                            let i = choose|i: int|
                                0 <= i < old_hands.len() && old_hands[i] == (a, b);
                            assert(hands@[i] == (a, b));
                        }
                    }
                }
                c2 = c2 + 1;
            }
            c1 = c1 + 1;
        }
        proof {
            lemma_sorted_len_bound(hands@);
        }
        (hands, reach)
    }

    /// Links each of one player's hands to the identical hand in the
    /// opponent's list, where present.
    #[verifier::loop_isolation(false)]
    fn link_same_hands(own: &Vec<(u8, u8)>, opp: &Vec<(u8, u8)>) -> (r: Vec<Option<usize>>)
        requires
            hands_wf(own@),
            hands_wf(opp@),
        ensures
            same_index_wf(own@, opp@, r@),
    {
        let mut out: Vec<Option<usize>> = Vec::new();
        let mut i: usize = 0;
        while i < own.len()
            invariant
                i <= own@.len(),
                out@.len() == i,
                forall|t: int|
                    0 <= t < i ==> match #[trigger] out@[t] {
                        Option::Some(j) => j < opp@.len() && opp@[j as int] == own@[t],
                        Option::None => forall|j: int| 0 <= j < opp@.len() ==> opp@[j] != own@[t],
                    },
            decreases own@.len() - i,
        {
            let (c1, c2) = own[i];
            out.push(find_hand(opp, c1, c2));
            i = i + 1;
        }
        out
    }
}

/// A strictly key-sorted hand list cannot be longer than the key range.
proof fn lemma_sorted_len_bound(s: Seq<(u8, u8)>)
    requires
        hands_wf(s),
    ensures
        s.len() <= 4096,
{
    if s.len() > 4096 {
        lemma_sorted_key_growth(s, 4095);
        assert(hand_key(s[4095]) >= 4095);
        assert(hand_key(s[4095]) < 52 * 64 + 52);
        lemma_sorted_key_growth(s, s.len() as int - 1);
    }
}

proof fn lemma_sorted_key_growth(s: Seq<(u8, u8)>, i: int)
    requires
        hands_wf(s),
        0 <= i < s.len(),
    ensures
        hand_key(s[i]) >= i,
    decreases i,
{
    if i > 0 {
        lemma_sorted_key_growth(s, i - 1);
    }
}

/// What configuration validation accepts: a real, duplicate-free flop,
/// positive stakes, two non-empty ranges, opening-bet lists free of
/// raise-only sizes, and at least one non-conflicting card assignment of
/// positive weight.
pub open spec fn spec_config_ok(cfg: &GameConfig) -> bool {
    &&& cfg.flop[0] < 52
    &&& cfg.flop[1] < 52
    &&& cfg.flop[2] < 52
    &&& cfg.flop[0] != cfg.flop[1]
    &&& cfg.flop[0] != cfg.flop[2]
    &&& cfg.flop[1] != cfg.flop[2]
    &&& cfg.initial_pot >= 1
    &&& cfg.initial_stack >= 1
    &&& cfg.max_num_bet >= 0
    &&& !cfg.range[0].spec_is_empty()
    &&& !cfg.range[1].spec_is_empty()
    &&& cfg.flop_bet_sizes[0].spec_open_bets_wf()
    &&& cfg.flop_bet_sizes[1].spec_open_bets_wf()
    &&& cfg.turn_bet_sizes[0].spec_open_bets_wf()
    &&& cfg.turn_bet_sizes[1].spec_open_bets_wf()
    &&& cfg.river_bet_sizes[0].spec_open_bets_wf()
    &&& cfg.river_bet_sizes[1].spec_open_bets_wf()
    &&& spec_combo_sum(&cfg.range[0], &cfg.range[1], cfg.flop, 2704) > 0
}

/// Validates a configuration; on success returns the normalization weight.
fn check_config(cfg: &GameConfig) -> (r: Result<u64, String>)
    requires
        cfg.range[0].wf(),
        cfg.range[1].wf(),
    ensures
        r is Ok <==> spec_config_ok(cfg),
        r matches Ok(n) ==> n == spec_combo_sum(&cfg.range[0], &cfg.range[1], cfg.flop, 2704)
            && n > 0,
{
    let flop = &cfg.flop;
    if flop[0] == NOT_DEALT || flop[1] == NOT_DEALT || flop[2] == NOT_DEALT {
        return Err("Flop cards not initialized".to_owned());
    }
    if flop[0] >= 52 || flop[1] >= 52 || flop[2] >= 52 {
        return Err("Flop cards must be in [0, 52)".to_owned());
    }
    if flop[0] == flop[1] || flop[0] == flop[2] || flop[1] == flop[2] {
        return Err("Flop cards must be unique".to_owned());
    }
    if cfg.initial_pot <= 0 {
        return Err("Initial pot must be positive".to_owned());
    }
    if cfg.initial_stack <= 0 {
        return Err("Initial stack must be positive".to_owned());
    }
    if cfg.max_num_bet < 0 {
        return Err("Maximum number of bets must not be negative".to_owned());
    }
    if cfg.range[0].is_empty() {
        return Err("OOP range is not initialized".to_owned());
    }
    if cfg.range[1].is_empty() {
        return Err("IP range is not initialized".to_owned());
    }
    if !cfg.flop_bet_sizes[0].open_bets_wf() || !cfg.flop_bet_sizes[1].open_bets_wf()
        || !cfg.turn_bet_sizes[0].open_bets_wf() || !cfg.turn_bet_sizes[1].open_bets_wf()
        || !cfg.river_bet_sizes[0].open_bets_wf() || !cfg.river_bet_sizes[1].open_bets_wf() {
        return Err("A bet size relative to the last bet is legal only as a raise".to_owned());
    }
    let num = combo_sum(&cfg.range[0], &cfg.range[1], flop);
    if num == 0 {
        return Err("Valid card assignment does not exist".to_owned());
    }
    Ok(num)
}

/// What `score_vec` guarantees of a score vector for one board: one score
/// per hand, below the key-packing bound, zero exactly on the hands that
/// share a card with the board.
pub open spec fn score_vec_ok(
    flop: [u8; 3],
    b1: u8,
    b2: u8,
    hands: Seq<(u8, u8)>,
    s: Seq<u32>,
) -> bool {
    &&& s.len() == hands.len()
    &&& forall|i: int| 0 <= i < s.len() ==> (#[trigger] s[i]) < 0xffffffff
    &&& forall|i: int|
        0 <= i < s.len() ==> ((#[trigger] s[i]) > 0 <==> !spec_hand_blocked(
            hands[i],
            flop,
            b1,
            b2,
        ))
}

/// Seven-card scores of one player's hands on the full board made of the
/// flop and the two given extra cards; a hand sharing a card with that
/// board scores zero.
#[verifier::loop_isolation(false)]
fn score_vec(flop: &[u8; 3], b1: u8, b2: u8, hands: &Vec<(u8, u8)>) -> (r: Vec<u32>)
    requires
        hands_wf(hands@),
        flop[0] < 52,
        flop[1] < 52,
        flop[2] < 52,
        b1 < 52,
        b2 < 52,
    ensures
        score_vec_ok(*flop, b1, b2, hands@, r@),
        r@.len() == hands@.len(),
        forall|i: int| 0 <= i < r@.len() ==> (#[trigger] r@[i]) < 0xffffffff,
        forall|i: int|
            0 <= i < r@.len() ==> ((#[trigger] r@[i]) > 0 <==> !spec_hand_blocked(
                hands@[i],
                *flop,
                b1,
                b2,
            )),
{
    let mut out: Vec<u32> = Vec::new();
    let mut i: usize = 0;
    while i < hands.len()
        invariant
            i <= hands@.len(),
            out@.len() == i,
            forall|t: int| 0 <= t < i ==> (#[trigger] out@[t]) < 0xffffffff,
            forall|t: int|
                0 <= t < i ==> ((#[trigger] out@[t]) > 0 <==> !spec_hand_blocked(
                    hands@[t],
                    *flop,
                    b1,
                    b2,
                )),
        decreases hands@.len() - i,
    {
        let (c1, c2) = hands[i];
        if hand_blocked((c1, c2), flop, b1, b2) {
            out.push(0);
        } else {
            let cards: [u8; 7] = [flop[0], flop[1], flop[2], b1, b2, c1, c2];
            let score = rank7(&cards);
            out.push(score);
        }
        i = i + 1;
    }
    out
}

/// One table slot holds the pair of strength tables computed from some
/// score vectors of this exact board: both players' entries derive from
/// one common pair of vectors that score this board's conflicts as zero.
pub open spec fn board_entry_built(
    flop: [u8; 3],
    t: u8,
    rv: u8,
    hands0: Seq<(u8, u8)>,
    hands1: Seq<(u8, u8)>,
    entry: (HandStrength, HandStrength),
) -> bool {
    exists|s0: Seq<u32>, s1: Seq<u32>|
        {
            &&& #[trigger] score_vec_ok(flop, t, rv, hands0, s0)
            &&& #[trigger] score_vec_ok(flop, t, rv, hands1, s1)
            &&& strength_built(entry.0, s0, s1)
            &&& strength_built(entry.1, s1, s0)
        }
}

/// Builds the full (turn, river) strength table: one entry per unordered
/// pair of cards off the flop, the remaining slots left empty and never
/// consulted.
#[verifier::loop_isolation(false)]
fn build_strength_table(cfg: &GameConfig, hands: &[Vec<(u8, u8)>; 2]) -> (r: Vec<
    (HandStrength, HandStrength),
>)
    requires
        cfg.wf(),
        hands_wf(hands[0]@),
        hands_wf(hands[1]@),
        hands[0]@.len() <= 4096,
        hands[1]@.len() <= 4096,
    ensures
        r@.len() == 1326,
        forall|t: u8, rv: u8|
            t < rv < 52 && !spec_hand_blocked((t, rv), cfg.flop, NOT_DEALT, NOT_DEALT)
                ==> (#[trigger] r@[spec_board_index(t, rv)]).0.wf(
                hands[0]@.len() as int,
                hands[1]@.len() as int,
            ) && r@[spec_board_index(t, rv)].1.wf(
                hands[1]@.len() as int,
                hands[0]@.len() as int,
            ),
        forall|t: u8, rv: u8|
            t < rv < 52 && !spec_hand_blocked((t, rv), cfg.flop, NOT_DEALT, NOT_DEALT)
                ==> board_entry_built(
                cfg.flop,
                t,
                rv,
                hands[0]@,
                hands[1]@,
                #[trigger] r@[spec_board_index(t, rv)],
            ),
{
    let mut table: Vec<(HandStrength, HandStrength)> = Vec::new();
    let mut k: usize = 0;
    while k < 1326
        invariant
            k <= 1326,
            table@.len() == k,
        decreases 1326 - k,
    {
        table.push((HandStrength::empty(), HandStrength::empty()));
        k = k + 1;
    }
    let mut b1: u8 = 0;
    while b1 < 52
        invariant
            b1 <= 52,
            table@.len() == 1326,
            forall|t: u8, rv: u8|
                t < rv < 52 && t < b1 && !spec_hand_blocked((t, rv), cfg.flop, NOT_DEALT, NOT_DEALT)
                    ==> (#[trigger] table@[spec_board_index(t, rv)]).0.wf(
                    hands[0]@.len() as int,
                    hands[1]@.len() as int,
                ) && table@[spec_board_index(t, rv)].1.wf(
                    hands[1]@.len() as int,
                    hands[0]@.len() as int,
                ),
            forall|t: u8, rv: u8|
                t < rv < 52 && t < b1 && !spec_hand_blocked((t, rv), cfg.flop, NOT_DEALT, NOT_DEALT)
                    ==> board_entry_built(
                    cfg.flop,
                    t,
                    rv,
                    hands[0]@,
                    hands[1]@,
                    #[trigger] table@[spec_board_index(t, rv)],
                ),
        decreases 52 - b1,
    {
        let mut b2: u8 = b1 + 1;
        while b2 < 52
            invariant
                b1 < b2 <= 52,
                table@.len() == 1326,
                forall|t: u8, rv: u8|
                    t < rv < 52 && (t < b1 || (t == b1 && rv < b2)) && !spec_hand_blocked(
                        (t, rv),
                        cfg.flop,
                        NOT_DEALT,
                        NOT_DEALT,
                    ) ==> (#[trigger] table@[spec_board_index(t, rv)]).0.wf(
                        hands[0]@.len() as int,
                        hands[1]@.len() as int,
                    ) && table@[spec_board_index(t, rv)].1.wf(
                        hands[1]@.len() as int,
                        hands[0]@.len() as int,
                    ),
                forall|t: u8, rv: u8|
                    t < rv < 52 && (t < b1 || (t == b1 && rv < b2)) && !spec_hand_blocked(
                        (t, rv),
                        cfg.flop,
                        NOT_DEALT,
                        NOT_DEALT,
                    ) ==> board_entry_built(
                        cfg.flop,
                        t,
                        rv,
                        hands[0]@,
                        hands[1]@,
                        #[trigger] table@[spec_board_index(t, rv)],
                    ),
            decreases 52 - b2,
        {
            if !hand_blocked((b1, b2), &cfg.flop, NOT_DEALT, NOT_DEALT) {
                let scores0 = score_vec(&cfg.flop, b1, b2, &hands[0]);
                let scores1 = score_vec(&cfg.flop, b1, b2, &hands[1]);
                let hs0 = build_strength_one(&scores0, &scores1);
                let hs1 = build_strength_one(&scores1, &scores0);
                let idx = board_index(b1, b2);
                let ghost old_table = table@;
                table[idx] = (hs0, hs1);
                proof {
                    assert forall|t: u8, rv: u8| t < rv < 52 implies 0 <= #[trigger] spec_board_index(
                        t,
                        rv,
                    ) < 1326 by {
                        crate::cards::lemma_board_index_range(t, rv);
                    }
                    assert(score_vec_ok(cfg.flop, b1, b2, hands[0]@, scores0@));
                    assert(score_vec_ok(cfg.flop, b1, b2, hands[1]@, scores1@));
                    assert(board_entry_built(
                        cfg.flop,
                        b1,
                        b2,
                        hands[0]@,
                        hands[1]@,
                        table@[spec_board_index(b1, b2)],
                    ));
                    assert forall|t: u8, rv: u8|
                        t < rv < 52 && (t < b1 || (t == b1 && rv < b2)) && !spec_hand_blocked(
                            (t, rv),
                            cfg.flop,
                            NOT_DEALT,
                            NOT_DEALT,
                        ) implies board_entry_built(
                        cfg.flop,
                        t,
                        rv,
                        hands[0]@,
                        hands[1]@,
                        #[trigger] table@[spec_board_index(t, rv)],
                    ) by {
                        crate::cards::lemma_board_index_injective(t, rv, b1, b2);
                        assert(table@[spec_board_index(t, rv)] == old_table[spec_board_index(
                            t,
                            rv,
                        )]);
                    }
                }
            }
            b2 = b2 + 1;
        }
        b1 = b1 + 1;
    }
    table
}

impl PostFlopGame {
    /// A blank game holding an unvalidated blank configuration; usable only
    /// after `update_config` succeeds.
    pub fn new_blank() -> (r: PostFlopGame)
    {
        PostFlopGame {
            config: GameConfig::new_blank(),
            root: PostFlopNode {
                player: 0,
                turn: NOT_DEALT,
                river: NOT_DEALT,
                amount: 0,
                children: Vec::new(),
                iso_chances: Vec::new(),
            },
            num_combinations: 0,
            initial_reach: [Vec::new(), Vec::new()],
            private_hand_cards: [Vec::new(), Vec::new()],
            same_hand_index: [Vec::new(), Vec::new()],
            hand_strength: Vec::new(),
        }
    }

    /// Validates the configuration and rebuilds every table and the tree.
    ///
    /// Fails exactly when validation rejects the configuration or, with a
    /// memory cap given, when the structural bytes of the tree plus the
    /// projected training-array bytes exceed the cap. On failure the game
    /// must not be used further.
    pub fn update_config(
        &mut self,
        config: GameConfig,
        max_memory_mb: Option<u32>,
    ) -> (r: Result<(), String>)
        requires
            config.range[0].wf(),
            config.range[1].wf(),
        ensures
            !spec_config_ok(&config) ==> r is Err,
            spec_config_ok(&config) ==> {
                let total = sat64(
                    64 + spec_struct_mem(final(self).root) + spec_array_mem(
                        final(self).root,
                        final(self).private_hand_cards[0]@.len(),
                        final(self).private_hand_cards[1]@.len(),
                    ),
                );
                &&& (r is Ok <==> (match max_memory_mb {
                    Option::Some(m) => total <= m * 1048576,
                    Option::None => true,
                }))
                &&& (r is Ok ==> final(self).wf() && final(self).config == config
                    && final(self).num_combinations == spec_combo_sum(
                    &config.range[0],
                    &config.range[1],
                    config.flop,
                    2704,
                ))
            },
    {
        self.config = config;
        let num = match check_config(&self.config) {
            Ok(n) => n,
            Err(e) => {
                return Err(e);
            },
        };
        self.num_combinations = num;

        let (hands0, reach0) = Self::materialize_range(&self.config.range[0]);
        let (hands1, reach1) = Self::materialize_range(&self.config.range[1]);
        self.private_hand_cards = [hands0, hands1];
        self.initial_reach = [reach0, reach1];
        let same0 = Self::link_same_hands(&self.private_hand_cards[0], &self.private_hand_cards[1]);
        let same1 = Self::link_same_hands(&self.private_hand_cards[1], &self.private_hand_cards[0]);
        self.same_hand_index = [same0, same1];

        self.hand_strength = build_strength_table(&self.config, &self.private_hand_cards);

        let (root, ms, ma) = build_node(
            &self.config,
            &self.private_hand_cards,
            0,
            NOT_DEALT,
            NOT_DEALT,
            0,
            Action::NoAction,
            0,
            0,
            0,
            false,
        );
        self.root = root;
        let total = crate::builder::sat_add_pub(crate::builder::sat_add_pub(ms, ma), 64);
        match max_memory_mb {
            Some(m) => {
                if total > m as u64 * 1048576 {
                    return Err("Memory usage exceeds the limit".to_owned());
                }
            },
            None => {},
        }
        Ok(())
    }

    /// Builds a game from a configuration, with an optional memory cap in
    /// mebibytes.
    pub fn new(config: GameConfig, max_memory_mb: Option<u32>) -> (r: Result<PostFlopGame, String>)
        requires
            config.range[0].wf(),
            config.range[1].wf(),
        ensures
            !spec_config_ok(&config) ==> r is Err,
            spec_config_ok(&config) && max_memory_mb is None ==> r is Ok,
            r matches Ok(g) ==> {
                &&& g.wf()
                &&& g.config == config
                &&& g.num_combinations == spec_combo_sum(
                    &config.range[0],
                    &config.range[1],
                    config.flop,
                    2704,
                )
                &&& match max_memory_mb {
                    Option::Some(m) => sat64(
                        64 + spec_struct_mem(g.root) + spec_array_mem(
                            g.root,
                            g.private_hand_cards[0]@.len(),
                            g.private_hand_cards[1]@.len(),
                        ),
                    ) <= m * 1048576,
                    Option::None => true,
                }
            },
    {
        let mut game = Self::new_blank();
        match game.update_config(config, max_memory_mb) {
            Ok(_) => Ok(game),
            Err(e) => Err(e),
        }
    }
}

/// Total reach of the first `k` opponent hands that do not share a card
/// with the board.
pub open spec fn spec_reach_sum(
    opp: Seq<(u8, u8)>,
    cf: Seq<u64>,
    flop: [u8; 3],
    turn: u8,
    river: u8,
    k: int,
) -> int
    decreases k,
{
    if k <= 0 {
        0
    } else {
        spec_reach_sum(opp, cf, flop, turn, river, k - 1) + if !spec_hand_blocked(
            opp[k - 1],
            flop,
            turn,
            river,
        ) {
            cf[k - 1] as int
        } else {
            0
        }
    }
}

/// Total reach of the first `k` board-free opponent hands that hold the
/// card `c`.
pub open spec fn spec_reach_minus(
    opp: Seq<(u8, u8)>,
    cf: Seq<u64>,
    flop: [u8; 3],
    turn: u8,
    river: u8,
    c: u8,
    k: int,
) -> int
    decreases k,
{
    if k <= 0 {
        0
    } else {
        spec_reach_minus(opp, cf, flop, turn, river, c, k - 1) + if !spec_hand_blocked(
            opp[k - 1],
            flop,
            turn,
            river,
        ) && (opp[k - 1].0 == c || opp[k - 1].1 == c) {
            cf[k - 1] as int
        } else {
            0
        }
    }
}

/// Total reach of the first `k` opponent hands that share a card neither
/// with the board nor with the pair (c1, c2).
pub open spec fn spec_fold_sum(
    opp: Seq<(u8, u8)>,
    cf: Seq<u64>,
    flop: [u8; 3],
    turn: u8,
    river: u8,
    c1: u8,
    c2: u8,
    k: int,
) -> int
    decreases k,
{
    if k <= 0 {
        0
    } else {
        spec_fold_sum(opp, cf, flop, turn, river, c1, c2, k - 1) + if !spec_hand_blocked(
            opp[k - 1],
            flop,
            turn,
            river,
        ) && opp[k - 1].0 != c1 && opp[k - 1].0 != c2 && opp[k - 1].1 != c1 && opp[k - 1].1
            != c2 {
            cf[k - 1] as int
        } else {
            0
        }
    }
}

/// The same-hand correction restricted to the first `k` opponent hands.
pub open spec fn spec_same_term(
    same: Option<usize>,
    opp: Seq<(u8, u8)>,
    cf: Seq<u64>,
    flop: [u8; 3],
    turn: u8,
    river: u8,
    k: int,
) -> int {
    match same {
        Option::Some(j) => if j < k && !spec_hand_blocked(opp[j as int], flop, turn, river) {
            cf[j as int] as int
        } else {
            0
        },
        Option::None => 0,
    }
}

/// The inclusion-exclusion identity behind the fold evaluator: the full
/// board-free reach, minus the reach holding either of this hand's cards,
/// plus the identical-hand correction, equals exactly the reach of the
/// hands disjoint from both the board and this hand.
pub proof fn lemma_fold_ie(
    opp: Seq<(u8, u8)>,
    cf: Seq<u64>,
    flop: [u8; 3],
    turn: u8,
    river: u8,
    c1: u8,
    c2: u8,
    same: Option<usize>,
    k: int,
)
    requires
        hands_wf(opp),
        cf.len() == opp.len(),
        0 <= k <= opp.len(),
        c1 < c2 < 52,
        match same {
            Option::Some(j) => j < opp.len() && opp[j as int] == (c1, c2),
            Option::None => forall|j: int| 0 <= j < opp.len() ==> opp[j] != (c1, c2),
        },
    ensures
        spec_reach_sum(opp, cf, flop, turn, river, k) - spec_reach_minus(
            opp,
            cf,
            flop,
            turn,
            river,
            c1,
            k,
        ) - spec_reach_minus(opp, cf, flop, turn, river, c2, k) + spec_same_term(
            same,
            opp,
            cf,
            flop,
            turn,
            river,
            k,
        ) == spec_fold_sum(opp, cf, flop, turn, river, c1, c2, k),
    decreases k,
{
    if k > 0 {
        lemma_fold_ie(opp, cf, flop, turn, river, c1, c2, same, k - 1);
        let h = opp[k - 1];
        if !spec_hand_blocked(h, flop, turn, river) {
            if h.0 == c1 && h.1 == c2 {
                match same {
                    Option::Some(j) => {
                        if j != k - 1 {
                            if j < k - 1 {
                                assert(hand_key(opp[j as int]) < hand_key(opp[k - 1]));
                            } else {
                                assert(hand_key(opp[k - 1]) < hand_key(opp[j as int]));
                            }
                        }
                        assert(j == k - 1);
                    },
                    Option::None => {
                        assert(opp[k - 1] != (c1, c2));
                    },
                }
            } else {
                match same {
                    Option::Some(j) => {
                        if j == k - 1 {
                            assert(opp[j as int] == (c1, c2));
                        }
                    },
                    Option::None => {},
                }
            }
        }
    }
}

/// Reach of the first `k` positions of the strength-sorted opponent order.
pub open spec fn spec_sd_sum(perm: Seq<usize>, cf: Seq<u64>, k: int) -> int
    decreases k,
{
    if k <= 0 {
        0
    } else {
        spec_sd_sum(perm, cf, k - 1) + cf[perm[k - 1] as int] as int
    }
}

/// Reach of the first `k` sorted positions whose hand holds the card `c`.
pub open spec fn spec_sd_minus(
    perm: Seq<usize>,
    opp: Seq<(u8, u8)>,
    cf: Seq<u64>,
    c: u8,
    k: int,
) -> int
    decreases k,
{
    if k <= 0 {
        0
    } else {
        spec_sd_minus(perm, opp, cf, c, k - 1) + if opp[perm[k - 1] as int].0 == c
            || opp[perm[k - 1] as int].1 == c {
            cf[perm[k - 1] as int] as int
        } else {
            0
        }
    }
}

/// Reach inside the sorted band [lo, hi), with the hands holding `c1` or
/// `c2` taken out: one outcome band of the showdown formula.
pub open spec fn spec_band(
    perm: Seq<usize>,
    opp: Seq<(u8, u8)>,
    cf: Seq<u64>,
    c1: u8,
    c2: u8,
    lo: int,
    hi: int,
) -> int {
    (spec_sd_sum(perm, cf, hi) - spec_sd_sum(perm, cf, lo)) - (spec_sd_minus(
        perm,
        opp,
        cf,
        c1,
        hi,
    ) - spec_sd_minus(perm, opp, cf, c1, lo)) - (spec_sd_minus(perm, opp, cf, c2, hi)
        - spec_sd_minus(perm, opp, cf, c2, lo))
}

/// Chip payoff of a fold terminal for `player`, before normalization.
pub open spec fn spec_fold_payoff(pot: int, amount: int, node_player: u16, player: int) -> int {
    if node_player == 0x300 + player {
        -amount
    } else {
        pot + amount
    }
}

proof fn lemma_mul_bound(a: int, b: int, aa: int, bb: int)
    by (nonlinear_arith)
    requires
        -aa <= a <= aa,
        -bb <= b <= bb,
        0 <= aa,
        0 <= bb,
    ensures
        -(aa * bb) <= a * b <= aa * bb,
{
}

impl PostFlopGame {
    /// The scaled counterfactual value that `evaluate` assigns to hand `i`:
    /// zero for a board-blocked hand; at a fold, twice the fold payoff times
    /// the reach of the opponent hands disjoint from board and hand; at a
    /// showdown, the three outcome bands of the strength-sorted order, each
    /// times its scaled payoff, the identical hand counted in the tie band.
    pub open spec fn spec_cfv(
        &self,
        node: PostFlopNode,
        player: int,
        cfreach: Seq<u64>,
        i: int,
    ) -> int {
        let own = self.private_hand_cards[player]@;
        let opp = self.private_hand_cards[1 - player]@;
        let flop = self.config.flop;
        let pot = self.config.initial_pot as int;
        let amount = node.amount as int;
        if spec_hand_blocked(own[i], flop, node.turn, node.river) {
            0
        } else if node.player == 0x300 || node.player == 0x301 {
            2 * spec_fold_payoff(pot, amount, node.player, player) * spec_fold_sum(
                opp,
                cfreach,
                flop,
                node.turn,
                node.river,
                own[i].0,
                own[i].1,
                opp.len() as int,
            )
        } else {
            let hs = if player == 0 {
                self.hand_strength@[spec_board_index(node.turn, node.river)].0
            } else {
                self.hand_strength@[spec_board_index(node.turn, node.river)].1
            };
            let perm = hs.opponent_increasing_index@;
            let x = hs.exclude_threshold as int;
            let w = hs.win_threshold@[i] as int;
            let tw = hs.tie_threshold@[i] as int;
            let corr = match self.same_hand_index[player]@[i] {
                Option::Some(j) => cfreach[j as int] as int,
                Option::None => 0,
            };
            2 * (pot + amount) * spec_band(perm, opp, cfreach, own[i].0, own[i].1, x, w) + pot * (
            spec_band(perm, opp, cfreach, own[i].0, own[i].1, w, tw) + corr) + (-2 * amount)
                * spec_band(perm, opp, cfreach, own[i].0, own[i].1, tw, opp.len() as int)
        }
    }
}

impl PostFlopGame {
    /// Fills `result` with the scaled counterfactual value of every one of
    /// `player`'s hands at a terminal node, given the opponent's reach.
    ///
    /// Values are exact integers in units of half a chip times one unit of
    /// reach weight: a caller recovers chip expectations by dividing by two
    /// and by its own reach scale, and normalizing by `num_combinations`.
    /// A hand that shares a card with the board gets value zero.
    #[verifier::loop_isolation(false)]
    #[verifier::rlimit(100)]
    pub fn evaluate(
        &self,
        result: &mut Vec<i128>,
        node: &PostFlopNode,
        player: usize,
        cfreach: &Vec<u64>,
    )
        requires
            self.wf(),
            player < 2,
            node.spec_is_terminal(),
            node.wf(self.config.flop, self.config.initial_stack as int),
            old(result)@.len() == self.private_hand_cards[player as int]@.len(),
            cfreach@.len() == self.private_hand_cards[1 - player as int]@.len(),
        ensures
            final(result)@.len() == old(result)@.len(),
            forall|i: int|
                0 <= i < old(result)@.len() ==> #[trigger] final(result)@[i] == self.spec_cfv(
                    *node,
                    player as int,
                    cfreach@,
                    i,
                ),
    {
        let flop = &self.config.flop;
        let turn = node.turn;
        let river = node.river;
        let opp_idx: usize = 1 - player;
        let num_own = self.private_hand_cards[player].len();
        let num_opp = self.private_hand_cards[opp_idx].len();
        let pot = self.config.initial_pot;
        let amount = node.amount;
        let ghost own_seq = self.private_hand_cards[player as int]@;
        let ghost opp_seq = self.private_hand_cards[opp_idx as int]@;

        if node.player == 0x300 || node.player == 0x301 {
            // fold terminal
            let payoff: i64 = if node.player == 0x300 + player as u16 {
                -(amount as i64)
            } else {
                pot as i64 + amount as i64
            };
            let mut csum: i128 = 0;
            let mut cminus: Vec<i128> = Vec::new();
            let mut c: usize = 0;
            while c < 52
                invariant
                    c <= 52,
                    cminus@.len() == c,
                    forall|t: int| 0 <= t < c ==> cminus@[t] == 0,
                decreases 52 - c,
            {
                cminus.push(0);
                c = c + 1;
            }
            let mut j: usize = 0;
            while j < num_opp
                invariant
                    j <= num_opp,
                    cminus@.len() == 52,
                    csum == spec_reach_sum(opp_seq, cfreach@, *flop, turn, river, j as int),
                    0 <= csum <= j * 0xffffffffffffffff,
                    forall|cc: u8|
                        cc < 52 ==> #[trigger] cminus@[cc as int] == spec_reach_minus(
                            opp_seq,
                            cfreach@,
                            *flop,
                            turn,
                            river,
                            cc,
                            j as int,
                        ),
                    forall|t: int| 0 <= t < 52 ==> 0 <= #[trigger] cminus@[t] <= j * 0xffffffffffffffff,
                decreases num_opp - j,
            {
                let (h1, h2) = self.private_hand_cards[opp_idx][j];
                if !hand_blocked((h1, h2), flop, turn, river) {
                    let v = cfreach[j] as i128;
                    csum = csum + v;
                    cminus[h1 as usize] = cminus[h1 as usize] + v;
                    cminus[h2 as usize] = cminus[h2 as usize] + v;
                }
                j = j + 1;
            }
            let mut i: usize = 0;
            while i < num_own
                invariant
                    i <= num_own,
                    result@.len() == num_own,
                    cminus@.len() == 52,
                    csum == spec_reach_sum(opp_seq, cfreach@, *flop, turn, river, num_opp as int),
                    0 <= csum <= num_opp * 0xffffffffffffffff,
                    forall|cc: u8|
                        cc < 52 ==> #[trigger] cminus@[cc as int] == spec_reach_minus(
                            opp_seq,
                            cfreach@,
                            *flop,
                            turn,
                            river,
                            cc,
                            num_opp as int,
                        ),
                    forall|t: int| 0 <= t < 52 ==> 0 <= #[trigger] cminus@[t] <= num_opp * 0xffffffffffffffff,
                    forall|t: int|
                        0 <= t < i ==> #[trigger] result@[t] == self.spec_cfv(
                            *node,
                            player as int,
                            cfreach@,
                            t,
                        ),
                decreases num_own - i,
            {
                let (c1, c2) = self.private_hand_cards[player][i];
                if hand_blocked((c1, c2), flop, turn, river) {
                    result[i] = 0;
                } else {
                    let corr: i128 = match self.same_hand_index[player][i] {
                        Some(sj) => cfreach[sj] as i128,
                        None => 0,
                    };
                    let reach = csum - cminus[c1 as usize] - cminus[c2 as usize] + corr;
                    proof {
                        lemma_fold_ie(
                            opp_seq,
                            cfreach@,
                            *flop,
                            turn,
                            river,
                            c1,
                            c2,
                            self.same_hand_index[player as int]@[i as int],
                            num_opp as int,
                        );
                        lemma_mul_bound(
                            2 * payoff as int,
                            reach as int,
                            0x200000000,
                            0x40000000000000000000,
                        );
                    }
                    result[i] = 2 * payoff as i128 * reach;
                }
                i = i + 1;
            }
        } else {
            // showdown terminal
            let bi = board_index(turn, river);
            proof {
                if turn <= river {
                    assert(!spec_hand_blocked((turn, river), self.config.flop, NOT_DEALT, NOT_DEALT));
                } else {
                    assert(!spec_hand_blocked((river, turn), self.config.flop, NOT_DEALT, NOT_DEALT));
                }
            }
            let hs: &HandStrength = if player == 0 {
                &self.hand_strength[bi].0
            } else {
                &self.hand_strength[bi].1
            };
            proof {
                let lo: u8 = if turn <= river { turn } else { river };
                let hi: u8 = if turn <= river { river } else { turn };
                assert(lo < hi < 52 && !spec_hand_blocked(
                    (lo, hi),
                    self.config.flop,
                    NOT_DEALT,
                    NOT_DEALT,
                ));
                assert(self.hand_strength@[spec_board_index(lo, hi)].0.wf(
                    self.private_hand_cards[0]@.len() as int,
                    self.private_hand_cards[1]@.len() as int,
                ));
                assert(spec_board_index(lo, hi) == spec_board_index(turn, river));
                assert(hs.wf(num_own as int, num_opp as int));
            }
            let ghost perm = hs.opponent_increasing_index@;

            let mut psum: Vec<i128> = Vec::new();
            let mut pminus: Vec<Vec<i128>> = Vec::new();
            psum.push(0);
            let mut row0: Vec<i128> = Vec::new();
            let mut c: usize = 0;
            while c < 52
                invariant
                    c <= 52,
                    row0@.len() == c,
                    forall|t: int| 0 <= t < c ==> row0@[t] == 0,
                decreases 52 - c,
            {
                row0.push(0);
                c = c + 1;
            }
            pminus.push(row0);
            let mut t: usize = 0;
            while t < num_opp
                invariant
                    t <= num_opp,
                    psum@.len() == t + 1,
                    pminus@.len() == t + 1,
                    forall|k: int|
                        0 <= k <= t ==> #[trigger] psum@[k] == spec_sd_sum(perm, cfreach@, k),
                    forall|k: int| 0 <= k <= t ==> 0 <= #[trigger] psum@[k] <= k * 0xffffffffffffffff,
                    forall|k: int| 0 <= k <= t ==> (#[trigger] pminus@[k])@.len() == 52,
                    forall|k: int, cc: u8|
                        0 <= k <= t && cc < 52 ==> #[trigger] pminus@[k]@[cc as int]
                            == spec_sd_minus(perm, opp_seq, cfreach@, cc, k),
                    forall|k: int, cc: int|
                        0 <= k <= t && 0 <= cc < 52 ==> 0 <= #[trigger] pminus@[k]@[cc] <= k
                            * 0xffffffffffffffff,
                decreases num_opp - t,
            {
                let pi = hs.opponent_increasing_index[t];
                let v = cfreach[pi] as i128;
                let last = psum[t];
                psum.push(last + v);
                let (h1, h2) = self.private_hand_cards[opp_idx][pi];
                let mut row: Vec<i128> = Vec::new();
                let mut cc: usize = 0;
                while cc < 52
                    invariant
                        cc <= 52,
                        row@.len() == cc,
                        pminus@.len() == t + 1,
                        forall|u: int| 0 <= u < cc ==> #[trigger] row@[u] == pminus@[t as int]@[u],
                    decreases 52 - cc,
                {
                    let prev = pminus[t][cc];
                    row.push(prev);
                    cc = cc + 1;
                }
                row[h1 as usize] = row[h1 as usize] + v;
                row[h2 as usize] = row[h2 as usize] + v;
                pminus.push(row);
                t = t + 1;
            }

            let exclude = hs.exclude_threshold;
            let mut i: usize = 0;
            while i < num_own
                invariant
                    i <= num_own,
                    result@.len() == num_own,
                    psum@.len() == num_opp + 1,
                    pminus@.len() == num_opp + 1,
                    forall|k: int|
                        0 <= k <= num_opp ==> #[trigger] psum@[k] == spec_sd_sum(perm, cfreach@, k),
                    forall|k: int|
                        0 <= k <= num_opp ==> 0 <= #[trigger] psum@[k] <= k * 0xffffffffffffffff,
                    forall|k: int| 0 <= k <= num_opp ==> (#[trigger] pminus@[k])@.len() == 52,
                    forall|k: int, cc: u8|
                        0 <= k <= num_opp && cc < 52 ==> #[trigger] pminus@[k]@[cc as int]
                            == spec_sd_minus(perm, opp_seq, cfreach@, cc, k),
                    forall|k: int, cc: int|
                        0 <= k <= num_opp && 0 <= cc < 52 ==> 0 <= #[trigger] pminus@[k]@[cc]
                            <= k * 0xffffffffffffffff,
                    forall|t2: int|
                        0 <= t2 < i ==> #[trigger] result@[t2] == self.spec_cfv(
                            *node,
                            player as int,
                            cfreach@,
                            t2,
                        ),
                decreases num_own - i,
            {
                let (c1, c2) = self.private_hand_cards[player][i];
                if hand_blocked((c1, c2), flop, turn, river) {
                    result[i] = 0;
                } else {
                    let w = hs.win_threshold[i];
                    let tw = hs.tie_threshold[i];
                    let corr: i128 = match self.same_hand_index[player][i] {
                        Some(sj) => cfreach[sj] as i128,
                        None => 0,
                    };
                    let wb: i128 = (psum[w] - psum[exclude]) - (pminus[w][c1 as usize]
                        - pminus[exclude][c1 as usize]) - (pminus[w][c2 as usize]
                        - pminus[exclude][c2 as usize]);
                    let tb: i128 = (psum[tw] - psum[w]) - (pminus[tw][c1 as usize]
                        - pminus[w][c1 as usize]) - (pminus[tw][c2 as usize]
                        - pminus[w][c2 as usize]) + corr;
                    let lb: i128 = (psum[num_opp] - psum[tw]) - (pminus[num_opp][c1 as usize]
                        - pminus[tw][c1 as usize]) - (pminus[num_opp][c2 as usize]
                        - pminus[tw][c2 as usize]);
                    proof {
                        lemma_mul_bound(
                            2 * (pot + amount) as int,
                            wb as int,
                            0x200000000,
                            0x60000000000000000000,
                        );
                        lemma_mul_bound(
                            pot as int,
                            tb as int,
                            0x100000000,
                            0x70000000000000000000,
                        );
                        lemma_mul_bound(
                            -2 * amount as int,
                            lb as int,
                            0x200000000,
                            0x60000000000000000000,
                        );
                    }
                    result[i] = 2 * (pot as i128 + amount as i128) * wb + pot as i128 * tb + (-2
                        * amount as i128) * lb;
                }
                i = i + 1;
            }
        }
    }
}

} // verus!
