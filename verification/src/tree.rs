//! Game-tree nodes and the per-node action computation: which actions a
//! player may take, their bet sizing, clamping and deduplication, and the
//! encoding of the player field of each child.

use crate::cards::NOT_DEALT;
use crate::config::GameConfig;
use vstd::prelude::*;

verus! {

broadcast use vstd::std_specs::vec::group_vec_axioms;

/// The player out of position acts first on every street.
pub const PLAYER_OOP: u16 = 0;

/// The player in position.
pub const PLAYER_IP: u16 = 1;

/// Player field of a chance node.
pub const PLAYER_CHANCE: u16 = 0xff;

/// Player field of a showdown terminal.
pub const PLAYER_TERMINAL: u16 = 0x100;

/// Player field of a fold terminal is this value plus the folder's index.
pub const PLAYER_FOLD: u16 = 0x300;

/// Actions, ordered: the action list of a node is kept strictly sorted
/// under `action_key`.
#[derive(Clone, Copy, PartialEq, Eq, Structural, Debug)]
pub enum Action {
    /// No action has been taken yet (the root).
    NoAction,
    Fold,
    Check,
    Call,
    Bet(i32),
    Raise(i32),
    AllIn,
    Chance(u8),
}

/// Total order on actions: by variant, then by size or card.
pub open spec fn action_key(a: Action) -> int {
    match a {
        Action::NoAction => 0int,
        Action::Fold => 0x100000000int,
        Action::Check => 0x200000000int,
        Action::Call => 0x300000000int,
        Action::Bet(n) => 0x400000000int + n,
        Action::Raise(n) => 0x500000000int + n,
        Action::AllIn => 0x600000000int,
        Action::Chance(c) => 0x700000000int + c,
    }
}

pub fn action_key_exec(a: Action) -> (k: i64)
    ensures
        k == action_key(a),
{
    match a {
        Action::NoAction => 0,
        Action::Fold => 0x100000000,
        Action::Check => 2 * 0x100000000,
        Action::Call => 3 * 0x100000000,
        Action::Bet(n) => 4 * 0x100000000i64 + n as i64,
        Action::Raise(n) => 5 * 0x100000000i64 + n as i64,
        Action::AllIn => 6 * 0x100000000,
        Action::Chance(c) => 7 * 0x100000000i64 + c as i64,
    }
}

proof fn lemma_action_key_injective(a: Action, b: Action)
    requires
        action_key(a) == action_key(b),
    ensures
        a == b,
{
}

/// True of the actions after which there is no outstanding bet to match.
pub open spec fn spec_is_check_like(a: Action) -> bool {
    match a {
        Action::NoAction => true,
        Action::Check => true,
        Action::Chance(_) => true,
        _ => false,
    }
}

/// Some entry of the list carries the action `a`.
pub open spec fn action_in(s: Seq<(Action, u16)>, a: Action) -> bool {
    exists|i: int| 0 <= i < s.len() && s[i].0 == a
}

/// The pair `b` is an entry of the list.
pub open spec fn pair_in(s: Seq<(Action, u16)>, b: (Action, u16)) -> bool {
    exists|i: int| 0 <= i < s.len() && s[i] == b
}

pub open spec fn actions_strictly_sorted(s: Seq<(Action, u16)>) -> bool {
    forall|i: int, j: int|
        0 <= i < j < s.len() ==> action_key(s[i].0) < action_key(s[j].0)
}

pub open spec fn child_actions_strictly_sorted(s: Seq<(Action, PostFlopNode)>) -> bool {
    forall|i: int, j: int|
        0 <= i < j < s.len() ==> action_key(s[i].0) < action_key(s[j].0)
}

/// What each returned (action, next player) pair of `push_actions` means,
/// relative to the node it was computed for.
pub open spec fn branch_ok(
    stack: int,
    max_num_bet: int,
    player: int,
    is_river: bool,
    amount: int,
    player_bet: int,
    opp_bet: int,
    num_bet: int,
    last_check_like: bool,
    allin: bool,
    b: (Action, u16),
) -> bool {
    match b.0 {
        Action::NoAction => false,
        Action::Chance(_) => false,
        Action::Fold => !last_check_like && b.1 == 0x300 + player,
        Action::Check => last_check_like && b.1 == (
        if player == 0 {
            1 as u16
        } else if is_river {
            0x100
        } else {
            0xff
        }),
        Action::Call => !last_check_like && b.1 == (
        if is_river {
            0x100 as u16
        } else {
            0xff
        }),
        Action::Bet(n) => last_check_like && num_bet < max_num_bet && b.1 == 1 - player && opp_bet
            + (opp_bet - player_bet) <= n < stack - amount + player_bet,
        Action::Raise(n) => !last_check_like && !allin && num_bet < max_num_bet && b.1 == 1
            - player && opp_bet + (opp_bet - player_bet) <= n < stack - amount + player_bet,
        Action::AllIn => num_bet < max_num_bet && b.1 == 1 - player,
    }
}

/// The rounded chip size of an opening-bet candidate: `round(pot * ratio)`.
pub open spec fn spec_bet_raw(b: crate::bets::BetSize, pot: int) -> int {
    match b {
        crate::bets::BetSize::PotRelative(bp) => (2 * pot * bp + 10000) / 20000,
        crate::bets::BetSize::LastBetRelative(bp) => (2 * pot * bp + 10000) / 20000,
    }
}

/// The rounded chip size of a raise candidate: the opponent's bet plus a
/// pot share, or a multiple of the opponent's bet.
pub open spec fn spec_raise_raw(b: crate::bets::BetSize, pot: int, opp_bet: int) -> int {
    match b {
        crate::bets::BetSize::PotRelative(bp) => opp_bet + (2 * pot * bp + 10000) / 20000,
        crate::bets::BetSize::LastBetRelative(bp) => (2 * opp_bet * bp + 10000) / 20000,
    }
}

/// What a sized candidate becomes: clamped into the legal window, an
/// all-in when it meets the stack cap.
pub open spec fn spec_clamped_action(raw: int, min_bet: int, max_bet: int, raising: bool) -> Action {
    let adj = if raw < min_bet {
        min_bet
    } else if raw > max_bet {
        max_bet
    } else {
        raw
    };
    if adj == max_bet {
        Action::AllIn
    } else if raising {
        Action::Raise(adj as i32)
    } else {
        Action::Bet(adj as i32)
    }
}

/// Pot after the acting player matches the outstanding bet.
pub open spec fn spec_pot(cfg: &GameConfig, amount: int, player_bet: int, opp_bet: int) -> int {
    cfg.initial_pot + 2 * (amount + opp_bet - player_bet)
}

/// Largest total this-street bet the stack allows.
pub open spec fn spec_max_bet(cfg: &GameConfig, amount: int, player_bet: int) -> int {
    cfg.initial_stack - amount + player_bet
}

/// Minimum legal bet: the opponent's bet plus the current increment, or the
/// stack cap when that is out of reach.
pub open spec fn spec_min_bet(cfg: &GameConfig, amount: int, player_bet: int, opp_bet: int) -> int {
    let mx = spec_max_bet(cfg, amount, player_bet);
    if opp_bet + (opp_bet - player_bet) <= mx {
        opp_bet + (opp_bet - player_bet)
    } else {
        mx
    }
}

/// The action that opening-bet candidate `ci` of the current street turns
/// into at this node.
pub open spec fn spec_expected_open(
    cfg: &GameConfig,
    player: int,
    turn: u8,
    river: u8,
    amount: int,
    player_bet: int,
    opp_bet: int,
    ci: int,
) -> Action {
    spec_clamped_action(
        spec_bet_raw(
            spec_street_candidates(cfg, player, turn, river).bet@[ci],
            spec_pot(cfg, amount, player_bet, opp_bet),
        ),
        spec_min_bet(cfg, amount, player_bet, opp_bet),
        spec_max_bet(cfg, amount, player_bet),
        false,
    )
}

/// The action that raise candidate `ci` of the current street turns into
/// at this node.
pub open spec fn spec_expected_raise(
    cfg: &GameConfig,
    player: int,
    turn: u8,
    river: u8,
    amount: int,
    player_bet: int,
    opp_bet: int,
    ci: int,
) -> Action {
    spec_clamped_action(
        spec_raise_raw(
            spec_street_candidates(cfg, player, turn, river).raise@[ci],
            spec_pot(cfg, amount, player_bet, opp_bet),
            opp_bet,
        ),
        spec_min_bet(cfg, amount, player_bet, opp_bet),
        spec_max_bet(cfg, amount, player_bet),
        true,
    )
}

/// A child's committed amount: bumped by the bet difference when the edge
/// action puts chips in, unchanged on check or fold.
pub open spec fn spec_child_amount(amount: int, player_bet: int, opp_bet: int, a: Action) -> int {
    match a {
        Action::Call => amount + (opp_bet - player_bet),
        Action::Bet(_) => amount + (opp_bet - player_bet),
        Action::Raise(_) => amount + (opp_bet - player_bet),
        Action::AllIn => amount + (opp_bet - player_bet),
        _ => amount,
    }
}

/// The bet-size candidates that apply on the current street.
pub open spec fn spec_street_candidates(
    cfg: &GameConfig,
    player: int,
    turn: u8,
    river: u8,
) -> crate::bets::BetSizeCandidates {
    if turn == NOT_DEALT {
        cfg.flop_bet_sizes[player]
    } else if river == NOT_DEALT {
        cfg.turn_bet_sizes[player]
    } else {
        cfg.river_bet_sizes[player]
    }
}

/// An isomorphic chance outcome: dealing `card` is mirrored by the real
/// sibling at `index`, which deals the same rank in the canonical suit;
/// `swap_list[p]` lists the hand-index transpositions that carry player
/// p's vectors between the two views.
pub struct IsomorphicChance {
    pub card: u8,
    pub index: usize,
    pub swap_list: [Vec<(usize, usize)>; 2],
}

/// A node of the game tree.
pub struct PostFlopNode {
    pub player: u16,
    pub turn: u8,
    pub river: u8,
    pub amount: i32,
    pub children: Vec<(Action, PostFlopNode)>,
    pub iso_chances: Vec<IsomorphicChance>,
}

/// The turn and river fields are each undealt or a real card off the flop,
/// and the river is dealt only after the turn.
pub open spec fn board_wf(flop: [u8; 3], turn: u8, river: u8) -> bool {
    &&& (turn == NOT_DEALT || (turn < 52 && turn != flop[0] && turn != flop[1] && turn != flop[2]))
    &&& (river == NOT_DEALT || (river < 52 && river != flop[0] && river != flop[1] && river
        != flop[2] && river != turn && turn != NOT_DEALT))
}

impl PostFlopNode {
    pub open spec fn spec_is_terminal(&self) -> bool {
        self.player == 0x100 || self.player == 0x300 || self.player == 0x301
    }

    pub open spec fn spec_is_chance(&self) -> bool {
        self.player == 0xff
    }

    pub open spec fn spec_is_player(&self) -> bool {
        self.player == 0 || self.player == 1
    }

    /// Well-formedness of the whole subtree: every node carries a valid
    /// player code, an amount within the stack and a legal board; terminals
    /// have no children, other nodes at least one; a player node's action
    /// list is strictly sorted; a chance node's children are chance deals
    /// and its isomorphic records point at earlier real children.
    pub open spec fn wf(self, flop: [u8; 3], stack: int) -> bool
        decreases self,
    {
        &&& (self.spec_is_terminal() || self.spec_is_chance() || self.spec_is_player())
        &&& 0 <= self.amount <= stack
        &&& board_wf(flop, self.turn, self.river)
        &&& (self.spec_is_terminal() ==> self.children@.len() == 0 && self.iso_chances@.len()
            == 0)
        &&& (self.player == 0x100 ==> self.turn != NOT_DEALT && self.river != NOT_DEALT)
        &&& (!self.spec_is_terminal() ==> self.children@.len() >= 1)
        &&& (self.spec_is_player() ==> self.iso_chances@.len() == 0
            && child_actions_strictly_sorted(self.children@))
        &&& (self.spec_is_chance() ==> (forall|i: int|
            0 <= i < self.children@.len() ==> (#[trigger] self.children@[i].0) matches
                Action::Chance(_)) && (forall|i: int|
            0 <= i < self.iso_chances@.len() ==> (#[trigger] self.iso_chances@[i].index)
                < self.children@.len()))
        &&& (forall|i: int|
            0 <= i < self.children@.len() && (#[trigger] self.children@[i].1).spec_is_player()
                ==> ((self.children@[i].1.children@[0].0 == Action::Fold)
                <==> !spec_is_check_like(self.children@[i].0)))
        &&& (forall|i: int|
            0 <= i < self.children@.len() ==> (#[trigger] self.children@[i].1).wf(flop, stack))
    }

    pub fn is_terminal(&self) -> (r: bool)
        ensures
            r == self.spec_is_terminal(),
    {
        self.player == PLAYER_TERMINAL || self.player == PLAYER_FOLD || self.player == PLAYER_FOLD
            + 1
    }

    pub fn is_chance(&self) -> (r: bool)
        ensures
            r == self.spec_is_chance(),
    {
        self.player == PLAYER_CHANCE
    }

    pub fn player(&self) -> (r: usize)
        ensures
            r == self.player as usize,
    {
        self.player as usize
    }

    pub fn num_actions(&self) -> (r: usize)
        ensures
            r == self.children@.len(),
    {
        self.children.len()
    }

    /// The child reached by the action at `index`.
    pub fn play(&self, index: usize) -> (r: &PostFlopNode)
        requires
            index < self.children@.len(),
        ensures
            r == self.children@[index as int].1,
    {
        &self.children[index].1
    }

    /// The action at `index`.
    pub fn action_at(&self, index: usize) -> (r: Action)
        requires
            index < self.children@.len(),
        ensures
            r == self.children@[index as int].0,
    {
        self.children[index].0
    }

    pub fn isomorphic_chances(&self) -> (r: &Vec<IsomorphicChance>)
        ensures
            r == self.iso_chances,
    {
        &self.iso_chances
    }

    /// Number of cards the next deal is drawn from, counting from the two
    /// hole cards of a fixed pair: 45 for the turn, 44 for the river. The
    /// chance factor of the node is the reciprocal of this.
    pub fn chance_denominator(&self) -> (r: u32)
        ensures
            self.turn == NOT_DEALT ==> r == 45,
            self.turn != NOT_DEALT ==> r == 44,
    {
        if self.turn == NOT_DEALT {
            45
        } else {
            44
        }
    }
}

fn argmin_key(v: &Vec<(Action, u16)>) -> (m: usize)
    requires
        v@.len() >= 1,
    ensures
        m < v@.len(),
        forall|j: int| 0 <= j < v@.len() ==> action_key(v@[m as int].0) <= action_key(v@[j].0),
{
    let mut m: usize = 0;
    let mut j: usize = 1;
    while j < v.len()
        invariant
            m < j <= v@.len(),
            forall|t: int| 0 <= t < j ==> action_key(v@[m as int].0) <= action_key(v@[t].0),
        decreases v@.len() - j,
    {
        if action_key_exec(v[j].0) < action_key_exec(v[m].0) {
            m = j;
        }
        j = j + 1;
    }
    m
}

/// Rounds `base * bp / 10000` to the nearest integer, halves away from zero,
/// for nonnegative `base`.
fn scaled_size(base: i64, bp: u32) -> (r: i128)
    requires
        base >= 0,
    ensures
        r == (2 * base * bp + 10000) / 20000,
        0 <= r <= 2 * base * bp + 10000,
{
    let b2: i128 = 2 * (base as i128);
    proof {
        assert(0 <= b2 * (bp as i128) <= 0x200000000000000000000000000) by (nonlinear_arith)
            requires
                0 <= b2 <= 0x20000000000000000,
                0 <= (bp as i128) < 0x100000000,
        ;
        assert(b2 * (bp as i128) == 2 * (base as int) * (bp as int)) by (nonlinear_arith)
            requires
                b2 == 2 * (base as int),
        ;
    }
    let prod: i128 = b2 * (bp as i128) + 10000;
    proof {
        vstd::arithmetic::div_mod::lemma_div_is_ordered(0, prod as int, 20000);
        vstd::arithmetic::div_mod::lemma_div_is_ordered_by_denominator(prod as int, 1, 20000);
        vstd::arithmetic::div_mod::lemma_div_basics(prod as int);
    }
    prod / 20000
}

/// Appends the (unsorted, possibly repetitive) `tail` to the strictly
/// sorted `prefix`, smallest key first, dropping an element whose action is
/// already last: the prefix is kept verbatim, every appended element is one
/// of the tail's, and every tail action still appears somewhere.
#[verifier::loop_isolation(false)]
fn merge_action_tail(prefix: Vec<(Action, u16)>, tail: Vec<(Action, u16)>) -> (r: Vec<
    (Action, u16),
>)
    requires
        prefix@.len() >= 1,
        actions_strictly_sorted(prefix@),
        forall|t: int|
            0 <= t < tail@.len() ==> action_key(prefix@[prefix@.len() - 1].0) <= action_key(
                (#[trigger] tail@[t]).0,
            ),
    ensures
        r@.len() >= prefix@.len(),
        forall|i: int| 0 <= i < prefix@.len() ==> #[trigger] r@[i] == prefix@[i],
        actions_strictly_sorted(r@),
        forall|i: int| prefix@.len() <= i < r@.len() ==> pair_in(tail@, #[trigger] r@[i]),
        forall|t: int| 0 <= t < tail@.len() ==> action_in(r@, (#[trigger] tail@[t]).0),
{
    let mut out = prefix;
    let mut rest = tail;
    proof {
        assert forall|u: int| 0 <= u < rest@.len() implies pair_in(
            tail@,
            #[trigger] rest@[u],
        ) by {
            assert(rest@[u] == tail@[u]);
        }
        assert forall|t: int| 0 <= t < tail@.len() implies action_in(
            out@,
            (#[trigger] tail@[t]).0,
        ) || action_in(rest@, tail@[t].0) by {
            assert(rest@[t].0 == tail@[t].0);
        }
    }
    while rest.len() > 0
        invariant
            out@.len() >= prefix@.len(),
            forall|i: int| 0 <= i < prefix@.len() ==> #[trigger] out@[i] == prefix@[i],
            actions_strictly_sorted(out@),
            forall|t: int|
                0 <= t < rest@.len() ==> action_key(out@[out@.len() - 1].0) <= action_key(
                    (#[trigger] rest@[t]).0,
                ),
            forall|i: int| prefix@.len() <= i < out@.len() ==> pair_in(tail@, #[trigger] out@[i]),
            forall|u: int| 0 <= u < rest@.len() ==> pair_in(tail@, #[trigger] rest@[u]),
            forall|t: int|
                0 <= t < tail@.len() ==> action_in(out@, (#[trigger] tail@[t]).0) || action_in(
                    rest@,
                    tail@[t].0,
                ),
        decreases rest@.len(),
    {
        let ghost old_out = out@;
        let ghost old_rest = rest@;
        let m = argmin_key(&rest);
        let item = rest.remove(m);
        let last = out[out.len() - 1];
        if action_key_exec(last.0) < action_key_exec(item.0) {
            out.push(item);
        } else {
            proof {
                lemma_action_key_injective(last.0, item.0);
            }
        }
        proof {
            assert forall|u: int| 0 <= u < rest@.len() implies pair_in(
                tail@,
                #[trigger] rest@[u],
            ) by {
                if u < m {
                    assert(rest@[u] == old_rest[u]);
                } else {
                    assert(rest@[u] == old_rest[u + 1]);
                }
            }
            assert forall|i: int| prefix@.len() <= i < out@.len() implies pair_in(
                tail@,
                #[trigger] out@[i],
            ) by {
                if i >= old_out.len() {
                    assert(out@[i] == old_rest[m as int]);
                    assert(pair_in(tail@, old_rest[m as int]));
                }
            }
            assert forall|t: int| 0 <= t < tail@.len() implies action_in(
                out@,
                (#[trigger] tail@[t]).0,
            ) || action_in(rest@, tail@[t].0) by {
                if action_in(old_out, tail@[t].0) {
                    let w = choose|i: int| 0 <= i < old_out.len() && old_out[i].0 == tail@[t].0;
                    assert(out@[w].0 == tail@[t].0);
                } else {
                    let w = choose|u: int|
                        0 <= u < old_rest.len() && old_rest[u].0 == tail@[t].0;
                    if w == m {
                        assert(out@[out@.len() - 1].0 == tail@[t].0);
                    } else if w < m {
                        assert(rest@[w].0 == tail@[t].0);
                    } else {
                        assert(rest@[w - 1].0 == tail@[t].0);
                    }
                }
            }
        }
    }
    out
}

/// Builds the sized opening-bet actions from the street's candidates:
/// exactly one entry per candidate, its clamped action, all passing to the
/// opponent.
#[verifier::loop_isolation(false)]
#[verifier::rlimit(60)]
fn open_bet_tail(
    cfg: &GameConfig,
    player: u16,
    turn: u8,
    river: u8,
    amount: i32,
    player_bet: i32,
    opp_bet: i32,
    num_bet: i32,
    allin: bool,
) -> (tail: Vec<(Action, u16)>)
    requires
        cfg.wf(),
        player == 0 || player == 1,
        0 <= player_bet <= opp_bet <= cfg.initial_stack,
        player_bet <= amount <= cfg.initial_stack,
        amount + (opp_bet - player_bet) <= cfg.initial_stack,
        0 <= num_bet < cfg.max_num_bet,
        player_bet == opp_bet,
    ensures
        forall|i: int|
            0 <= i < tail@.len() ==> branch_ok(
                cfg.initial_stack as int,
                cfg.max_num_bet as int,
                player as int,
                turn != NOT_DEALT && river != NOT_DEALT,
                amount as int,
                player_bet as int,
                opp_bet as int,
                num_bet as int,
                true,
                allin,
                #[trigger] tail@[i],
            ),
        forall|ci: int|
            0 <= ci < spec_street_candidates(cfg, player as int, turn, river).bet@.len()
                ==> action_in(
                tail@,
                #[trigger] spec_expected_open(
                    cfg,
                    player as int,
                    turn,
                    river,
                    amount as int,
                    player_bet as int,
                    opp_bet as int,
                    ci,
                ),
            ),
        forall|t: int|
            0 <= t < tail@.len() ==> exists|ci: int|
                0 <= ci < spec_street_candidates(cfg, player as int, turn, river).bet@.len()
                    && (#[trigger] tail@[t].0) == spec_expected_open(
                    cfg,
                    player as int,
                    turn,
                    river,
                    amount as int,
                    player_bet as int,
                    opp_bet as int,
                    ci,
                ),
{
    let candidates = if turn == NOT_DEALT {
        &cfg.flop_bet_sizes[player as usize]
    } else if river == NOT_DEALT {
        &cfg.turn_bet_sizes[player as usize]
    } else {
        &cfg.river_bet_sizes[player as usize]
    };
    proof {
        assert(*candidates == spec_street_candidates(cfg, player as int, turn, river));
    }
    let bet_diff: i32 = opp_bet - player_bet;
    let pot: i64 = cfg.initial_pot as i64 + 2 * (amount as i64 + bet_diff as i64);
    let max_bet: i32 = cfg.initial_stack - amount + player_bet;
    let opp_plus_diff: i64 = opp_bet as i64 + bet_diff as i64;
    let min_bet: i32 = if opp_plus_diff <= max_bet as i64 {
        opp_plus_diff as i32
    } else {
        max_bet
    };
    let opp: u16 = 1 - player;
    let mut tail: Vec<(Action, u16)> = Vec::new();
    let mut ci: usize = 0;
    while ci < candidates.bet.len()
        invariant
            ci <= candidates.bet@.len(),
            forall|i: int|
                0 <= i < tail@.len() ==> branch_ok(
                    cfg.initial_stack as int,
                    cfg.max_num_bet as int,
                    player as int,
                    turn != NOT_DEALT && river != NOT_DEALT,
                    amount as int,
                    player_bet as int,
                    opp_bet as int,
                    num_bet as int,
                    true,
                    allin,
                    #[trigger] tail@[i],
                ),
            forall|c2: int|
                0 <= c2 < ci ==> action_in(
                    tail@,
                    #[trigger] spec_expected_open(
                        cfg,
                        player as int,
                        turn,
                        river,
                        amount as int,
                        player_bet as int,
                        opp_bet as int,
                        c2,
                    ),
                ),
            forall|t: int|
                0 <= t < tail@.len() ==> exists|c2: int|
                    0 <= c2 < ci && (#[trigger] tail@[t].0) == spec_expected_open(
                        cfg,
                        player as int,
                        turn,
                        river,
                        amount as int,
                        player_bet as int,
                        opp_bet as int,
                        c2,
                    ),
        decreases candidates.bet@.len() - ci,
    {
        let ghost old_tail = tail@;
        match candidates.bet[ci] {
            crate::bets::BetSize::PotRelative(bp) => {
                let sz = scaled_size(pot, bp);
                let adj: i32 = if sz < min_bet as i128 {
                    min_bet
                } else if sz > max_bet as i128 {
                    max_bet
                } else {
                    sz as i32
                };
                if adj == max_bet {
                    tail.push((Action::AllIn, opp));
                } else {
                    tail.push((Action::Bet(adj), opp));
                }
                proof {
                    assert(tail@[tail@.len() - 1].0 == spec_expected_open(
                        cfg,
                        player as int,
                        turn,
                        river,
                        amount as int,
                        player_bet as int,
                        opp_bet as int,
                        ci as int,
                    ));
                }
            },
            crate::bets::BetSize::LastBetRelative(_) => {
                // ruled out for opening bets by configuration validation
                proof {
                    assert(!(candidates.bet@[ci as int] matches
                        crate::bets::BetSize::LastBetRelative(_)));
                }
            },
        }
        proof {
            assert forall|c2: int| 0 <= c2 < ci + 1 implies action_in(
                tail@,
                #[trigger] spec_expected_open(
                    cfg,
                    player as int,
                    turn,
                    river,
                    amount as int,
                    player_bet as int,
                    opp_bet as int,
                    c2,
                ),
            ) by {
                let x = spec_expected_open(
                    cfg,
                    player as int,
                    turn,
                    river,
                    amount as int,
                    player_bet as int,
                    opp_bet as int,
                    c2,
                );
                if c2 < ci {
                    let w = choose|t: int| 0 <= t < old_tail.len() && old_tail[t].0 == x;
                    assert(tail@[w].0 == x);
                } else {
                    assert(tail@[tail@.len() - 1].0 == x);
                }
            }
        }
        ci = ci + 1;
    }
    tail
}

/// Builds the sized raise actions from the street's candidates: exactly
/// one entry per candidate, its clamped action, all passing to the
/// opponent.
#[verifier::loop_isolation(false)]
#[verifier::rlimit(60)]
fn raise_tail(
    cfg: &GameConfig,
    player: u16,
    turn: u8,
    river: u8,
    amount: i32,
    player_bet: i32,
    opp_bet: i32,
    num_bet: i32,
) -> (tail: Vec<(Action, u16)>)
    requires
        cfg.wf(),
        player == 0 || player == 1,
        0 <= player_bet <= opp_bet <= cfg.initial_stack,
        player_bet <= amount <= cfg.initial_stack,
        amount + (opp_bet - player_bet) <= cfg.initial_stack,
        0 <= num_bet < cfg.max_num_bet,
    ensures
        forall|i: int|
            0 <= i < tail@.len() ==> branch_ok(
                cfg.initial_stack as int,
                cfg.max_num_bet as int,
                player as int,
                turn != NOT_DEALT && river != NOT_DEALT,
                amount as int,
                player_bet as int,
                opp_bet as int,
                num_bet as int,
                false,
                false,
                #[trigger] tail@[i],
            ),
        forall|ci: int|
            0 <= ci < spec_street_candidates(cfg, player as int, turn, river).raise@.len()
                ==> action_in(
                tail@,
                #[trigger] spec_expected_raise(
                    cfg,
                    player as int,
                    turn,
                    river,
                    amount as int,
                    player_bet as int,
                    opp_bet as int,
                    ci,
                ),
            ),
        forall|t: int|
            0 <= t < tail@.len() ==> exists|ci: int|
                0 <= ci < spec_street_candidates(cfg, player as int, turn, river).raise@.len()
                    && (#[trigger] tail@[t].0) == spec_expected_raise(
                    cfg,
                    player as int,
                    turn,
                    river,
                    amount as int,
                    player_bet as int,
                    opp_bet as int,
                    ci,
                ),
{
    let candidates = if turn == NOT_DEALT {
        &cfg.flop_bet_sizes[player as usize]
    } else if river == NOT_DEALT {
        &cfg.turn_bet_sizes[player as usize]
    } else {
        &cfg.river_bet_sizes[player as usize]
    };
    proof {
        assert(*candidates == spec_street_candidates(cfg, player as int, turn, river));
    }
    let bet_diff: i32 = opp_bet - player_bet;
    let pot: i64 = cfg.initial_pot as i64 + 2 * (amount as i64 + bet_diff as i64);
    let max_bet: i32 = cfg.initial_stack - amount + player_bet;
    let opp_plus_diff: i64 = opp_bet as i64 + bet_diff as i64;
    let min_bet: i32 = if opp_plus_diff <= max_bet as i64 {
        opp_plus_diff as i32
    } else {
        max_bet
    };
    let opp: u16 = 1 - player;
    let mut tail: Vec<(Action, u16)> = Vec::new();
    let mut ci: usize = 0;
    while ci < candidates.raise.len()
        invariant
            ci <= candidates.raise@.len(),
            forall|i: int|
                0 <= i < tail@.len() ==> branch_ok(
                    cfg.initial_stack as int,
                    cfg.max_num_bet as int,
                    player as int,
                    turn != NOT_DEALT && river != NOT_DEALT,
                    amount as int,
                    player_bet as int,
                    opp_bet as int,
                    num_bet as int,
                    false,
                    false,
                    #[trigger] tail@[i],
                ),
            forall|c2: int|
                0 <= c2 < ci ==> action_in(
                    tail@,
                    #[trigger] spec_expected_raise(
                        cfg,
                        player as int,
                        turn,
                        river,
                        amount as int,
                        player_bet as int,
                        opp_bet as int,
                        c2,
                    ),
                ),
            forall|t: int|
                0 <= t < tail@.len() ==> exists|c2: int|
                    0 <= c2 < ci && (#[trigger] tail@[t].0) == spec_expected_raise(
                        cfg,
                        player as int,
                        turn,
                        river,
                        amount as int,
                        player_bet as int,
                        opp_bet as int,
                        c2,
                    ),
        decreases candidates.raise@.len() - ci,
    {
        let ghost old_tail = tail@;
        let sz: i128 = match candidates.raise[ci] {
            crate::bets::BetSize::PotRelative(bp) => {
                let ss = scaled_size(pot, bp);
                proof {
                    assert(2 * (pot as int) * (bp as int) <= 0x400000000000000000)
                        by (nonlinear_arith)
                        requires
                            0 <= (pot as int) <= 0x400000000,
                            0 <= (bp as int) < 0x100000000,
                    ;
                }
                opp_bet as i128 + ss
            },
            crate::bets::BetSize::LastBetRelative(bp) => { scaled_size(opp_bet as i64, bp) },
        };
        let adj: i32 = if sz < min_bet as i128 {
            min_bet
        } else if sz > max_bet as i128 {
            max_bet
        } else {
            sz as i32
        };
        if adj == max_bet {
            tail.push((Action::AllIn, opp));
        } else {
            tail.push((Action::Raise(adj), opp));
        }
        proof {
            assert(tail@[tail@.len() - 1].0 == spec_expected_raise(
                cfg,
                player as int,
                turn,
                river,
                amount as int,
                player_bet as int,
                opp_bet as int,
                ci as int,
            ));
            assert forall|c2: int| 0 <= c2 < ci + 1 implies action_in(
                tail@,
                #[trigger] spec_expected_raise(
                    cfg,
                    player as int,
                    turn,
                    river,
                    amount as int,
                    player_bet as int,
                    opp_bet as int,
                    c2,
                ),
            ) by {
                let x = spec_expected_raise(
                    cfg,
                    player as int,
                    turn,
                    river,
                    amount as int,
                    player_bet as int,
                    opp_bet as int,
                    c2,
                );
                if c2 < ci {
                    let w = choose|t: int| 0 <= t < old_tail.len() && old_tail[t].0 == x;
                    assert(tail@[w].0 == x);
                } else {
                    assert(tail@[tail@.len() - 1].0 == x);
                }
            }
        }
        ci = ci + 1;
    }
    tail
}

/// Computes the action list of a player node: check or bet after a
/// check-like action, else fold, call or raise. The list is strictly
/// sorted and holds the fixed prefix plus exactly the clamped candidate
/// actions of the street: every candidate's action appears, and every
/// sized action is some candidate's.
#[verifier::loop_isolation(false)]
#[verifier::rlimit(100)]
pub fn push_actions(
    cfg: &GameConfig,
    player: u16,
    turn: u8,
    river: u8,
    amount: i32,
    last_action: Action,
    player_bet: i32,
    opp_bet: i32,
    num_bet: i32,
    allin: bool,
) -> (r: Vec<(Action, u16)>)
    requires
        cfg.wf(),
        player == 0 || player == 1,
        0 <= player_bet <= opp_bet <= cfg.initial_stack,
        player_bet <= amount <= cfg.initial_stack,
        amount + (opp_bet - player_bet) <= cfg.initial_stack,
        0 <= num_bet,
        spec_is_check_like(last_action) ==> player_bet == opp_bet,
    ensures
        r@.len() >= 1,
        actions_strictly_sorted(r@),
        forall|i: int|
            0 <= i < r@.len() ==> branch_ok(
                cfg.initial_stack as int,
                cfg.max_num_bet as int,
                player as int,
                turn != NOT_DEALT && river != NOT_DEALT,
                amount as int,
                player_bet as int,
                opp_bet as int,
                num_bet as int,
                spec_is_check_like(last_action),
                allin,
                #[trigger] r@[i],
            ),
        spec_is_check_like(last_action) ==> r@[0].0 == Action::Check,
        !spec_is_check_like(last_action) ==> r@.len() >= 2 && r@[0].0 == Action::Fold && r@[1].0
            == Action::Call,
        spec_is_check_like(last_action) && num_bet < cfg.max_num_bet ==> forall|ci: int|
            0 <= ci < spec_street_candidates(cfg, player as int, turn, river).bet@.len()
                ==> action_in(
                r@,
                #[trigger] spec_expected_open(
                    cfg,
                    player as int,
                    turn,
                    river,
                    amount as int,
                    player_bet as int,
                    opp_bet as int,
                    ci,
                ),
            ),
        !spec_is_check_like(last_action) && !allin && num_bet < cfg.max_num_bet ==> forall|ci: int|
            0 <= ci < spec_street_candidates(cfg, player as int, turn, river).raise@.len()
                ==> action_in(
                r@,
                #[trigger] spec_expected_raise(
                    cfg,
                    player as int,
                    turn,
                    river,
                    amount as int,
                    player_bet as int,
                    opp_bet as int,
                    ci,
                ),
            ),
        spec_is_check_like(last_action) ==> forall|t: int|
            0 <= t < r@.len() && (#[trigger] r@[t].0) != Action::Check ==> exists|ci: int|
                0 <= ci < spec_street_candidates(cfg, player as int, turn, river).bet@.len()
                    && r@[t].0 == spec_expected_open(
                    cfg,
                    player as int,
                    turn,
                    river,
                    amount as int,
                    player_bet as int,
                    opp_bet as int,
                    ci,
                ),
        !spec_is_check_like(last_action) ==> forall|t: int|
            0 <= t < r@.len() && (#[trigger] r@[t].0) != Action::Fold && r@[t].0 != Action::Call
                ==> exists|ci: int|
                0 <= ci < spec_street_candidates(cfg, player as int, turn, river).raise@.len()
                    && r@[t].0 == spec_expected_raise(
                    cfg,
                    player as int,
                    turn,
                    river,
                    amount as int,
                    player_bet as int,
                    opp_bet as int,
                    ci,
                ),
{
    let is_river = turn != NOT_DEALT && river != NOT_DEALT;
    let check_like = match last_action {
        Action::NoAction => true,
        Action::Check => true,
        Action::Chance(_) => true,
        _ => false,
    };

    let candidates = if turn == NOT_DEALT {
        &cfg.flop_bet_sizes[player as usize]
    } else if river == NOT_DEALT {
        &cfg.turn_bet_sizes[player as usize]
    } else {
        &cfg.river_bet_sizes[player as usize]
    };
    proof {
        assert(*candidates == spec_street_candidates(cfg, player as int, turn, river));
    }

    let bet_diff: i32 = opp_bet - player_bet;
    let pot: i64 = cfg.initial_pot as i64 + 2 * (amount as i64 + bet_diff as i64);
    let max_bet: i32 = cfg.initial_stack - amount + player_bet;
    let opp_plus_diff: i64 = opp_bet as i64 + bet_diff as i64;
    let min_bet: i32 = if opp_plus_diff <= max_bet as i64 {
        opp_plus_diff as i32
    } else {
        max_bet
    };
    proof {
        assert(pot == spec_pot(cfg, amount as int, player_bet as int, opp_bet as int));
        assert(max_bet == spec_max_bet(cfg, amount as int, player_bet as int));
        assert(min_bet == spec_min_bet(cfg, amount as int, player_bet as int, opp_bet as int));
    }

    let player_after_call: u16 = if is_river {
        PLAYER_TERMINAL
    } else {
        PLAYER_CHANCE
    };
    let player_after_check: u16 = if player == PLAYER_OOP {
        PLAYER_IP
    } else {
        player_after_call
    };
    let opp: u16 = 1 - player;

    let mut out: Vec<(Action, u16)> = Vec::new();
    let tail: Vec<(Action, u16)>;
    if check_like {
        out.push((Action::Check, player_after_check));
        if num_bet < cfg.max_num_bet {
            tail = open_bet_tail(
                cfg,
                player,
                turn,
                river,
                amount,
                player_bet,
                opp_bet,
                num_bet,
                allin,
            );
        } else {
            tail = Vec::new();
        }
    } else {
        out.push((Action::Fold, PLAYER_FOLD + player));
        out.push((Action::Call, player_after_call));
        if !allin && num_bet < cfg.max_num_bet {
            tail = raise_tail(cfg, player, turn, river, amount, player_bet, opp_bet, num_bet);
        } else {
            tail = Vec::new();
        }
    }

    // merge the sorted prefix with the bet tail, ascending, dropping
    // duplicate sizes
    let ghost pre_out = out@;
    let ghost pre_tail = tail@;
    proof {
        assert forall|t: int|
            0 <= t < tail@.len() implies action_key(out@[out@.len() - 1].0) <= action_key(
            (#[trigger] tail@[t]).0,
        ) by {}
    }
    let merged = merge_action_tail(out, tail);
    proof {
        assert forall|i: int| 0 <= i < merged@.len() implies branch_ok(
            cfg.initial_stack as int,
            cfg.max_num_bet as int,
            player as int,
            is_river,
            amount as int,
            player_bet as int,
            opp_bet as int,
            num_bet as int,
            check_like,
            allin,
            #[trigger] merged@[i],
        ) by {
            if i >= pre_out.len() {
                let t = choose|t: int| 0 <= t < pre_tail.len() && pre_tail[t] == merged@[i];
                assert(merged@[i] == pre_tail[t]);
            }
        }
        if check_like {
            if num_bet < cfg.max_num_bet {
                assert forall|ci: int|
                    0 <= ci < candidates.bet@.len() implies action_in(
                    merged@,
                    #[trigger] spec_expected_open(
                        cfg,
                        player as int,
                        turn,
                        river,
                        amount as int,
                        player_bet as int,
                        opp_bet as int,
                        ci,
                    ),
                ) by {
                    let x = spec_expected_open(
                        cfg,
                        player as int,
                        turn,
                        river,
                        amount as int,
                        player_bet as int,
                        opp_bet as int,
                        ci,
                    );
                    let t = choose|t: int| 0 <= t < pre_tail.len() && pre_tail[t].0 == x;
                    assert(action_in(merged@, pre_tail[t].0));
                }
            }
            assert forall|t: int|
                0 <= t < merged@.len() && (#[trigger] merged@[t].0) != Action::Check implies exists|ci: int|
                0 <= ci < candidates.bet@.len() && merged@[t].0 == spec_expected_open(
                    cfg,
                    player as int,
                    turn,
                    river,
                    amount as int,
                    player_bet as int,
                    opp_bet as int,
                    ci,
                ) by {
                assert(t >= pre_out.len());
                let u = choose|u: int| 0 <= u < pre_tail.len() && pre_tail[u] == merged@[t];
                assert(exists|ci: int|
                    0 <= ci < candidates.bet@.len() && (#[trigger] pre_tail[u].0)
                        == spec_expected_open(
                        cfg,
                        player as int,
                        turn,
                        river,
                        amount as int,
                        player_bet as int,
                        opp_bet as int,
                        ci,
                    ));
            }
        } else {
            if !allin && num_bet < cfg.max_num_bet {
                assert forall|ci: int|
                    0 <= ci < candidates.raise@.len() implies action_in(
                    merged@,
                    #[trigger] spec_expected_raise(
                        cfg,
                        player as int,
                        turn,
                        river,
                        amount as int,
                        player_bet as int,
                        opp_bet as int,
                        ci,
                    ),
                ) by {
                    let x = spec_expected_raise(
                        cfg,
                        player as int,
                        turn,
                        river,
                        amount as int,
                        player_bet as int,
                        opp_bet as int,
                        ci,
                    );
                    let t = choose|t: int| 0 <= t < pre_tail.len() && pre_tail[t].0 == x;
                    assert(action_in(merged@, pre_tail[t].0));
                }
            }
            assert forall|t: int|
                0 <= t < merged@.len() && (#[trigger] merged@[t].0) != Action::Fold && merged@[t].0
                    != Action::Call implies exists|ci: int|
                0 <= ci < candidates.raise@.len() && merged@[t].0 == spec_expected_raise(
                    cfg,
                    player as int,
                    turn,
                    river,
                    amount as int,
                    player_bet as int,
                    opp_bet as int,
                    ci,
                ) by {
                assert(t >= pre_out.len());
                let u = choose|u: int| 0 <= u < pre_tail.len() && pre_tail[u] == merged@[t];
                assert(exists|ci: int|
                    0 <= ci < candidates.raise@.len() && (#[trigger] pre_tail[u].0)
                        == spec_expected_raise(
                        cfg,
                        player as int,
                        turn,
                        river,
                        amount as int,
                        player_bet as int,
                        opp_bet as int,
                        ci,
                    ));
            }
        }
    }
    merged
}

} // verus!