//! Laws relating several functions of the library, stated and proved once
//! and for all. The central one: at a fold terminal the two players'
//! reach-weighted value totals are conserved — together they equal the pot
//! times the total reach of the possible matchups, the folder's loss and
//! the winner's gain cancelling.

use crate::game::{spec_fold_payoff, spec_fold_sum, spec_hand_blocked, PostFlopGame};
use crate::tree::PostFlopNode;
use vstd::arithmetic::mul::{lemma_mul_is_commutative, lemma_mul_is_distributive_add};
use vstd::prelude::*;

verus! {

/// The reach weight of the matchup (i, j): the product of the two reach
/// entries when neither hand touches the board or the other hand, else zero.
pub open spec fn spec_matchup_term(
    h0: Seq<(u8, u8)>,
    h1: Seq<(u8, u8)>,
    r0: Seq<u64>,
    r1: Seq<u64>,
    flop: [u8; 3],
    turn: u8,
    river: u8,
    i: int,
    j: int,
) -> int {
    if !spec_hand_blocked(h0[i], flop, turn, river) && !spec_hand_blocked(h1[j], flop, turn, river)
        && h1[j].0 != h0[i].0 && h1[j].0 != h0[i].1 && h1[j].1 != h0[i].0 && h1[j].1 != h0[i].1 {
        r0[i] as int * r1[j] as int
    } else {
        0
    }
}

/// Matchup weight of own hand i against the first `k` opponent hands.
pub open spec fn spec_matchup_row(
    h0: Seq<(u8, u8)>,
    h1: Seq<(u8, u8)>,
    r0: Seq<u64>,
    r1: Seq<u64>,
    flop: [u8; 3],
    turn: u8,
    river: u8,
    i: int,
    k: int,
) -> int
    decreases k,
{
    if k <= 0 {
        0
    } else {
        spec_matchup_row(h0, h1, r0, r1, flop, turn, river, i, k - 1) + spec_matchup_term(
            h0, h1, r0, r1, flop, turn, river, i, k - 1)
    }
}

/// Matchup weight of the first `k` own hands, each against the whole
/// opponent list.
pub open spec fn spec_cross_reach_upto(
    h0: Seq<(u8, u8)>,
    h1: Seq<(u8, u8)>,
    r0: Seq<u64>,
    r1: Seq<u64>,
    flop: [u8; 3],
    turn: u8,
    river: u8,
    k: int,
) -> int
    decreases k,
{
    if k <= 0 {
        0
    } else {
        spec_cross_reach_upto(h0, h1, r0, r1, flop, turn, river, k - 1) + spec_matchup_row(
            h0, h1, r0, r1, flop, turn, river, k - 1, h1.len() as int)
    }
}

/// Total reach weight of all possible matchups.
pub open spec fn spec_cross_reach(
    h0: Seq<(u8, u8)>,
    h1: Seq<(u8, u8)>,
    r0: Seq<u64>,
    r1: Seq<u64>,
    flop: [u8; 3],
    turn: u8,
    river: u8,
) -> int {
    spec_cross_reach_upto(h0, h1, r0, r1, flop, turn, river, h0.len() as int)
}

/// One player's scaled terminal values, weighted by that player's own
/// reach and summed over the first `k` hands.
pub open spec fn spec_weighted_total(
    g: &PostFlopGame,
    node: PostFlopNode,
    player: int,
    own_r: Seq<u64>,
    opp_r: Seq<u64>,
    k: int,
) -> int
    decreases k,
{
    if k <= 0 {
        0
    } else {
        spec_weighted_total(g, node, player, own_r, opp_r, k - 1) + own_r[k - 1] as int
            * g.spec_cfv(node, player, opp_r, k - 1)
    }
}

/// Matchup weights of the first `k` own hands against one fixed opponent
/// hand: a column of the matchup table.
pub open spec fn spec_matchup_col(
    h0: Seq<(u8, u8)>,
    h1: Seq<(u8, u8)>,
    r0: Seq<u64>,
    r1: Seq<u64>,
    flop: [u8; 3],
    turn: u8,
    river: u8,
    j: int,
    k: int,
) -> int
    decreases k,
{
    if k <= 0 {
        0
    } else {
        spec_matchup_col(h0, h1, r0, r1, flop, turn, river, j, k - 1) + spec_matchup_term(
            h0, h1, r0, r1, flop, turn, river, k - 1, j)
    }
}

/// Total of the first `n` columns, each over the first `m` rows.
pub open spec fn spec_cross_by_cols(
    h0: Seq<(u8, u8)>,
    h1: Seq<(u8, u8)>,
    r0: Seq<u64>,
    r1: Seq<u64>,
    flop: [u8; 3],
    turn: u8,
    river: u8,
    m: int,
    n: int,
) -> int
    decreases n,
{
    if n <= 0 {
        0
    } else {
        spec_cross_by_cols(h0, h1, r0, r1, flop, turn, river, m, n - 1) + spec_matchup_col(
            h0, h1, r0, r1, flop, turn, river, n - 1, m)
    }
}

proof fn lemma_row_is_scaled_fold_sum(
    h0: Seq<(u8, u8)>,
    h1: Seq<(u8, u8)>,
    r0: Seq<u64>,
    r1: Seq<u64>,
    flop: [u8; 3],
    turn: u8,
    river: u8,
    i: int,
    k: int,
)
    requires
        0 <= i < h0.len(),
        !spec_hand_blocked(h0[i], flop, turn, river),
    ensures
        spec_matchup_row(h0, h1, r0, r1, flop, turn, river, i, k) == r0[i] as int * spec_fold_sum(
            h1, r1, flop, turn, river, h0[i].0, h0[i].1, k),
    decreases k,
{
    if k <= 0 {
        assert(r0[i] as int * 0 == 0) by (nonlinear_arith);
    } else {
        lemma_row_is_scaled_fold_sum(h0, h1, r0, r1, flop, turn, river, i, k - 1);
        let prev = spec_fold_sum(h1, r1, flop, turn, river, h0[i].0, h0[i].1, k - 1);
        let full = spec_fold_sum(h1, r1, flop, turn, river, h0[i].0, h0[i].1, k);
        lemma_mul_is_distributive_add(r0[i] as int, prev, full - prev);
    }
}

proof fn lemma_col_is_scaled_fold_sum(
    h0: Seq<(u8, u8)>,
    h1: Seq<(u8, u8)>,
    r0: Seq<u64>,
    r1: Seq<u64>,
    flop: [u8; 3],
    turn: u8,
    river: u8,
    j: int,
    k: int,
)
    requires
        0 <= j < h1.len(),
        !spec_hand_blocked(h1[j], flop, turn, river),
    ensures
        spec_matchup_col(h0, h1, r0, r1, flop, turn, river, j, k) == r1[j] as int * spec_fold_sum(
            h0, r0, flop, turn, river, h1[j].0, h1[j].1, k),
    decreases k,
{
    if k <= 0 {
        assert(r1[j] as int * 0 == 0) by (nonlinear_arith);
    } else {
        lemma_col_is_scaled_fold_sum(h0, h1, r0, r1, flop, turn, river, j, k - 1);
        let prev = spec_fold_sum(h0, r0, flop, turn, river, h1[j].0, h1[j].1, k - 1);
        let full = spec_fold_sum(h0, r0, flop, turn, river, h1[j].0, h1[j].1, k);
        lemma_mul_is_distributive_add(r1[j] as int, prev, full - prev);
        if full != prev {
            lemma_mul_is_commutative(r1[j] as int, r0[k - 1] as int);
        }
    }
}

proof fn lemma_row_blocked_is_zero(
    h0: Seq<(u8, u8)>,
    h1: Seq<(u8, u8)>,
    r0: Seq<u64>,
    r1: Seq<u64>,
    flop: [u8; 3],
    turn: u8,
    river: u8,
    i: int,
    k: int,
)
    requires
        spec_hand_blocked(h0[i], flop, turn, river),
    ensures
        spec_matchup_row(h0, h1, r0, r1, flop, turn, river, i, k) == 0,
    decreases k,
{
    if k > 0 {
        lemma_row_blocked_is_zero(h0, h1, r0, r1, flop, turn, river, i, k - 1);
    }
}

proof fn lemma_col_blocked_is_zero(
    h0: Seq<(u8, u8)>,
    h1: Seq<(u8, u8)>,
    r0: Seq<u64>,
    r1: Seq<u64>,
    flop: [u8; 3],
    turn: u8,
    river: u8,
    j: int,
    k: int,
)
    requires
        spec_hand_blocked(h1[j], flop, turn, river),
    ensures
        spec_matchup_col(h0, h1, r0, r1, flop, turn, river, j, k) == 0,
    decreases k,
{
    if k > 0 {
        lemma_col_blocked_is_zero(h0, h1, r0, r1, flop, turn, river, j, k - 1);
    }
}

proof fn lemma_cols_step(
    h0: Seq<(u8, u8)>,
    h1: Seq<(u8, u8)>,
    r0: Seq<u64>,
    r1: Seq<u64>,
    flop: [u8; 3],
    turn: u8,
    river: u8,
    m: int,
    n: int,
)
    requires
        m >= 1,
    ensures
        spec_cross_by_cols(h0, h1, r0, r1, flop, turn, river, m, n) == spec_cross_by_cols(
            h0, h1, r0, r1, flop, turn, river, m - 1, n) + spec_matchup_row(
            h0, h1, r0, r1, flop, turn, river, m - 1, n),
    decreases n,
{
    if n > 0 {
        lemma_cols_step(h0, h1, r0, r1, flop, turn, river, m, n - 1);
    }
}

proof fn lemma_cols_zero(
    h0: Seq<(u8, u8)>,
    h1: Seq<(u8, u8)>,
    r0: Seq<u64>,
    r1: Seq<u64>,
    flop: [u8; 3],
    turn: u8,
    river: u8,
    n: int,
)
    ensures
        spec_cross_by_cols(h0, h1, r0, r1, flop, turn, river, 0, n) == 0,
    decreases n,
{
    if n > 0 {
        lemma_cols_zero(h0, h1, r0, r1, flop, turn, river, n - 1);
    }
}

/// Summing the matchup table by rows or by columns gives the same total.
proof fn lemma_cross_transpose(
    h0: Seq<(u8, u8)>,
    h1: Seq<(u8, u8)>,
    r0: Seq<u64>,
    r1: Seq<u64>,
    flop: [u8; 3],
    turn: u8,
    river: u8,
    m: int,
)
    requires
        0 <= m,
    ensures
        spec_cross_reach_upto(h0, h1, r0, r1, flop, turn, river, m) == spec_cross_by_cols(
            h0, h1, r0, r1, flop, turn, river, m, h1.len() as int),
    decreases m,
{
    if m == 0 {
        lemma_cols_zero(h0, h1, r0, r1, flop, turn, river, h1.len() as int);
    } else {
        lemma_cross_transpose(h0, h1, r0, r1, flop, turn, river, m - 1);
        lemma_cols_step(h0, h1, r0, r1, flop, turn, river, m, h1.len() as int);
    }
}

proof fn lemma_fold_total_rows(
    g: &PostFlopGame,
    node: PostFlopNode,
    r0: Seq<u64>,
    r1: Seq<u64>,
    k: int,
)
    requires
        g.wf(),
        node.player == 0x300 || node.player == 0x301,
        r0.len() == g.private_hand_cards[0]@.len(),
        r1.len() == g.private_hand_cards[1]@.len(),
        0 <= k <= r0.len(),
    ensures
        spec_weighted_total(g, node, 0, r0, r1, k) == 2 * spec_fold_payoff(
            g.config.initial_pot as int,
            node.amount as int,
            node.player,
            0,
        ) * spec_cross_reach_upto(
            g.private_hand_cards[0]@,
            g.private_hand_cards[1]@,
            r0,
            r1,
            g.config.flop,
            node.turn,
            node.river,
            k,
        ),
    decreases k,
{
    let h0 = g.private_hand_cards[0]@;
    let h1 = g.private_hand_cards[1]@;
    let flop = g.config.flop;
    let p = spec_fold_payoff(g.config.initial_pot as int, node.amount as int, node.player, 0);
    if k <= 0 {
        assert(2 * p * 0 == 0) by (nonlinear_arith);
    } else {
        lemma_fold_total_rows(g, node, r0, r1, k - 1);
        let i = k - 1;
        let row = spec_matchup_row(h0, h1, r0, r1, flop, node.turn, node.river, i, h1.len() as int);
        let prev = spec_cross_reach_upto(h0, h1, r0, r1, flop, node.turn, node.river, k - 1);
        if spec_hand_blocked(h0[i], flop, node.turn, node.river) {
            lemma_row_blocked_is_zero(h0, h1, r0, r1, flop, node.turn, node.river, i, h1.len() as int);
            assert(r0[i] as int * g.spec_cfv(node, 0, r1, i) == 0) by (nonlinear_arith)
                requires
                    g.spec_cfv(node, 0, r1, i) == 0,
            ;
        } else {
            lemma_row_is_scaled_fold_sum(h0, h1, r0, r1, flop, node.turn, node.river, i, h1.len() as int);
            let s = spec_fold_sum(h1, r1, flop, node.turn, node.river, h0[i].0, h0[i].1, h1.len() as int);
            assert(g.spec_cfv(node, 0, r1, i) == 2 * p * s);
            assert(r0[i] as int * (2 * p * s) == 2 * p * (r0[i] as int * s)) by (nonlinear_arith);
        }
        lemma_mul_is_distributive_add(2 * p, prev, row);
    }
}

proof fn lemma_fold_total_cols(
    g: &PostFlopGame,
    node: PostFlopNode,
    r0: Seq<u64>,
    r1: Seq<u64>,
    k: int,
)
    requires
        g.wf(),
        node.player == 0x300 || node.player == 0x301,
        r0.len() == g.private_hand_cards[0]@.len(),
        r1.len() == g.private_hand_cards[1]@.len(),
        0 <= k <= r1.len(),
    ensures
        spec_weighted_total(g, node, 1, r1, r0, k) == 2 * spec_fold_payoff(
            g.config.initial_pot as int,
            node.amount as int,
            node.player,
            1,
        ) * spec_cross_by_cols(
            g.private_hand_cards[0]@,
            g.private_hand_cards[1]@,
            r0,
            r1,
            g.config.flop,
            node.turn,
            node.river,
            g.private_hand_cards[0]@.len() as int,
            k,
        ),
    decreases k,
{
    let h0 = g.private_hand_cards[0]@;
    let h1 = g.private_hand_cards[1]@;
    let flop = g.config.flop;
    let m = h0.len() as int;
    let p = spec_fold_payoff(g.config.initial_pot as int, node.amount as int, node.player, 1);
    if k <= 0 {
        assert(2 * p * 0 == 0) by (nonlinear_arith);
    } else {
        lemma_fold_total_cols(g, node, r0, r1, k - 1);
        let j = k - 1;
        let col = spec_matchup_col(h0, h1, r0, r1, flop, node.turn, node.river, j, m);
        let prev = spec_cross_by_cols(h0, h1, r0, r1, flop, node.turn, node.river, m, k - 1);
        if spec_hand_blocked(h1[j], flop, node.turn, node.river) {
            lemma_col_blocked_is_zero(h0, h1, r0, r1, flop, node.turn, node.river, j, m);
            assert(r1[j] as int * g.spec_cfv(node, 1, r0, j) == 0) by (nonlinear_arith)
                requires
                    g.spec_cfv(node, 1, r0, j) == 0,
            ;
        } else {
            lemma_col_is_scaled_fold_sum(h0, h1, r0, r1, flop, node.turn, node.river, j, m);
            let s = spec_fold_sum(h0, r0, flop, node.turn, node.river, h1[j].0, h1[j].1, m);
            assert(g.spec_cfv(node, 1, r0, j) == 2 * p * s);
            assert(r1[j] as int * (2 * p * s) == 2 * p * (r1[j] as int * s)) by (nonlinear_arith);
        }
        lemma_mul_is_distributive_add(2 * p, prev, col);
    }
}

/// Fold terminals conserve chips: summing each player's scaled values,
/// weighted by that player's own reach, over both players, yields exactly
/// twice the pot times the total matchup reach — the folder's loss of its
/// commitment and the winner's gain of pot plus commitment cancel to the
/// pot alone.
pub proof fn lemma_fold_value_conservation(
    g: &PostFlopGame,
    node: PostFlopNode,
    r0: Seq<u64>,
    r1: Seq<u64>,
)
    requires
        g.wf(),
        node.player == 0x300 || node.player == 0x301,
        r0.len() == g.private_hand_cards[0]@.len(),
        r1.len() == g.private_hand_cards[1]@.len(),
    ensures
        spec_weighted_total(g, node, 0, r0, r1, r0.len() as int) + spec_weighted_total(
            g,
            node,
            1,
            r1,
            r0,
            r1.len() as int,
        ) == 2 * g.config.initial_pot * spec_cross_reach(
            g.private_hand_cards[0]@,
            g.private_hand_cards[1]@,
            r0,
            r1,
            g.config.flop,
            node.turn,
            node.river,
        ),
{
    let h0 = g.private_hand_cards[0]@;
    let h1 = g.private_hand_cards[1]@;
    let flop = g.config.flop;
    let m = h0.len() as int;
    let n = h1.len() as int;
    let pot = g.config.initial_pot as int;
    let amount = node.amount as int;
    let p0 = spec_fold_payoff(pot, amount, node.player, 0);
    let p1 = spec_fold_payoff(pot, amount, node.player, 1);
    let d = spec_cross_reach_upto(h0, h1, r0, r1, flop, node.turn, node.river, m);
    lemma_fold_total_rows(g, node, r0, r1, m);
    lemma_fold_total_cols(g, node, r0, r1, n);
    lemma_cross_transpose(h0, h1, r0, r1, flop, node.turn, node.river, m);
    assert(p0 + p1 == pot);
    assert(2 * p0 * d + 2 * p1 * d == 2 * (p0 + p1) * d) by (nonlinear_arith);
}

} // verus!
