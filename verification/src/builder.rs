//! Chance-node construction and the recursive tree builder, with the
//! memory accounting that the cap check reads.

use crate::cards::NOT_DEALT;
use crate::config::GameConfig;
use crate::tree::{
    action_in, action_key, board_wf, branch_ok, child_actions_strictly_sorted, push_actions,
    spec_child_amount, spec_expected_open, spec_expected_raise, spec_is_check_like,
    spec_street_candidates, Action, IsomorphicChance, PostFlopNode,
};
use vstd::prelude::*;

verus! {

broadcast use vstd::std_specs::vec::group_vec_axioms, vstd::seq::group_seq_axioms;

/// Key of an ordered hole pair under the lexicographic order.
pub open spec fn hand_key(h: (u8, u8)) -> int {
    h.0 * 64 + h.1
}

/// A hand list: ordered pairs of distinct cards, strictly sorted.
pub open spec fn hands_wf(s: Seq<(u8, u8)>) -> bool {
    &&& forall|i: int| 0 <= i < s.len() ==> (#[trigger] s[i]).0 < s[i].1 < 52
    &&& forall|i: int, j: int| 0 <= i < j < s.len() ==> hand_key(s[i]) < hand_key(s[j])
}

proof fn lemma_hand_key_injective(a: (u8, u8), b: (u8, u8))
    by (nonlinear_arith)
    requires
        a.1 < 64,
        b.1 < 64,
        hand_key(a) == hand_key(b),
    ensures
        a == b,
{
}

/// Binary search of an ordered pair in a strictly sorted hand list.
pub fn find_hand(hands: &Vec<(u8, u8)>, c1: u8, c2: u8) -> (r: Option<usize>)
    requires
        hands_wf(hands@),
        c1 < c2 < 52,
    ensures
        match r {
            Some(j) => j < hands@.len() && hands@[j as int] == (c1, c2),
            None => forall|j: int| 0 <= j < hands@.len() ==> hands@[j] != (c1, c2),
        },
{
    let key: u16 = c1 as u16 * 64 + c2 as u16;
    let mut lo: usize = 0;
    let mut hi: usize = hands.len();
    while lo < hi
        invariant
            lo <= hi <= hands@.len(),
            hands_wf(hands@),
            forall|t: int| 0 <= t < lo ==> hand_key(hands@[t]) < key,
            forall|t: int| hi <= t < hands@.len() ==> hand_key(hands@[t]) >= key,
        decreases hi - lo,
    {
        let mid = lo + (hi - lo) / 2;
        let h = hands[mid];
        if (h.0 as u16 * 64 + h.1 as u16) < key {
            lo = mid + 1;
        } else {
            hi = mid;
        }
    }
    if lo < hands.len() {
        let h = hands[lo];
        if h.0 == c1 && h.1 == c2 {
            return Some(lo);
        }
    }
    proof {
        assert forall|j: int| 0 <= j < hands@.len() implies hands@[j] != (c1, c2) by {
            if hands@[j] == (c1, c2) {
                if j < lo {
                    assert(hand_key(hands@[j]) < key);
                } else {
                    assert(hand_key(hands@[j]) >= key);
                    if hand_key(hands@[j]) == hand_key((c1, c2)) && j > lo {
                        assert(hand_key(hands@[lo as int]) < hand_key(hands@[j]));
                        lemma_hand_key_injective(hands@[j], (c1, c2));
                    }
                }
            }
        }
    }
    None
}

/// True when `card` is one of the board cards dealt so far.
pub open spec fn spec_on_board(flop: [u8; 3], turn: u8, card: u8) -> bool {
    card == flop[0] || card == flop[1] || card == flop[2] || (turn != NOT_DEALT && card == turn)
}

fn on_board(flop: &[u8; 3], turn: u8, card: u8) -> (r: bool)
    ensures
        r == spec_on_board(*flop, turn, card),
{
    card == flop[0] || card == flop[1] || card == flop[2] || (turn != NOT_DEALT && card == turn)
}

/// Two suits look the same on the board so far: every rank present in one
/// is present in the other.
pub open spec fn spec_suits_iso(flop: [u8; 3], turn: u8, s1: u8, s2: u8) -> bool {
    forall|r: u8|
        r < 13 ==> (spec_on_board(flop, turn, (r * 4 + s1) as u8) == #[trigger] spec_on_board(
            flop,
            turn,
            (r * 4 + s2) as u8,
        ))
}

#[verifier::loop_isolation(false)]
fn suits_iso(flop: &[u8; 3], turn: u8, s1: u8, s2: u8) -> (r: bool)
    requires
        s1 < 4,
        s2 < 4,
    ensures
        r == spec_suits_iso(*flop, turn, s1, s2),
{
    let mut rk: u8 = 0;
    while rk < 13
        invariant
            rk <= 13,
            forall|r: u8|
                r < rk ==> (spec_on_board(*flop, turn, (r * 4 + s1) as u8) == #[trigger] spec_on_board(
                    *flop,
                    turn,
                    (r * 4 + s2) as u8,
                )),
        decreases 13 - rk,
    {
        if on_board(flop, turn, rk * 4 + s1) != on_board(flop, turn, rk * 4 + s2) {
            return false;
        }
        rk = rk + 1;
    }
    true
}

/// The canonical smaller suit each suit maps to, if any: suit `s` maps to
/// the smallest suit that looks the same on the board and itself maps
/// nowhere. Suit 0 never maps anywhere.
fn compute_iso_suits(flop: &[u8; 3], turn: u8) -> (iso: [Option<u8>; 4])
    ensures
        iso[0] is None,
        forall|s: int|
            0 <= s < 4 ==> match #[trigger] iso[s] {
                Option::Some(s1) => s1 < s && iso[s1 as int] is None && spec_suits_iso(
                    *flop,
                    turn,
                    s1,
                    s as u8,
                ),
                Option::None => true,
            },
{
    let mut iso: [Option<u8>; 4] = [None, None, None, None];
    if suits_iso(flop, turn, 0, 1) {
        iso[1] = Some(0);
    }
    if suits_iso(flop, turn, 0, 2) {
        iso[2] = Some(0);
    }
    if suits_iso(flop, turn, 0, 3) {
        iso[3] = Some(0);
    }
    if iso[2].is_none() && suits_iso(flop, turn, 1, 2) {
        iso[2] = Some(1);
    }
    if iso[3].is_none() && suits_iso(flop, turn, 1, 3) {
        iso[3] = Some(1);
    }
    if iso[3].is_none() && suits_iso(flop, turn, 2, 3) {
        iso[3] = Some(2);
    }
    iso
}

/// Some entry of the card list is `c`.
pub open spec fn card_in(s: Seq<u8>, c: u8) -> bool {
    exists|i: int| 0 <= i < s.len() && s[i] == c
}

/// Some child of the chance node deals the card `c`.
pub open spec fn chance_card_in(s: Seq<(Action, PostFlopNode)>, c: u8) -> bool {
    exists|i: int| 0 <= i < s.len() && s[i].0 == Action::Chance(c)
}

/// Some child's edge carries the action `a`.
pub open spec fn chance_action_in(s: Seq<(Action, PostFlopNode)>, a: Action) -> bool {
    exists|i: int| 0 <= i < s.len() && s[i].0 == a
}

/// Some isomorphism record stands for the card `c`.
pub open spec fn iso_card_in(s: Seq<IsomorphicChance>, c: u8) -> bool {
    exists|t: int| 0 <= t < s.len() && s[t].card == c
}

/// Some entry of the hand list is the pair `h`.
pub open spec fn hand_in(s: Seq<(u8, u8)>, h: (u8, u8)) -> bool {
    exists|j: int| 0 <= j < s.len() && s[j] == h
}

/// Player `p`'s swap list of one isomorphism record is complete: every
/// hand holding the record's card whose canonical image is in the list
/// contributes a transposition.
pub open spec fn record_swaps_complete(
    rec: IsomorphicChance,
    hands: Seq<(u8, u8)>,
    canonical: u8,
    p: int,
) -> bool {
    forall|i: int|
        0 <= i < hands.len() && ((#[trigger] hands[i]).0 == rec.card || hands[i].1 == rec.card)
            && hand_in(hands, spec_swap_image(hands[i], rec.card, canonical)) ==> exists|u: int|
            0 <= u < rec.swap_list[p]@.len() && rec.swap_list[p]@[u].0 == i
}

/// Sorted image of a hole pair when `card` is replaced by `iso_card`.
pub open spec fn spec_swap_image(h: (u8, u8), card: u8, iso_card: u8) -> (u8, u8) {
    let other = if h.0 == card {
        h.1
    } else {
        h.0
    };
    if other < iso_card {
        (other, iso_card)
    } else {
        (iso_card, other)
    }
}

/// For every hand of the list holding `card`, finds the index of its image
/// under the suit substitution that turns `card` into `iso_card`, and
/// returns the index transpositions.
fn build_swaps(hands: &Vec<(u8, u8)>, card: u8, iso_card: u8) -> (r: Vec<(usize, usize)>)
    requires
        hands_wf(hands@),
        card < 52,
        iso_card < card,
    ensures
        forall|t: int|
            0 <= t < r@.len() ==> {
                let p = #[trigger] r@[t];
                &&& p.0 < hands@.len()
                &&& p.1 < hands@.len()
                &&& (hands@[p.0 as int].0 == card || hands@[p.0 as int].1 == card)
                &&& hands@[p.1 as int] == spec_swap_image(hands@[p.0 as int], card, iso_card)
            },
        forall|i: int|
            0 <= i < hands@.len() && ((#[trigger] hands@[i]).0 == card || hands@[i].1 == card)
                && hand_in(hands@, spec_swap_image(hands@[i], card, iso_card)) ==> exists|u: int|
                0 <= u < r@.len() && (#[trigger] r@[u]).0 == i,
        forall|u: int, v: int| 0 <= u < v < r@.len() ==> r@[u].0 < r@[v].0,
{
    let mut out: Vec<(usize, usize)> = Vec::new();
    let mut i: usize = 0;
    while i < hands.len()
        invariant
            i <= hands@.len(),
            hands_wf(hands@),
            card < 52,
            iso_card < card,
            forall|t: int|
                0 <= t < out@.len() ==> {
                    let p = #[trigger] out@[t];
                    &&& p.0 < hands@.len()
                    &&& p.1 < hands@.len()
                    &&& (hands@[p.0 as int].0 == card || hands@[p.0 as int].1 == card)
                    &&& hands@[p.1 as int] == spec_swap_image(hands@[p.0 as int], card, iso_card)
                },
            forall|i2: int|
                0 <= i2 < i && ((#[trigger] hands@[i2]).0 == card || hands@[i2].1 == card)
                    && hand_in(hands@, spec_swap_image(hands@[i2], card, iso_card))
                    ==> exists|u: int| 0 <= u < out@.len() && (#[trigger] out@[u]).0 == i2,
            forall|u: int| 0 <= u < out@.len() ==> (#[trigger] out@[u]).0 < i,
            forall|u: int, v: int| 0 <= u < v < out@.len() ==> out@[u].0 < out@[v].0,
        decreases hands@.len() - i,
    {
        let ghost old_out = out@;
        let (c1, c2) = hands[i];
        if c1 == card || c2 == card {
            let other = if c1 == card {
                c2
            } else {
                c1
            };
            if other != iso_card {
                let (a, b) = if other < iso_card {
                    (other, iso_card)
                } else {
                    (iso_card, other)
                };
                proof {
                    assert((a, b) == spec_swap_image(hands@[i as int], card, iso_card));
                }
                match find_hand(hands, a, b) {
                    Some(j) => {
                        out.push((i, j));
                    },
                    None => {
                        proof {
                            assert(!hand_in(hands@, (a, b))) by {
                                if hand_in(hands@, (a, b)) {
                                    let j = choose|j: int|
                                        0 <= j < hands@.len() && hands@[j] == (a, b);
                                }
                            }
                        }
                    },
                }
            } else {
                proof {
                    let img = spec_swap_image(hands@[i as int], card, iso_card);
                    assert(img.0 == img.1);
                    assert(!hand_in(hands@, img)) by {
                        if hand_in(hands@, img) {
                            let j = choose|j: int| 0 <= j < hands@.len() && hands@[j] == img;
                            assert(hands@[j].0 < hands@[j].1);
                        }
                    }
                }
            }
        }
        proof {
            assert forall|i2: int|
                0 <= i2 < i + 1 && ((#[trigger] hands@[i2]).0 == card || hands@[i2].1 == card)
                    && hand_in(hands@, spec_swap_image(hands@[i2], card, iso_card)) implies exists|u: int|
                0 <= u < out@.len() && (#[trigger] out@[u]).0 == i2 by {
                if i2 < i {
                    let w = choose|u: int| 0 <= u < old_out.len() && old_out[u].0 == i2;
                    assert(out@[w].0 == i2);
                } else {
                    assert(out@[out@.len() - 1].0 == i2);
                }
            }
        }
        i = i + 1;
    }
    out
}

/// Byte totals saturate at the largest 64-bit value instead of wrapping.
/// The model sizes are 72 bytes per child entry, 64 per isomorphism record
/// plus 16 per swap pair, and 8 per action and private hand of a decision
/// node for its two projected training arrays.
pub open spec fn sat64(x: nat) -> nat {
    if x > 0xffffffffffffffff {
        0xffffffffffffffff as nat
    } else {
        x
    }
}

/// Saturating addition of two byte totals.
pub fn sat_add_pub(a: u64, b: u64) -> (r: u64)
    ensures
        r as nat == sat64((a + b) as nat),
{
    if a > 0xffffffffffffffffu64 - b {
        0xffffffffffffffff
    } else {
        a + b
    }
}

fn sat_add64(a: u64, b: u64) -> (r: u64)
    ensures
        r as nat == sat64((a + b) as nat),
{
    if a > 0xffffffffffffffffu64 - b {
        0xffffffffffffffff
    } else {
        a + b
    }
}

fn sat64_of(x: u128) -> (r: u64)
    ensures
        r as nat == sat64(x as nat),
{
    if x > 0xffffffffffffffffu128 {
        0xffffffffffffffff
    } else {
        x as u64
    }
}

/// Bytes of the first `k` isomorphism records, swap lists included.
pub open spec fn spec_iso_mem(s: Seq<IsomorphicChance>, k: int) -> nat
    decreases k,
{
    if k <= 0 {
        0
    } else {
        spec_iso_mem(s, k - 1) + 64 + 16 * (s[k - 1].swap_list[0]@.len()
            + s[k - 1].swap_list[1]@.len())
    }
}

/// Structural bytes of the whole subtree: child entries, isomorphism
/// records and swap pairs, at every node.
pub open spec fn spec_struct_mem(n: PostFlopNode) -> nat
    decreases n, 0int,
{
    72 * n.children@.len() + spec_iso_mem(n.iso_chances@, n.iso_chances@.len() as int)
        + spec_children_struct_mem(n.children@, n.children@.len() as int)
}

pub open spec fn spec_children_struct_mem(s: Seq<(Action, PostFlopNode)>, k: int) -> nat
    decreases s, k,
{
    if k <= 0 || k > s.len() {
        0
    } else {
        spec_children_struct_mem(s, k - 1) + spec_struct_mem(s[k - 1].1)
    }
}

/// Projected bytes of the per-hand strategy and regret arrays over the
/// whole subtree: eight bytes per action and private hand of the acting
/// player at every decision node.
pub open spec fn spec_array_mem(n: PostFlopNode, h0: nat, h1: nat) -> nat
    decreases n, 0int,
{
    (if n.spec_is_player() {
        8 * n.children@.len() * (if n.player == 0 {
            h0
        } else {
            h1
        })
    } else {
        0
    }) + spec_children_array_mem(n.children@, n.children@.len() as int, h0, h1)
}

pub open spec fn spec_children_array_mem(
    s: Seq<(Action, PostFlopNode)>,
    k: int,
    h0: nat,
    h1: nat,
) -> nat
    decreases s, k,
{
    if k <= 0 || k > s.len() {
        0
    } else {
        spec_children_array_mem(s, k - 1, h0, h1) + spec_array_mem(s[k - 1].1, h0, h1)
    }
}

/// The acting player's current street bet, by player code.
pub open spec fn spec_acting_bet(code: u16, bet0: int, bet1: int) -> int {
    if code == 0 {
        bet0
    } else {
        bet1
    }
}

/// The opposing player's current street bet, by player code.
pub open spec fn spec_opposing_bet(code: u16, bet0: int, bet1: int) -> int {
    if code == 0 {
        bet1
    } else {
        bet0
    }
}

/// Player code of the node reached by a chance deal.
pub open spec fn spec_chance_next(turn: u8, allin: bool) -> u16 {
    if !allin {
        0
    } else if turn == NOT_DEALT {
        0xff
    } else {
        0x100
    }
}

/// Computes a chance node's children and isomorphism records: the real
/// cards to deal, in increasing order, and for every card whose suit looks
/// like an earlier suit, a record pointing at the canonical sibling with
/// the hand-index transpositions of both players.
#[verifier::loop_isolation(false)]
#[verifier::rlimit(100)]
pub fn push_chances(
    cfg: &GameConfig,
    hands: &[Vec<(u8, u8)>; 2],
    turn: u8,
    river: u8,
    allin: bool,
) -> (r: (Vec<u8>, Vec<IsomorphicChance>))
    requires
        cfg.wf(),
        hands_wf(hands[0]@),
        hands_wf(hands[1]@),
        board_wf(cfg.flop, turn, river),
        river == NOT_DEALT,
    ensures
        1 <= r.0@.len(),
        forall|i: int|
            0 <= i < r.0@.len() ==> (#[trigger] r.0@[i]) < 52 && !spec_on_board(
                cfg.flop,
                turn,
                r.0@[i],
            ),
        forall|i: int, j: int| 0 <= i < j < r.0@.len() ==> r.0@[i] < r.0@[j],
        forall|t: int|
            0 <= t < r.1@.len() ==> {
                let rec = #[trigger] r.1@[t];
                &&& rec.index < r.0@.len()
                &&& rec.card < 52
                &&& !spec_on_board(cfg.flop, turn, rec.card)
                &&& r.0@[rec.index as int] / 4 == rec.card / 4
                &&& r.0@[rec.index as int] % 4 < rec.card % 4
            },
        forall|t: int|
            0 <= t < r.1@.len() ==> (forall|u: int|
                0 <= u < (#[trigger] r.1@[t]).swap_list[0]@.len() ==> {
                    let rec = r.1@[t];
                    let pr = #[trigger] r.1@[t].swap_list[0]@[u];
                    &&& pr.0 < hands[0]@.len()
                    &&& pr.1 < hands[0]@.len()
                    &&& (hands[0]@[pr.0 as int].0 == rec.card || hands[0]@[pr.0 as int].1
                        == rec.card)
                    &&& hands[0]@[pr.1 as int] == spec_swap_image(
                        hands[0]@[pr.0 as int],
                        rec.card,
                        r.0@[rec.index as int],
                    )
                }),
        forall|t: int|
            0 <= t < r.1@.len() ==> (forall|u: int|
                0 <= u < (#[trigger] r.1@[t]).swap_list[1]@.len() ==> {
                    let rec = r.1@[t];
                    let pr = #[trigger] r.1@[t].swap_list[1]@[u];
                    &&& pr.0 < hands[1]@.len()
                    &&& pr.1 < hands[1]@.len()
                    &&& (hands[1]@[pr.0 as int].0 == rec.card || hands[1]@[pr.0 as int].1
                        == rec.card)
                    &&& hands[1]@[pr.1 as int] == spec_swap_image(
                        hands[1]@[pr.0 as int],
                        rec.card,
                        r.0@[rec.index as int],
                    )
                }),
        forall|c: u8|
            c < 52 && !spec_on_board(cfg.flop, turn, c) ==> card_in(r.0@, c) || iso_card_in(
                r.1@,
                c,
            ),
        forall|t: int|
            0 <= t < r.1@.len() ==> record_swaps_complete(
                #[trigger] r.1@[t],
                hands[0]@,
                r.0@[r.1@[t].index as int],
                0,
            ) && record_swaps_complete(r.1@[t], hands[1]@, r.0@[r.1@[t].index as int], 1),
{
    let flop = &cfg.flop;
    let iso_suits = compute_iso_suits(flop, turn);

    let ghost w: u8 = if !spec_on_board(cfg.flop, turn, 0) {
        0
    } else if !spec_on_board(cfg.flop, turn, 4) {
        4
    } else if !spec_on_board(cfg.flop, turn, 8) {
        8
    } else if !spec_on_board(cfg.flop, turn, 12) {
        12
    } else {
        16
    };
    proof {
        assert(w < 52 && w % 4 == 0 && !spec_on_board(cfg.flop, turn, w));
    }

    let mut indices: Vec<usize> = Vec::new();
    let mut k: usize = 0;
    while k < 52
        invariant
            k <= 52,
            indices@.len() == k,
        decreases 52 - k,
    {
        indices.push(0);
        k = k + 1;
    }

    let mut cards: Vec<u8> = Vec::new();
    let mut isos: Vec<IsomorphicChance> = Vec::new();
    let mut card: u8 = 0;
    while card < 52
        invariant
            card <= 52,
            indices@.len() == 52,
            forall|i: int|
                0 <= i < cards@.len() ==> (#[trigger] cards@[i]) < card && !spec_on_board(
                    cfg.flop,
                    turn,
                    cards@[i],
                ),
            forall|i: int, j: int| 0 <= i < j < cards@.len() ==> cards@[i] < cards@[j],
            forall|c: u8|
                c < card && !spec_on_board(cfg.flop, turn, c) && iso_suits[(c % 4) as int] is None
                    ==> (#[trigger] indices@[c as int]) < cards@.len() && cards@[indices@[c as int] as int]
                    == c,
            card > w ==> cards@.len() >= 1,
            forall|t: int|
                0 <= t < isos@.len() ==> {
                    let rec = #[trigger] isos@[t];
                    &&& rec.index < cards@.len()
                    &&& rec.card < 52
                    &&& !spec_on_board(cfg.flop, turn, rec.card)
                    &&& cards@[rec.index as int] / 4 == rec.card / 4
                    &&& cards@[rec.index as int] % 4 < rec.card % 4
                },
            forall|t: int|
                0 <= t < isos@.len() ==> (forall|u: int|
                    0 <= u < (#[trigger] isos@[t]).swap_list[0]@.len() ==> {
                        let rec = isos@[t];
                        let pr = #[trigger] isos@[t].swap_list[0]@[u];
                        &&& pr.0 < hands[0]@.len()
                        &&& pr.1 < hands[0]@.len()
                        &&& (hands[0]@[pr.0 as int].0 == rec.card || hands[0]@[pr.0 as int].1
                            == rec.card)
                        &&& hands[0]@[pr.1 as int] == spec_swap_image(
                            hands[0]@[pr.0 as int],
                            rec.card,
                            cards@[rec.index as int],
                        )
                    }),
            forall|t: int|
                0 <= t < isos@.len() ==> (forall|u: int|
                    0 <= u < (#[trigger] isos@[t]).swap_list[1]@.len() ==> {
                        let rec = isos@[t];
                        let pr = #[trigger] isos@[t].swap_list[1]@[u];
                        &&& pr.0 < hands[1]@.len()
                        &&& pr.1 < hands[1]@.len()
                        &&& (hands[1]@[pr.0 as int].0 == rec.card || hands[1]@[pr.0 as int].1
                            == rec.card)
                        &&& hands[1]@[pr.1 as int] == spec_swap_image(
                            hands[1]@[pr.0 as int],
                            rec.card,
                            cards@[rec.index as int],
                        )
                    }),
            forall|c: u8|
                c < card && !spec_on_board(cfg.flop, turn, c) ==> card_in(cards@, c)
                    || iso_card_in(isos@, c),
            forall|t: int|
                0 <= t < isos@.len() ==> record_swaps_complete(
                    #[trigger] isos@[t],
                    hands[0]@,
                    cards@[isos@[t].index as int],
                    0,
                ) && record_swaps_complete(isos@[t], hands[1]@, cards@[isos@[t].index as int], 1),

        decreases 52 - card,
    {
        let ghost old_cards = cards@;
        let ghost old_isos = isos@;
        if !on_board(flop, turn, card) {
            let suit = card % 4;
            let rank = card / 4;
            match iso_suits[suit as usize] {
                Some(s1) => {
                    let iso_card = rank * 4 + s1;
                    proof {
                        assert(spec_suits_iso(cfg.flop, turn, s1, suit));
                        assert(spec_on_board(cfg.flop, turn, (rank * 4 + s1) as u8)
                            == spec_on_board(cfg.flop, turn, (rank * 4 + suit) as u8));
                        assert(iso_card % 4 == s1 && iso_card < card) by (nonlinear_arith)
                            requires
                                iso_card == rank * 4 + s1,
                                card == rank * 4 + suit,
                                s1 < suit < 4,
                                rank == card / 4,
                                suit == card % 4,
                                card < 52,
                        ;
                    }
                    let index = indices[iso_card as usize];
                    let swaps0 = build_swaps(&hands[0], card, iso_card);
                    let swaps1 = build_swaps(&hands[1], card, iso_card);
                    isos.push(IsomorphicChance { card, index, swap_list: [swaps0, swaps1] });
                    proof {
                        let rec = isos@[isos@.len() - 1];
                        assert(rec.card == card && rec.index == index);
                        assert(rec.swap_list[0] == swaps0 && rec.swap_list[1] == swaps1);
                        assert(cards@[rec.index as int] == iso_card);
                        assert(record_swaps_complete(rec, hands[0]@, iso_card, 0));
                        assert(record_swaps_complete(rec, hands[1]@, iso_card, 1));
                    }
                },
                None => {
                    indices[card as usize] = cards.len();
                    cards.push(card);
                },
            }
        }
        proof {
            assert forall|t: int|
                0 <= t < isos@.len() implies record_swaps_complete(
                #[trigger] isos@[t],
                hands[0]@,
                cards@[isos@[t].index as int],
                0,
            ) && record_swaps_complete(isos@[t], hands[1]@, cards@[isos@[t].index as int], 1) by {
                if t < old_isos.len() {
                    assert(isos@[t] == old_isos[t]);
                    assert(cards@[isos@[t].index as int] == old_cards[isos@[t].index as int]);
                }
            }
            assert forall|c: u8|
                c < card + 1 && !spec_on_board(cfg.flop, turn, c) implies card_in(cards@, c)
                || iso_card_in(isos@, c) by {
                if c < card {
                    if card_in(old_cards, c) {
                        let w = choose|i: int| 0 <= i < old_cards.len() && old_cards[i] == c;
                        assert(cards@[w] == c);
                    } else {
                        let w = choose|t: int| 0 <= t < old_isos.len() && old_isos[t].card == c;
                        assert(isos@[w].card == c);
                    }
                } else {
                    assert(cards@[cards@.len() - 1] == c || isos@[isos@.len() - 1].card == c);
                }
            }
        }
        card = card + 1;
    }
    (cards, isos)
}

proof fn lemma_sat_compose(a: nat, b: nat)
    ensures
        sat64(sat64(a) + sat64(b)) == sat64(a + b),
{
}

proof fn lemma_children_struct_mem_push(
    s: Seq<(Action, PostFlopNode)>,
    e: (Action, PostFlopNode),
    k: int,
)
    requires
        0 <= k <= s.len(),
    ensures
        spec_children_struct_mem(s.push(e), k) == spec_children_struct_mem(s, k),
    decreases k,
{
    if k > 0 {
        lemma_children_struct_mem_push(s, e, k - 1);
        assert(s.push(e)[k - 1] == s[k - 1]);
    }
}

proof fn lemma_children_array_mem_push(
    s: Seq<(Action, PostFlopNode)>,
    e: (Action, PostFlopNode),
    k: int,
    h0: nat,
    h1: nat,
)
    requires
        0 <= k <= s.len(),
    ensures
        spec_children_array_mem(s.push(e), k, h0, h1) == spec_children_array_mem(s, k, h0, h1),
    decreases k,
{
    if k > 0 {
        lemma_children_array_mem_push(s, e, k - 1, h0, h1);
        assert(s.push(e)[k - 1] == s[k - 1]);
    }
}

/// Number of board cards still to be dealt below this node.
pub open spec fn m_undealt(turn: u8, river: u8) -> int {
    if turn == NOT_DEALT {
        2
    } else if river == NOT_DEALT {
        1
    } else {
        0
    }
}

/// Raises still available on this street, for a decision node.
pub open spec fn m_rb(cfg: &GameConfig, code: u16, num_bet: i32) -> int {
    if code == 0 || code == 1 {
        cfg.max_num_bet - num_bet
    } else {
        0
    }
}

/// One when the out-of-position player may still check this street open.
pub open spec fn m_cr(code: u16, last_action: Action) -> int {
    if code == 0 && spec_is_check_like(last_action) {
        1
    } else {
        0
    }
}

pub open spec fn m_kind(code: u16) -> int {
    if code == 0 || code == 1 {
        1
    } else {
        0
    }
}

/// The children's edges mirror the computed action list entrywise, so the
/// list's completeness and provenance carry over to the children.
proof fn lemma_children_actions_mirror(
    children: Seq<(Action, PostFlopNode)>,
    branches: Seq<(Action, u16)>,
    cfg: &GameConfig,
    code: u16,
    turn: u8,
    river: u8,
    amount: i32,
    bet0: i32,
    bet1: i32,
    num_bet: i32,
    allin: bool,
    last_action: Action,
)
    requires
        children.len() == branches.len(),
        forall|i: int| 0 <= i < children.len() ==> (#[trigger] children[i]).0 == branches[i].0,
        spec_is_check_like(last_action) && num_bet < cfg.max_num_bet ==> forall|ci: int|
            0 <= ci < spec_street_candidates(cfg, code as int, turn, river).bet@.len()
                ==> action_in(
                branches,
                #[trigger] spec_expected_open(
                    cfg,
                    code as int,
                    turn,
                    river,
                    amount as int,
                    spec_acting_bet(code, bet0 as int, bet1 as int),
                    spec_opposing_bet(code, bet0 as int, bet1 as int),
                    ci,
                ),
            ),
        !spec_is_check_like(last_action) && !allin && num_bet < cfg.max_num_bet ==> forall|ci: int|
            0 <= ci < spec_street_candidates(cfg, code as int, turn, river).raise@.len()
                ==> action_in(
                branches,
                #[trigger] spec_expected_raise(
                    cfg,
                    code as int,
                    turn,
                    river,
                    amount as int,
                    spec_acting_bet(code, bet0 as int, bet1 as int),
                    spec_opposing_bet(code, bet0 as int, bet1 as int),
                    ci,
                ),
            ),
        spec_is_check_like(last_action) ==> forall|t: int|
            0 <= t < branches.len() && (#[trigger] branches[t].0) != Action::Check
                ==> exists|ci: int|
                0 <= ci < spec_street_candidates(cfg, code as int, turn, river).bet@.len()
                    && branches[t].0 == spec_expected_open(
                    cfg,
                    code as int,
                    turn,
                    river,
                    amount as int,
                    spec_acting_bet(code, bet0 as int, bet1 as int),
                    spec_opposing_bet(code, bet0 as int, bet1 as int),
                    ci,
                ),
        !spec_is_check_like(last_action) ==> forall|t: int|
            0 <= t < branches.len() && (#[trigger] branches[t].0) != Action::Fold && branches[t].0
                != Action::Call ==> exists|ci: int|
                0 <= ci < spec_street_candidates(cfg, code as int, turn, river).raise@.len()
                    && branches[t].0 == spec_expected_raise(
                    cfg,
                    code as int,
                    turn,
                    river,
                    amount as int,
                    spec_acting_bet(code, bet0 as int, bet1 as int),
                    spec_opposing_bet(code, bet0 as int, bet1 as int),
                    ci,
                ),
    ensures
        spec_is_check_like(last_action) && num_bet < cfg.max_num_bet ==> forall|ci: int|
            0 <= ci < spec_street_candidates(cfg, code as int, turn, river).bet@.len()
                ==> chance_action_in(
                children,
                #[trigger] spec_expected_open(
                    cfg,
                    code as int,
                    turn,
                    river,
                    amount as int,
                    spec_acting_bet(code, bet0 as int, bet1 as int),
                    spec_opposing_bet(code, bet0 as int, bet1 as int),
                    ci,
                ),
            ),
        !spec_is_check_like(last_action) && !allin && num_bet < cfg.max_num_bet ==> forall|ci: int|
            0 <= ci < spec_street_candidates(cfg, code as int, turn, river).raise@.len()
                ==> chance_action_in(
                children,
                #[trigger] spec_expected_raise(
                    cfg,
                    code as int,
                    turn,
                    river,
                    amount as int,
                    spec_acting_bet(code, bet0 as int, bet1 as int),
                    spec_opposing_bet(code, bet0 as int, bet1 as int),
                    ci,
                ),
            ),
        spec_is_check_like(last_action) ==> forall|i: int|
            0 <= i < children.len() && (#[trigger] children[i].0) != Action::Check
                ==> exists|ci: int|
                0 <= ci < spec_street_candidates(cfg, code as int, turn, river).bet@.len()
                    && children[i].0 == spec_expected_open(
                    cfg,
                    code as int,
                    turn,
                    river,
                    amount as int,
                    spec_acting_bet(code, bet0 as int, bet1 as int),
                    spec_opposing_bet(code, bet0 as int, bet1 as int),
                    ci,
                ),
        !spec_is_check_like(last_action) ==> forall|i: int|
            0 <= i < children.len() && (#[trigger] children[i].0) != Action::Fold && children[i].0
                != Action::Call ==> exists|ci: int|
                0 <= ci < spec_street_candidates(cfg, code as int, turn, river).raise@.len()
                    && children[i].0 == spec_expected_raise(
                    cfg,
                    code as int,
                    turn,
                    river,
                    amount as int,
                    spec_acting_bet(code, bet0 as int, bet1 as int),
                    spec_opposing_bet(code, bet0 as int, bet1 as int),
                    ci,
                ),
{
    let pb = spec_acting_bet(code, bet0 as int, bet1 as int);
    let ob = spec_opposing_bet(code, bet0 as int, bet1 as int);
    if spec_is_check_like(last_action) && num_bet < cfg.max_num_bet {
        assert forall|ci: int|
            0 <= ci < spec_street_candidates(cfg, code as int, turn, river).bet@.len() implies chance_action_in(
            children,
            #[trigger] spec_expected_open(
                cfg,
                code as int,
                turn,
                river,
                amount as int,
                pb,
                ob,
                ci,
            ),
        ) by {
            let x = spec_expected_open(cfg, code as int, turn, river, amount as int, pb, ob, ci);
            assert(action_in(branches, x));
            let t = choose|t: int| 0 <= t < branches.len() && branches[t].0 == x;
            assert(children[t].0 == x);
        }
    }
    if !spec_is_check_like(last_action) && !allin && num_bet < cfg.max_num_bet {
        assert forall|ci: int|
            0 <= ci < spec_street_candidates(cfg, code as int, turn, river).raise@.len() implies chance_action_in(
            children,
            #[trigger] spec_expected_raise(
                cfg,
                code as int,
                turn,
                river,
                amount as int,
                pb,
                ob,
                ci,
            ),
        ) by {
            let x = spec_expected_raise(cfg, code as int, turn, river, amount as int, pb, ob, ci);
            assert(action_in(branches, x));
            let t = choose|t: int| 0 <= t < branches.len() && branches[t].0 == x;
            assert(children[t].0 == x);
        }
    }
    if spec_is_check_like(last_action) {
        assert forall|i: int|
            0 <= i < children.len() && (#[trigger] children[i].0) != Action::Check implies exists|ci: int|
            0 <= ci < spec_street_candidates(cfg, code as int, turn, river).bet@.len()
                && children[i].0 == spec_expected_open(
                cfg,
                code as int,
                turn,
                river,
                amount as int,
                pb,
                ob,
                ci,
            ) by {
            assert(branches[i].0 == children[i].0);
            assert(branches[i].0 != Action::Check);
        }
    } else {
        assert forall|i: int|
            0 <= i < children.len() && (#[trigger] children[i].0) != Action::Fold && children[i].0
                != Action::Call implies exists|ci: int|
            0 <= ci < spec_street_candidates(cfg, code as int, turn, river).raise@.len()
                && children[i].0 == spec_expected_raise(
                cfg,
                code as int,
                turn,
                river,
                amount as int,
                pb,
                ob,
                ci,
            ) by {
            assert(branches[i].0 == children[i].0);
            assert(branches[i].0 != Action::Fold && branches[i].0 != Action::Call);
        }
    }
}

/// Builds the whole chance node: the real deals as children, the
/// isomorphism records, and the node's byte counts.
#[verifier::loop_isolation(false)]
#[verifier::rlimit(100)]
fn build_chance_node(
    cfg: &GameConfig,
    hands: &[Vec<(u8, u8)>; 2],
    turn: u8,
    river: u8,
    amount: i32,
    num_bet: i32,
    allin: bool,
) -> (r: (PostFlopNode, u64, u64))
    requires
        cfg.wf(),
        hands_wf(hands[0]@),
        hands_wf(hands[1]@),
        hands[0]@.len() <= 4096,
        hands[1]@.len() <= 4096,
        board_wf(cfg.flop, turn, river),
        0 <= amount <= cfg.initial_stack,
        0 <= num_bet <= cfg.max_num_bet,
        river == NOT_DEALT,
    ensures
        r.0.wf(cfg.flop, cfg.initial_stack as int),
        r.0.player == 0xff,
        r.0.turn == turn,
        r.0.river == river,
        r.0.amount == amount,
        forall|i: int|
            0 <= i < r.0.children@.len() ==> {
                let ch = #[trigger] r.0.children@[i];
                match ch.0 {
                    Action::Chance(c) => {
                        &&& c < 52
                        &&& !spec_on_board(cfg.flop, turn, c)
                        &&& ch.1.player == spec_chance_next(turn, allin)
                        &&& ch.1.amount == amount
                        &&& (turn == NOT_DEALT ==> ch.1.turn == c && ch.1.river == NOT_DEALT)
                        &&& (turn != NOT_DEALT ==> ch.1.turn == turn && ch.1.river == c)
                    },
                    _ => false,
                }
            },
        forall|i: int, j: int|
            0 <= i < j < r.0.children@.len() ==> action_key(r.0.children@[i].0) < action_key(
                r.0.children@[j].0,
            ),
        forall|t: int|
            0 <= t < r.0.iso_chances@.len() ==> {
                let rec = #[trigger] r.0.iso_chances@[t];
                &&& rec.card < 52
                &&& !spec_on_board(cfg.flop, turn, rec.card)
                &&& rec.index < r.0.children@.len()
                &&& match r.0.children@[rec.index as int].0 {
                    Action::Chance(c0) => c0 / 4 == rec.card / 4 && c0 % 4 < rec.card % 4,
                    _ => false,
                }
            },
        forall|c: u8|
            c < 52 && !spec_on_board(cfg.flop, turn, c) ==> chance_card_in(r.0.children@, c)
                || iso_card_in(r.0.iso_chances@, c),
        r.1 as nat == sat64(spec_struct_mem(r.0)),
        r.2 as nat == sat64(spec_array_mem(r.0, hands[0]@.len(), hands[1]@.len())),
    decreases m_undealt(turn, river), m_rb(cfg, 0xff, num_bet), m_cr(0xff, Action::NoAction),
        m_kind(0xff), 0int,
{
    let code: u16 = 0xff;
    let ghost h0 = hands[0]@.len();
    let ghost h1 = hands[1]@.len();
        let (cards, isos) = push_chances(cfg, hands, turn, river, allin);
        let next: u16 = if !allin {
            0
        } else if turn == NOT_DEALT {
            0xff
        } else {
            0x100
        };
        let mut ms: u64 = sat64_of(72u128 * cards.len() as u128);
        let mut ti: usize = 0;
        while ti < isos.len()
            invariant
                ti <= isos@.len(),
                ms as nat == sat64(72 * cards@.len() + spec_iso_mem(isos@, ti as int)),
            decreases isos@.len() - ti,
        {
            let sw0 = isos[ti].swap_list[0].len();
            let sw1 = isos[ti].swap_list[1].len();
            let add = sat64_of(64u128 + 16u128 * sw0 as u128 + 16u128 * sw1 as u128);
            proof {
                lemma_sat_compose(
                    72 * cards@.len() + spec_iso_mem(isos@, ti as int),
                    (64 + 16 * sw0 + 16 * sw1) as nat,
                );
            }
            ms = sat_add64(ms, add);
            ti = ti + 1;
        }
        let mut children: Vec<(Action, PostFlopNode)> = Vec::new();
        let mut ma: u64 = 0;
        let mut ci: usize = 0;
        while ci < cards.len()
            invariant
                ci <= cards@.len(),
                children@.len() == ci,
                forall|i: int|
                    0 <= i < ci ==> (#[trigger] children@[i]).0 == Action::Chance(cards@[i]),
                forall|i: int|
                    0 <= i < ci ==> (#[trigger] children@[i]).1.wf(
                        cfg.flop,
                        cfg.initial_stack as int,
                    ),
                forall|i: int|
                    0 <= i < ci && (#[trigger] children@[i]).1.spec_is_player()
                        ==> children@[i].1.children@[0].0 != Action::Fold,
                forall|i: int|
                    0 <= i < ci ==> {
                        let ch = #[trigger] children@[i];
                        &&& ch.1.player == next
                        &&& ch.1.amount == amount
                        &&& (turn == NOT_DEALT ==> ch.1.turn == cards@[i] && ch.1.river
                            == NOT_DEALT)
                        &&& (turn != NOT_DEALT ==> ch.1.turn == turn && ch.1.river == cards@[i])
                    },
                ms as nat == sat64(
                    72 * cards@.len() + spec_iso_mem(isos@, isos@.len() as int)
                        + spec_children_struct_mem(children@, ci as int),
                ),
                ma as nat == sat64(spec_children_array_mem(children@, ci as int, h0, h1)),
            decreases cards@.len() - ci,
        {
            let c = cards[ci];
            let (tn, rv) = if turn == NOT_DEALT {
                (c, NOT_DEALT)
            } else {
                (turn, c)
            };
            let (child, cms, cma) = build_node(
                cfg,
                hands,
                next,
                tn,
                rv,
                amount,
                Action::Chance(c),
                0,
                0,
                0,
                allin,
            );
            proof {
                lemma_sat_compose(
                    72 * cards@.len() + spec_iso_mem(isos@, isos@.len() as int)
                        + spec_children_struct_mem(children@, ci as int),
                    spec_struct_mem(child),
                );
                lemma_sat_compose(
                    spec_children_array_mem(children@, ci as int, h0, h1),
                    spec_array_mem(child, h0, h1),
                );
                lemma_children_struct_mem_push(children@, (Action::Chance(c), child), ci as int);
                lemma_children_array_mem_push(
                    children@,
                    (Action::Chance(c), child),
                    ci as int,
                    h0,
                    h1,
                );
            }
            ms = sat_add64(ms, cms);
            ma = sat_add64(ma, cma);
            children.push((Action::Chance(c), child));
            ci = ci + 1;
        }
        proof {
            assert forall|c: u8|
                c < 52 && !spec_on_board(cfg.flop, turn, c) implies chance_card_in(children@, c)
                || iso_card_in(isos@, c) by {
                if card_in(cards@, c) {
                    let w = choose|i: int| 0 <= i < cards@.len() && cards@[i] == c;
                    assert(children@[w].0 == Action::Chance(c));
                }
            }
        }
        let n = PostFlopNode { player: code, turn, river, amount, children, iso_chances: isos };
        return (n, ms, ma);
}

/// Builds the subtree rooted at a node with the given player code, board,
/// committed amount and street state, returning the node together with its
/// structural byte count and the projected byte count of its strategy and
/// regret arrays (both saturating).
#[verifier::loop_isolation(false)]
#[verifier::rlimit(100)]
pub fn build_node(
    cfg: &GameConfig,
    hands: &[Vec<(u8, u8)>; 2],
    code: u16,
    turn: u8,
    river: u8,
    amount: i32,
    last_action: Action,
    bet0: i32,
    bet1: i32,
    num_bet: i32,
    allin: bool,
) -> (r: (PostFlopNode, u64, u64))
    requires
        cfg.wf(),
        hands_wf(hands[0]@),
        hands_wf(hands[1]@),
        hands[0]@.len() <= 4096,
        hands[1]@.len() <= 4096,
        board_wf(cfg.flop, turn, river),
        0 <= amount <= cfg.initial_stack,
        code == 0 || code == 1 || code == 0xff || code == 0x100 || code == 0x300 || code == 0x301,
        0 <= num_bet <= cfg.max_num_bet,
        code == 0xff ==> river == NOT_DEALT,
        code == 0x100 ==> turn != NOT_DEALT && river != NOT_DEALT,
        (code == 0 || code == 1) ==> {
            let pb = if code == 0 { bet0 as int } else { bet1 as int };
            let ob = if code == 0 { bet1 as int } else { bet0 as int };
            &&& 0 <= pb <= ob <= cfg.initial_stack
            &&& pb <= amount
            &&& amount + (ob - pb) <= cfg.initial_stack
            &&& (spec_is_check_like(last_action) ==> pb == ob)
        },
    ensures
        r.0.wf(cfg.flop, cfg.initial_stack as int),
        r.0.player == code,
        r.0.turn == turn,
        r.0.river == river,
        r.0.amount == amount,
        r.0.spec_is_player() ==> ((r.0.children@[0].0 == Action::Fold) <==> !spec_is_check_like(
            last_action,
        )),
        r.0.spec_is_player() ==> forall|i: int|
            0 <= i < r.0.children@.len() ==> {
                let ch = #[trigger] r.0.children@[i];
                let pb = if code == 0 { bet0 as int } else { bet1 as int };
                let ob = if code == 0 { bet1 as int } else { bet0 as int };
                &&& ch.1.turn == turn
                &&& ch.1.river == river
                &&& ch.1.amount == spec_child_amount(amount as int, pb, ob, ch.0)
                &&& branch_ok(
                    cfg.initial_stack as int,
                    cfg.max_num_bet as int,
                    code as int,
                    turn != NOT_DEALT && river != NOT_DEALT,
                    amount as int,
                    pb,
                    ob,
                    num_bet as int,
                    spec_is_check_like(last_action),
                    allin,
                    (ch.0, ch.1.player),
                )
            },
        r.0.spec_is_player() && spec_is_check_like(last_action) ==> r.0.children@[0].0
            == Action::Check,
        r.0.spec_is_player() && !spec_is_check_like(last_action) ==> r.0.children@.len() >= 2
            && r.0.children@[0].0 == Action::Fold && r.0.children@[1].0 == Action::Call,
        r.0.spec_is_player() && spec_is_check_like(last_action) && num_bet < cfg.max_num_bet
            ==> forall|ci: int|
            0 <= ci < spec_street_candidates(cfg, code as int, turn, river).bet@.len()
                ==> chance_action_in(
                r.0.children@,
                #[trigger] spec_expected_open(
                    cfg,
                    code as int,
                    turn,
                    river,
                    amount as int,
                    spec_acting_bet(code, bet0 as int, bet1 as int),
                    spec_opposing_bet(code, bet0 as int, bet1 as int),
                    ci,
                ),
            ),
        r.0.spec_is_player() && !spec_is_check_like(last_action) && !allin && num_bet
            < cfg.max_num_bet ==> forall|ci: int|
            0 <= ci < spec_street_candidates(cfg, code as int, turn, river).raise@.len()
                ==> chance_action_in(
                r.0.children@,
                #[trigger] spec_expected_raise(
                    cfg,
                    code as int,
                    turn,
                    river,
                    amount as int,
                    spec_acting_bet(code, bet0 as int, bet1 as int),
                    spec_opposing_bet(code, bet0 as int, bet1 as int),
                    ci,
                ),
            ),
        r.0.spec_is_player() && spec_is_check_like(last_action) ==> forall|i: int|
            0 <= i < r.0.children@.len() && (#[trigger] r.0.children@[i].0) != Action::Check
                ==> exists|ci: int|
                0 <= ci < spec_street_candidates(cfg, code as int, turn, river).bet@.len()
                    && r.0.children@[i].0 == spec_expected_open(
                    cfg,
                    code as int,
                    turn,
                    river,
                    amount as int,
                    spec_acting_bet(code, bet0 as int, bet1 as int),
                    spec_opposing_bet(code, bet0 as int, bet1 as int),
                    ci,
                ),
        r.0.spec_is_player() && !spec_is_check_like(last_action) ==> forall|i: int|
            0 <= i < r.0.children@.len() && (#[trigger] r.0.children@[i].0) != Action::Fold
                && r.0.children@[i].0 != Action::Call ==> exists|ci: int|
                0 <= ci < spec_street_candidates(cfg, code as int, turn, river).raise@.len()
                    && r.0.children@[i].0 == spec_expected_raise(
                    cfg,
                    code as int,
                    turn,
                    river,
                    amount as int,
                    spec_acting_bet(code, bet0 as int, bet1 as int),
                    spec_opposing_bet(code, bet0 as int, bet1 as int),
                    ci,
                ),
        r.0.spec_is_chance() ==> forall|i: int|
            0 <= i < r.0.children@.len() ==> {
                let ch = #[trigger] r.0.children@[i];
                match ch.0 {
                    Action::Chance(c) => {
                        &&& c < 52
                        &&& !spec_on_board(cfg.flop, turn, c)
                        &&& ch.1.player == spec_chance_next(turn, allin)
                        &&& ch.1.amount == amount
                        &&& (turn == NOT_DEALT ==> ch.1.turn == c && ch.1.river == NOT_DEALT)
                        &&& (turn != NOT_DEALT ==> ch.1.turn == turn && ch.1.river == c)
                    },
                    _ => false,
                }
            },
        r.0.spec_is_chance() ==> forall|i: int, j: int|
            0 <= i < j < r.0.children@.len() ==> action_key(r.0.children@[i].0) < action_key(
                r.0.children@[j].0,
            ),
        r.0.spec_is_chance() ==> forall|t: int|
            0 <= t < r.0.iso_chances@.len() ==> {
                let rec = #[trigger] r.0.iso_chances@[t];
                &&& rec.card < 52
                &&& !spec_on_board(cfg.flop, turn, rec.card)
                &&& rec.index < r.0.children@.len()
                &&& match r.0.children@[rec.index as int].0 {
                    Action::Chance(c0) => c0 / 4 == rec.card / 4 && c0 % 4 < rec.card % 4,
                    _ => false,
                }
            },
        r.0.spec_is_chance() ==> forall|c: u8|
            c < 52 && !spec_on_board(cfg.flop, turn, c) ==> chance_card_in(r.0.children@, c)
                || iso_card_in(r.0.iso_chances@, c),
        r.1 as nat == sat64(spec_struct_mem(r.0)),
        r.2 as nat == sat64(spec_array_mem(r.0, hands[0]@.len(), hands[1]@.len())),
    decreases m_undealt(turn, river), m_rb(cfg, code, num_bet), m_cr(code, last_action),
        m_kind(code), 1int,
{
    let ghost h0 = hands[0]@.len();
    let ghost h1 = hands[1]@.len();
    if code == 0x100 || code == 0x300 || code == 0x301 {
        let n = PostFlopNode {
            player: code,
            turn,
            river,
            amount,
            children: Vec::new(),
            iso_chances: Vec::new(),
        };
        return (n, 0, 0);
    }
    if code == 0xff {
        return build_chance_node(cfg, hands, turn, river, amount, num_bet, allin);
    }
    // decision node
    let pb = if code == 0 { bet0 } else { bet1 };
    let ob = if code == 0 { bet1 } else { bet0 };
    let branches = push_actions(cfg, code, turn, river, amount, last_action, pb, ob, num_bet, allin);
    let bet_diff: i32 = ob - pb;
    let hp: usize = if code == 0 { hands[0].len() } else { hands[1].len() };
    let mut ms: u64 = sat64_of(72u128 * branches.len() as u128);
    let el8: u128 = 8u128 * branches.len() as u128;
    proof {
        assert(el8 * (hp as u128) <= 0x80000000000000000000 && el8 * (hp as u128) == 8
            * branches@.len() * (if code == 0 { h0 } else { h1 })) by (nonlinear_arith)
            requires
                0 <= el8 <= 0x80000000000000000,
                el8 == 8 * branches@.len(),
                0 <= (hp as u128) <= 4096,
                hp == (if code == 0 { h0 } else { h1 }),
        ;
    }
    let ma0: u64 = sat64_of(el8 * hp as u128);
    let mut ma: u64 = ma0;
    let mut children: Vec<(Action, PostFlopNode)> = Vec::new();
    let mut bi: usize = 0;
    while bi < branches.len()
        invariant
            bi <= branches@.len(),
            children@.len() == bi,
            forall|i: int| 0 <= i < bi ==> (#[trigger] children@[i]).0 == branches@[i].0,
            forall|i: int|
                0 <= i < bi ==> (#[trigger] children@[i]).1.wf(cfg.flop, cfg.initial_stack as int),
            forall|i: int|
                0 <= i < bi && (#[trigger] children@[i]).1.spec_is_player() ==> ((
                children@[i].1.children@[0].0 == Action::Fold) <==> !spec_is_check_like(
                    children@[i].0,
                )),
            forall|i: int|
                0 <= i < bi ==> {
                    let ch = #[trigger] children@[i];
                    &&& ch.1.turn == turn
                    &&& ch.1.river == river
                    &&& ch.1.player == branches@[i].1
                    &&& ch.1.amount == spec_child_amount(
                        amount as int,
                        if code == 0 { bet0 as int } else { bet1 as int },
                        if code == 0 { bet1 as int } else { bet0 as int },
                        ch.0,
                    )
                },
            ms as nat == sat64(
                72 * branches@.len() + spec_children_struct_mem(children@, bi as int),
            ),
            ma as nat == sat64(
                8 * branches@.len() * (if code == 0 { h0 } else { h1 })
                    + spec_children_array_mem(children@, bi as int, h0, h1),
            ),
        decreases branches@.len() - bi,
    {
        let (action, next) = branches[bi];
        let bumps = match action {
            Action::Call => true,
            Action::Bet(_) => true,
            Action::Raise(_) => true,
            Action::AllIn => true,
            _ => false,
        };
        let child_amount = if bumps {
            amount + bet_diff
        } else {
            amount
        };
        let (child, cms, cma) = if next == 0x100 || next == 0x300 || next == 0x301 {
            let leaf = PostFlopNode {
                player: next,
                turn,
                river,
                amount: child_amount,
                children: Vec::new(),
                iso_chances: Vec::new(),
            };
            (leaf, 0u64, 0u64)
        } else if next == 0xff {
            build_node(
                cfg,
                hands,
                0xff,
                turn,
                river,
                child_amount,
                action,
                0,
                0,
                0,
                allin,
            )
        } else {
            // the opponent acts next
            let (nb0, nb1, nnb, nallin) = match action {
                Action::Check => (bet0, bet1, num_bet, allin),
                Action::Call => (ob, ob, num_bet, allin),
                Action::Bet(sz) => {
                    if code == 0 {
                        (sz, bet1, num_bet + 1, allin)
                    } else {
                        (bet0, sz, num_bet + 1, allin)
                    }
                },
                Action::Raise(sz) => {
                    if code == 0 {
                        (sz, bet1, num_bet + 1, allin)
                    } else {
                        (bet0, sz, num_bet + 1, allin)
                    }
                },
                Action::AllIn => {
                    let full = pb + (cfg.initial_stack - amount);
                    if code == 0 {
                        (full, bet1, num_bet + 1, true)
                    } else {
                        (bet0, full, num_bet + 1, true)
                    }
                },
                _ => (bet0, bet1, num_bet, allin),
            };
            build_node(
                cfg,
                hands,
                next,
                turn,
                river,
                child_amount,
                action,
                nb0,
                nb1,
                nnb,
                nallin,
            )
        };
        proof {
            lemma_sat_compose(
                72 * branches@.len() + spec_children_struct_mem(children@, bi as int),
                spec_struct_mem(child),
            );
            lemma_sat_compose(
                8 * branches@.len() * (if code == 0 { h0 } else { h1 })
                    + spec_children_array_mem(children@, bi as int, h0, h1),
                spec_array_mem(child, h0, h1),
            );
            lemma_children_struct_mem_push(children@, (action, child), bi as int);
            lemma_children_array_mem_push(children@, (action, child), bi as int, h0, h1);
        }
        ms = sat_add64(ms, cms);
        ma = sat_add64(ma, cma);
        children.push((action, child));
        bi = bi + 1;
    }
    proof {
        assert(children@[0].0 == branches@[0].0);
        if !spec_is_check_like(last_action) {
            assert(children@[1].0 == branches@[1].0);
        }
        lemma_children_actions_mirror(
            children@,
            branches@,
            cfg,
            code,
            turn,
            river,
            amount,
            bet0,
            bet1,
            num_bet,
            allin,
            last_action,
        );
    }
    let n = PostFlopNode {
        player: code,
        turn,
        river,
        amount,
        children,
        iso_chances: Vec::new(),
    };
    proof {
        assert(child_actions_strictly_sorted(n.children@));
    }
    (n, ms, ma)
}

} // verus!
