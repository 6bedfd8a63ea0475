//! Seven-card hand ranking. Scores are positive integers ordered exactly as
//! poker hand categories order hands: a greater score beats a smaller one,
//! equal scores tie. Zero is therefore free to serve as the "conflicts with
//! the board" sentinel in the strength tables. The ranking is computed
//! in-crate; the solver only ever compares scores of hands on one board.

use vstd::prelude::*;

verus! {

/// 13^5, the number of five-digit base-13 tiebreak codes: scores are
/// `1 + category * TIEBREAK_SPAN + kicker code`.
pub const TIEBREAK_SPAN: u32 = 371293;

/// One when the condition holds, for counting over the seven fixed slots.
pub open spec fn cnt1(b: bool) -> int {
    if b {
        1
    } else {
        0
    }
}

/// How many of the seven cards have rank `r`.
pub open spec fn spec_count_rank(cards: [u8; 7], r: int) -> int {
    cnt1(cards[0] / 4 == r) + cnt1(cards[1] / 4 == r) + cnt1(cards[2] / 4 == r) + cnt1(
        cards[3] / 4 == r,
    ) + cnt1(cards[4] / 4 == r) + cnt1(cards[5] / 4 == r) + cnt1(cards[6] / 4 == r)
}

/// How many of the seven cards have suit `s`.
pub open spec fn spec_count_suit(cards: [u8; 7], s: int) -> int {
    cnt1(cards[0] % 4 == s) + cnt1(cards[1] % 4 == s) + cnt1(cards[2] % 4 == s) + cnt1(
        cards[3] % 4 == s,
    ) + cnt1(cards[4] % 4 == s) + cnt1(cards[5] % 4 == s) + cnt1(cards[6] % 4 == s)
}

/// One of the seven cards is exactly `c`.
pub open spec fn spec_has_card(cards: [u8; 7], c: int) -> bool {
    cards[0] == c || cards[1] == c || cards[2] == c || cards[3] == c || cards[4] == c || cards[5]
        == c || cards[6] == c
}

/// Some card has rank `r`.
pub open spec fn spec_rank_present(cards: [u8; 7], r: int) -> bool {
    spec_count_rank(cards, r) > 0
}

/// Ranks `h-4 ..= h` all present: a straight with high rank `h`.
pub open spec fn spec_rank_run(cards: [u8; 7], h: int) -> bool {
    spec_rank_present(cards, h) && spec_rank_present(cards, h - 1) && spec_rank_present(
        cards,
        h - 2,
    ) && spec_rank_present(cards, h - 3) && spec_rank_present(cards, h - 4)
}

/// The wheel: ace playing low under 2 3 4 5.
pub open spec fn spec_rank_wheel(cards: [u8; 7]) -> bool {
    spec_rank_present(cards, 12) && spec_rank_present(cards, 0) && spec_rank_present(cards, 1)
        && spec_rank_present(cards, 2) && spec_rank_present(cards, 3)
}

pub open spec fn spec_has_straight(cards: [u8; 7]) -> bool {
    (exists|h: int| 4 <= h <= 12 && #[trigger] spec_rank_run(cards, h)) || spec_rank_wheel(cards)
}

/// Ranks `h-4 ..= h` all present in suit `s`.
pub open spec fn spec_suit_run(cards: [u8; 7], s: int, h: int) -> bool {
    spec_has_card(cards, 4 * h + s) && spec_has_card(cards, 4 * (h - 1) + s) && spec_has_card(
        cards,
        4 * (h - 2) + s,
    ) && spec_has_card(cards, 4 * (h - 3) + s) && spec_has_card(cards, 4 * (h - 4) + s)
}

pub open spec fn spec_suit_wheel(cards: [u8; 7], s: int) -> bool {
    spec_has_card(cards, 48 + s) && spec_has_card(cards, s) && spec_has_card(cards, 4 + s)
        && spec_has_card(cards, 8 + s) && spec_has_card(cards, 12 + s)
}

/// A straight whose five cards all wear suit `s`.
pub open spec fn spec_straight_in_suit(cards: [u8; 7], s: int) -> bool {
    (exists|h: int| 4 <= h <= 12 && #[trigger] spec_suit_run(cards, s, h)) || spec_suit_wheel(
        cards,
        s,
    )
}

pub open spec fn spec_has_flush(cards: [u8; 7]) -> bool {
    exists|s: int| 0 <= s < 4 && #[trigger] spec_count_suit(cards, s) >= 5
}

/// A straight flush: a straight in a suit that also has five cards.
pub open spec fn spec_has_straight_flush(cards: [u8; 7]) -> bool {
    exists|s: int|
        0 <= s < 4 && #[trigger] spec_count_suit(cards, s) >= 5 && spec_straight_in_suit(cards, s)
}

pub open spec fn spec_has_quads(cards: [u8; 7]) -> bool {
    exists|r: int| 0 <= r < 13 && #[trigger] spec_count_rank(cards, r) >= 4
}

pub open spec fn spec_has_full_house(cards: [u8; 7]) -> bool {
    exists|r1: int, r2: int|
        0 <= r1 < 13 && 0 <= r2 < 13 && r1 != r2 && #[trigger] spec_count_rank(cards, r1) >= 3
            && #[trigger] spec_count_rank(cards, r2) >= 2
}

pub open spec fn spec_has_trips(cards: [u8; 7]) -> bool {
    exists|r: int| 0 <= r < 13 && #[trigger] spec_count_rank(cards, r) >= 3
}

pub open spec fn spec_has_two_pair(cards: [u8; 7]) -> bool {
    exists|r1: int, r2: int|
        0 <= r1 < 13 && 0 <= r2 < 13 && r1 != r2 && #[trigger] spec_count_rank(cards, r1) >= 2
            && #[trigger] spec_count_rank(cards, r2) >= 2
}

pub open spec fn spec_has_pair(cards: [u8; 7]) -> bool {
    exists|r: int| 0 <= r < 13 && #[trigger] spec_count_rank(cards, r) >= 2
}

/// The hand's category when no flush is possible: quads, full house,
/// straight, trips, two pair, pair, high card.
pub open spec fn spec_offsuit_category(cards: [u8; 7]) -> int {
    if spec_has_quads(cards) {
        7
    } else if spec_has_full_house(cards) {
        6
    } else if spec_has_straight(cards) {
        4
    } else if spec_has_trips(cards) {
        3
    } else if spec_has_two_pair(cards) {
        2
    } else if spec_has_pair(cards) {
        1
    } else {
        0
    }
}

/// How many of the first `k` cards have rank `r`.
pub open spec fn spec_count_rank_upto(cards: [u8; 7], r: int, k: int) -> int
    decreases k,
{
    if k <= 0 {
        0
    } else {
        spec_count_rank_upto(cards, r, k - 1) + cnt1(cards[k - 1] / 4 == r)
    }
}

pub open spec fn spec_count_suit_upto(cards: [u8; 7], s: int, k: int) -> int
    decreases k,
{
    if k <= 0 {
        0
    } else {
        spec_count_suit_upto(cards, s, k - 1) + cnt1(cards[k - 1] % 4 == s)
    }
}

pub open spec fn spec_has_card_upto(cards: [u8; 7], c: int, k: int) -> bool
    decreases k,
{
    if k <= 0 {
        false
    } else {
        spec_has_card_upto(cards, c, k - 1) || cards[k - 1] == c
    }
}

/// Some entry of the list is the rank `r`.
pub open spec fn rank_in(s: Seq<u8>, r: int) -> bool {
    exists|u: int| 0 <= u < s.len() && s[u] == r
}

/// A card below 52 wears exactly one of the four suits.
proof fn lemma_slot_suit(c: u8)
    requires
        c < 52,
    ensures
        cnt1(c % 4 == 0) + cnt1(c % 4 == 1) + cnt1(c % 4 == 2) + cnt1(c % 4 == 3) == 1,
{
}

/// The four suit counts of seven cards always total seven.
proof fn lemma_suit_total(cards: [u8; 7])
    requires
        forall|i: int| 0 <= i < 7 ==> cards[i] < 52,
    ensures
        spec_count_suit(cards, 0) + spec_count_suit(cards, 1) + spec_count_suit(cards, 2)
            + spec_count_suit(cards, 3) == 7,
{
    lemma_slot_suit(cards[0]);
    lemma_slot_suit(cards[1]);
    lemma_slot_suit(cards[2]);
    lemma_slot_suit(cards[3]);
    lemma_slot_suit(cards[4]);
    lemma_slot_suit(cards[5]);
    lemma_slot_suit(cards[6]);
}

proof fn lemma_band(cat: int, code: int)
    by (nonlinear_arith)
    requires
        0 <= cat,
        0 <= code < 371293,
    ensures
        (cat * 371293 + code) / 371293 == cat,
{
}

/// After all seven cards are scanned, the partial histograms are the full
/// counting functions.
#[verifier::rlimit(100)]
proof fn lemma_histogram_bridge(cards: [u8; 7], rc: [u8; 13], sc: [u8; 4], cp: [bool; 52])
    requires
        forall|j: int| 0 <= j < 13 ==> rc[j] as int == spec_count_rank_upto(cards, j, 7),
        forall|j: int| 0 <= j < 4 ==> sc[j] as int == spec_count_suit_upto(cards, j, 7),
        forall|c: int| 0 <= c < 52 ==> cp[c] == spec_has_card_upto(cards, c, 7),
    ensures
        forall|j: int| 0 <= j < 13 ==> rc[j] as int == spec_count_rank(cards, j),
        forall|j: int| 0 <= j < 4 ==> sc[j] as int == spec_count_suit(cards, j),
        forall|c: int| 0 <= c < 52 ==> cp[c] == spec_has_card(cards, c),
{
    assert forall|j: int| 0 <= j < 13 implies rc[j] as int == spec_count_rank(cards, j) by {
        reveal_with_fuel(spec_count_rank_upto, 8);
    }
    assert forall|j: int| 0 <= j < 4 implies sc[j] as int == spec_count_suit(cards, j) by {
        reveal_with_fuel(spec_count_suit_upto, 8);
    }
    assert forall|c: int| 0 <= c < 52 implies cp[c] == spec_has_card(cards, c) by {
        reveal_with_fuel(spec_has_card_upto, 8);
    }
}

fn encode5(a: u8, b: u8, c: u8, d: u8, e: u8) -> (r: u32)
    requires
        a < 13,
        b < 13,
        c < 13,
        d < 13,
        e < 13,
    ensures
        r < 371293,
{
    ((((a as u32 * 13 + b as u32) * 13 + c as u32) * 13 + d as u32) * 13 + e as u32)
}

/// Highest straight made of cards of the one suit `s`, if any.
fn straight_in_suit(cp: &[bool; 52], s: u8, Ghost(cards): Ghost<[u8; 7]>) -> (r: Option<u8>)
    requires
        s < 4,
        forall|c: int| 0 <= c < 52 ==> cp[c] == spec_has_card(cards, c),
    ensures
        r is Some <==> spec_straight_in_suit(cards, s as int),
        r matches Some(h) ==> h < 13,
{
    let mut h: u8 = 12;
    loop
        invariant
            s < 4,
            forall|c: int| 0 <= c < 52 ==> cp[c] == spec_has_card(cards, c),
            4 <= h <= 12,
            forall|h2: int| h < h2 <= 12 ==> !spec_suit_run(cards, s as int, h2),
        ensures
            forall|c: int| 0 <= c < 52 ==> cp[c] == spec_has_card(cards, c),
            forall|h2: int| 4 <= h2 <= 12 ==> !spec_suit_run(cards, s as int, h2),
        decreases h,
    {
        let su = s as usize;
        if cp[4 * h as usize + su] && cp[4 * (h as usize - 1) + su] && cp[4 * (h as usize - 2)
            + su] && cp[4 * (h as usize - 3) + su] && cp[4 * (h as usize - 4) + su] {
            proof {
                assert(spec_suit_run(cards, s as int, h as int));
            }
            return Some(h);
        }
        if h == 4 {
            break;
        }
        h = h - 1;
    }
    if cp[48 + s as usize] && cp[s as usize] && cp[4 + s as usize] && cp[8 + s as usize] && cp[12
        + s as usize] {
        return Some(3);
    }
    None
}

/// Highest straight over the rank counts, if any.
fn straight_high_ranks(rc: &[u8; 13], Ghost(cards): Ghost<[u8; 7]>) -> (r: Option<u8>)
    requires
        forall|t: int| 0 <= t < 13 ==> rc[t] as int == spec_count_rank(cards, t),
    ensures
        r is Some <==> spec_has_straight(cards),
        r matches Some(h) ==> h < 13,
{
    let mut h: u8 = 12;
    loop
        invariant
            forall|t: int| 0 <= t < 13 ==> rc[t] as int == spec_count_rank(cards, t),
            4 <= h <= 12,
            forall|h2: int| h < h2 <= 12 ==> !spec_rank_run(cards, h2),
        ensures
            forall|t: int| 0 <= t < 13 ==> rc[t] as int == spec_count_rank(cards, t),
            forall|h2: int| 4 <= h2 <= 12 ==> !spec_rank_run(cards, h2),
        decreases h,
    {
        let hu = h as usize;
        if rc[hu] > 0 && rc[hu - 1] > 0 && rc[hu - 2] > 0 && rc[hu - 3] > 0 && rc[hu - 4] > 0 {
            proof {
                assert(spec_rank_run(cards, h as int));
            }
            return Some(h);
        }
        if h == 4 {
            break;
        }
        h = h - 1;
    }
    if rc[12] > 0 && rc[0] > 0 && rc[1] > 0 && rc[2] > 0 && rc[3] > 0 {
        return Some(3);
    }
    None
}

/// The ranks present in `mask`, highest first.
fn ranks_desc(mask: u16) -> (r: Vec<u8>)
    ensures
        forall|i: int| 0 <= i < r@.len() ==> r@[i] < 13,
{
    let mut out: Vec<u8> = Vec::new();
    let mut k: u8 = 13;
    while k > 0
        invariant
            k <= 13,
            forall|i: int| 0 <= i < out@.len() ==> out@[i] < 13,
        decreases k,
    {
        k = k - 1;
        if (mask >> k) & 1 == 1 {
            out.push(k);
        }
    }
    out
}

/// Tiebreak code of the best five ranks in `mask`, highest first,
/// padded with zero digits when fewer than five are present.
fn top5_code(mask: u16) -> (r: u32)
    ensures
        r < 371293,
{
    let desc = ranks_desc(mask);
    let mut digits: [u8; 5] = [0, 0, 0, 0, 0];
    let mut i: usize = 0;
    while i < 5 && i < desc.len()
        invariant
            i <= 5,
            forall|j: int| 0 <= j < 5 ==> digits[j] < 13,
            forall|j: int| 0 <= j < desc@.len() ==> desc@[j] < 13,
        decreases 5 - i,
    {
        digits[i] = desc[i];
        i = i + 1;
    }
    encode5(digits[0], digits[1], digits[2], digits[3], digits[4])
}

/// With the trips and pairs lists sound and complete and no quads, the
/// negative category facts follow from the lists' sizes.
proof fn lemma_no_full_house(cards: [u8; 7], trips: Seq<u8>, pairs: Seq<u8>)
    requires
        forall|t: int| 0 <= t < 13 ==> spec_count_rank(cards, t) < 4,
        forall|u: int|
            0 <= u < trips.len() ==> (#[trigger] trips[u]) < 13 && spec_count_rank(
                cards,
                trips[u] as int,
            ) == 3,
        forall|t: int| 0 <= t < 13 && spec_count_rank(cards, t) == 3 ==> rank_in(trips, t),
        forall|t: int| 0 <= t < 13 && spec_count_rank(cards, t) == 2 ==> rank_in(pairs, t),
        forall|u: int, v: int| 0 <= u < v < trips.len() ==> trips[u] > trips[v],
        trips.len() <= 1,
        trips.len() == 1 ==> pairs.len() == 0,
    ensures
        !spec_has_full_house(cards),
{
    if spec_has_full_house(cards) {
        let (r1, r2) = choose|r1: int, r2: int|
            0 <= r1 < 13 && 0 <= r2 < 13 && r1 != r2 && #[trigger] spec_count_rank(cards, r1)
                >= 3 && #[trigger] spec_count_rank(cards, r2) >= 2;
        assert(spec_count_rank(cards, r1) == 3);
        assert(rank_in(trips, r1));
        let u1 = choose|u: int| 0 <= u < trips.len() && trips[u] == r1;
        if spec_count_rank(cards, r2) == 3 {
            assert(rank_in(trips, r2));
            let u2 = choose|u: int| 0 <= u < trips.len() && trips[u] == r2;
            assert(u1 == u2);
        } else {
            assert(rank_in(pairs, r2));
            let u2 = choose|u: int| 0 <= u < pairs.len() && pairs[u] == r2;
        }
    }
}

proof fn lemma_no_trips(cards: [u8; 7], trips: Seq<u8>)
    requires
        forall|t: int| 0 <= t < 13 ==> spec_count_rank(cards, t) < 4,
        forall|t: int| 0 <= t < 13 && spec_count_rank(cards, t) == 3 ==> rank_in(trips, t),
        trips.len() == 0,
    ensures
        !spec_has_trips(cards),
{
    if spec_has_trips(cards) {
        let t = choose|t: int| 0 <= t < 13 && #[trigger] spec_count_rank(cards, t) >= 3;
        assert(rank_in(trips, t));
        let u = choose|u: int| 0 <= u < trips.len() && trips[u] == t;
    }
}

proof fn lemma_no_two_pair(cards: [u8; 7], trips: Seq<u8>, pairs: Seq<u8>)
    requires
        forall|t: int| 0 <= t < 13 ==> spec_count_rank(cards, t) < 4,
        forall|t: int| 0 <= t < 13 && spec_count_rank(cards, t) == 3 ==> rank_in(trips, t),
        forall|t: int| 0 <= t < 13 && spec_count_rank(cards, t) == 2 ==> rank_in(pairs, t),
        trips.len() == 0,
        pairs.len() <= 1,
    ensures
        !spec_has_two_pair(cards),
{
    if spec_has_two_pair(cards) {
        let (r1, r2) = choose|r1: int, r2: int|
            0 <= r1 < 13 && 0 <= r2 < 13 && r1 != r2 && #[trigger] spec_count_rank(cards, r1)
                >= 2 && #[trigger] spec_count_rank(cards, r2) >= 2;
        assert(spec_count_rank(cards, r1) == 2 || spec_count_rank(cards, r1) == 3);
        assert(spec_count_rank(cards, r2) == 2 || spec_count_rank(cards, r2) == 3);
        if spec_count_rank(cards, r1) == 3 {
            assert(rank_in(trips, r1));
            let u = choose|u: int| 0 <= u < trips.len() && trips[u] == r1;
        } else if spec_count_rank(cards, r2) == 3 {
            assert(rank_in(trips, r2));
            let u = choose|u: int| 0 <= u < trips.len() && trips[u] == r2;
        } else {
            assert(rank_in(pairs, r1));
            assert(rank_in(pairs, r2));
            let u1 = choose|u: int| 0 <= u < pairs.len() && pairs[u] == r1;
            let u2 = choose|u: int| 0 <= u < pairs.len() && pairs[u] == r2;
            assert(u1 == u2);
        }
    }
}

proof fn lemma_no_pair(cards: [u8; 7], trips: Seq<u8>, pairs: Seq<u8>)
    requires
        forall|t: int| 0 <= t < 13 ==> spec_count_rank(cards, t) < 4,
        forall|t: int| 0 <= t < 13 && spec_count_rank(cards, t) == 3 ==> rank_in(trips, t),
        forall|t: int| 0 <= t < 13 && spec_count_rank(cards, t) == 2 ==> rank_in(pairs, t),
        trips.len() == 0,
        pairs.len() == 0,
    ensures
        !spec_has_pair(cards),
{
    if spec_has_pair(cards) {
        let t = choose|t: int| 0 <= t < 13 && #[trigger] spec_count_rank(cards, t) >= 2;
        if spec_count_rank(cards, t) == 3 {
            assert(rank_in(trips, t));
            let u = choose|u: int| 0 <= u < trips.len() && trips[u] == t;
        } else {
            assert(rank_in(pairs, t));
            let u = choose|u: int| 0 <= u < pairs.len() && pairs[u] == t;
        }
    }
}

/// Scans the rank counts: the first rank holding four, and the ranks
/// holding exactly three and exactly two, each highest first.
#[verifier::loop_isolation(false)]
#[verifier::rlimit(100)]
fn multiplicity_scan(rank_count: &[u8; 13], Ghost(cards): Ghost<[u8; 7]>) -> (res: (
    Option<u8>,
    Vec<u8>,
    Vec<u8>,
))
    requires
        forall|t: int| 0 <= t < 13 ==> rank_count[t] as int == spec_count_rank(cards, t),
    ensures
        res.0 matches Some(q) ==> q < 13 && spec_count_rank(cards, q as int) >= 4,
        res.0 is None ==> forall|t: int| 0 <= t < 13 ==> spec_count_rank(cards, t) < 4,
        forall|u: int|
            0 <= u < res.1@.len() ==> (#[trigger] res.1@[u]) < 13 && spec_count_rank(
                cards,
                res.1@[u] as int,
            ) == 3,
        forall|t: int| 0 <= t < 13 && spec_count_rank(cards, t) == 3 ==> rank_in(res.1@, t),
        forall|u: int, v: int| 0 <= u < v < res.1@.len() ==> res.1@[u] > res.1@[v],
        forall|u: int|
            0 <= u < res.2@.len() ==> (#[trigger] res.2@[u]) < 13 && spec_count_rank(
                cards,
                res.2@[u] as int,
            ) == 2,
        forall|t: int| 0 <= t < 13 && spec_count_rank(cards, t) == 2 ==> rank_in(res.2@, t),
        forall|u: int, v: int| 0 <= u < v < res.2@.len() ==> res.2@[u] > res.2@[v],
{
    // highest rank first
    let mut quad: Option<u8> = None;
    let mut trips: Vec<u8> = Vec::new();
    let mut pairs: Vec<u8> = Vec::new();
    let mut k: u8 = 13;
    while k > 0
        invariant
            k <= 13,
            quad matches Some(q) ==> q < 13 && spec_count_rank(cards, q as int) >= 4,
            quad is None ==> forall|t: int|
                k <= t < 13 ==> spec_count_rank(cards, t) < 4,
            forall|u: int|
                0 <= u < trips@.len() ==> (#[trigger] trips@[u]) < 13 && spec_count_rank(
                    cards,
                    trips@[u] as int,
                ) == 3,
            forall|t: int| k <= t < 13 && spec_count_rank(cards, t) == 3 ==> rank_in(trips@, t),
            forall|u: int| 0 <= u < trips@.len() ==> trips@[u] >= k,
            forall|u: int, v: int| 0 <= u < v < trips@.len() ==> trips@[u] > trips@[v],
            forall|u: int|
                0 <= u < pairs@.len() ==> (#[trigger] pairs@[u]) < 13 && spec_count_rank(
                    cards,
                    pairs@[u] as int,
                ) == 2,
            forall|t: int| k <= t < 13 && spec_count_rank(cards, t) == 2 ==> rank_in(pairs@, t),
            forall|u: int| 0 <= u < pairs@.len() ==> pairs@[u] >= k,
            forall|u: int, v: int| 0 <= u < v < pairs@.len() ==> pairs@[u] > pairs@[v],
        decreases k,
    {
        k = k - 1;
        let ghost old_trips = trips@;
        let ghost old_pairs = pairs@;
        let c = rank_count[k as usize];
        if c >= 4 {
            if quad.is_none() {
                quad = Some(k);
            }
        } else if c == 3 {
            trips.push(k);
        } else if c == 2 {
            pairs.push(k);
        }
        proof {
            assert forall|t: int|
                k <= t < 13 && spec_count_rank(cards, t) == 3 implies rank_in(trips@, t) by {
                if t == k {
                    assert(trips@[trips@.len() - 1] == t);
                } else {
                    let w = choose|u: int| 0 <= u < old_trips.len() && old_trips[u] == t;
                    assert(trips@[w] == t);
                }
            }
            assert forall|t: int|
                k <= t < 13 && spec_count_rank(cards, t) == 2 implies rank_in(pairs@, t) by {
                if t == k {
                    assert(pairs@[pairs@.len() - 1] == t);
                } else {
                    let w = choose|u: int| 0 <= u < old_pairs.len() && old_pairs[u] == t;
                    assert(pairs@[w] == t);
                }
            }
        }
    }

    (quad, trips, pairs)
}

/// Band of a hand with no flush: the category over the rank counts, with
/// the kicker code below it.
#[verifier::loop_isolation(false)]
#[verifier::rlimit(100)]
fn offsuit_rank(rank_count: &[u8; 13], rank_mask: u16, Ghost(cards): Ghost<[u8; 7]>) -> (r: u32)
    requires
        forall|t: int| 0 <= t < 13 ==> rank_count[t] as int == spec_count_rank(cards, t),
    ensures
        1 <= r <= 3341637,
        (r - 1) / 371293 == spec_offsuit_category(cards),
{
    let (quad, trips, pairs) = multiplicity_scan(rank_count, Ghost(cards));

    // the branch guards decide the category exactly; each step below first
    // settles the spec-level category, then returns its band
    if quad.is_some() {
        let q = quad.unwrap();
        proof {
            assert(spec_has_quads(cards));
            assert(spec_offsuit_category(cards) == 7);
        }
        // best kicker: highest present rank other than the quad rank
        let desc = ranks_desc(rank_mask);
        let mut kick: u8 = 0;
        let mut j: usize = 0;
        while j < desc.len()
            invariant
                kick < 13,
                forall|t: int| 0 <= t < desc@.len() ==> desc@[t] < 13,
            decreases desc@.len() - j,
        {
            if desc[j] != q {
                kick = desc[j];
                break;
            }
            j = j + 1;
        }
        let code = encode5(q, kick, 0, 0, 0);
        proof {
            lemma_band(7, code as int);
        }
        return 1 + 7 * TIEBREAK_SPAN + code;
    }
    proof {
        assert(!spec_has_quads(cards)) by {
            if spec_has_quads(cards) {
                let t = choose|t: int| 0 <= t < 13 && #[trigger] spec_count_rank(cards, t) >= 4;
            }
        }
    }

    if trips.len() >= 2 {
        let code = encode5(trips[0], trips[1], 0, 0, 0);
        proof {
            assert(spec_has_full_house(cards));
            assert(spec_offsuit_category(cards) == 6);
            lemma_band(6, code as int);
        }
        return 1 + 6 * TIEBREAK_SPAN + code;
    }
    if trips.len() == 1 && pairs.len() >= 1 {
        let code = encode5(trips[0], pairs[0], 0, 0, 0);
        proof {
            assert(spec_has_full_house(cards));
            assert(spec_offsuit_category(cards) == 6);
            lemma_band(6, code as int);
        }
        return 1 + 6 * TIEBREAK_SPAN + code;
    }
    proof {
        lemma_no_full_house(cards, trips@, pairs@);
    }

    match straight_high_ranks(rank_count, Ghost(cards)) {
        Some(h) => {
            let code = encode5(h, 0, 0, 0, 0);
            proof {
                assert(spec_offsuit_category(cards) == 4);
                lemma_band(4, code as int);
            }
            return 1 + 4 * TIEBREAK_SPAN + code;
        },
        None => {},
    }

    if trips.len() == 1 {
        let t0 = trips[0];
        let desc = ranks_desc(rank_mask);
        let mut kick1: u8 = 0;
        let mut kick2: u8 = 0;
        let mut found: usize = 0;
        let mut j: usize = 0;
        while j < desc.len()
            invariant
                found <= 2,
                kick1 < 13,
                kick2 < 13,
                forall|t: int| 0 <= t < desc@.len() ==> desc@[t] < 13,
            decreases desc@.len() - j,
        {
            if desc[j] != t0 && found < 2 {
                if found == 0 {
                    kick1 = desc[j];
                } else {
                    kick2 = desc[j];
                }
                found = found + 1;
            }
            j = j + 1;
        }
        let code = encode5(t0, kick1, kick2, 0, 0);
        proof {
            assert(spec_has_trips(cards));
            assert(spec_offsuit_category(cards) == 3);
            lemma_band(3, code as int);
        }
        return 1 + 3 * TIEBREAK_SPAN + code;
    }
    proof {
        lemma_no_trips(cards, trips@);
    }

    if pairs.len() >= 2 {
        let p0 = pairs[0];
        let p1 = pairs[1];
        let desc = ranks_desc(rank_mask);
        let mut kick: u8 = 0;
        let mut j: usize = 0;
        while j < desc.len()
            invariant
                kick < 13,
                forall|t: int| 0 <= t < desc@.len() ==> desc@[t] < 13,
            decreases desc@.len() - j,
        {
            if desc[j] != p0 && desc[j] != p1 {
                kick = desc[j];
                break;
            }
            j = j + 1;
        }
        let code = encode5(p0, p1, kick, 0, 0);
        proof {
            assert(spec_has_two_pair(cards));
            assert(spec_offsuit_category(cards) == 2);
            lemma_band(2, code as int);
        }
        return 1 + 2 * TIEBREAK_SPAN + code;
    }

    if pairs.len() == 1 {
        let p0 = pairs[0];
        let desc = ranks_desc(rank_mask);
        let mut kicks: [u8; 3] = [0, 0, 0];
        let mut found: usize = 0;
        let mut j: usize = 0;
        while j < desc.len()
            invariant
                found <= 3,
                forall|t: int| 0 <= t < 3 ==> kicks[t] < 13,
                forall|t: int| 0 <= t < desc@.len() ==> desc@[t] < 13,
            decreases desc@.len() - j,
        {
            if desc[j] != p0 && found < 3 {
                kicks[found] = desc[j];
                found = found + 1;
            }
            j = j + 1;
        }
        let code = encode5(p0, kicks[0], kicks[1], kicks[2], 0);
        proof {
            assert(spec_has_pair(cards));
            lemma_no_two_pair(cards, trips@, pairs@);
            assert(spec_offsuit_category(cards) == 1);
            lemma_band(1, code as int);
        }
        return 1 + 1 * TIEBREAK_SPAN + code;
    }

    let code = top5_code(rank_mask);
    proof {
        lemma_no_pair(cards, trips@, pairs@);
        assert(spec_offsuit_category(cards) == 0);
        lemma_band(0, code as int);
    }
    1 + code
}

/// Ranks the seven-card hand: `1 + category * TIEBREAK_SPAN + kickers`.
/// The category is pinned by the contract: a flush-bearing hand scores in
/// the flush band or, with a straight in its five-card suit, the straight
/// flush band; without a flush the band is exactly quads, full house,
/// straight, trips, two pair, pair or high card, in that order of strength.
#[verifier::loop_isolation(false)]
#[verifier::rlimit(100)]
pub fn rank7(cards: &[u8; 7]) -> (r: u32)
    requires
        forall|i: int| 0 <= i < 7 ==> cards[i] < 52,
    ensures
        1 <= r <= 3341637,
        spec_has_flush(*cards) ==> 1 + 5 * 371293 <= r,
        spec_has_straight_flush(*cards) ==> 1 + 8 * 371293 <= r,
        spec_has_flush(*cards) && !spec_has_straight_flush(*cards) ==> (r - 1) / 371293 == 5,
        !spec_has_flush(*cards) ==> (r - 1) / 371293 == spec_offsuit_category(*cards),
{
    let mut rank_count: [u8; 13] = [0; 13];
    let mut suit_count: [u8; 4] = [0; 4];
    let mut suit_ranks: [u16; 4] = [0; 4];
    let mut rank_mask: u16 = 0;
    let mut cp: [bool; 52] = [false; 52];

    let mut i: usize = 0;
    while i < 7
        invariant
            i <= 7,
            forall|j: int| 0 <= j < 13 ==> rank_count[j] <= i,
            forall|j: int| 0 <= j < 4 ==> suit_count[j] <= i,
            forall|j: int|
                0 <= j < 13 ==> rank_count[j] as int == spec_count_rank_upto(*cards, j, i as int),
            forall|j: int|
                0 <= j < 4 ==> suit_count[j] as int == spec_count_suit_upto(*cards, j, i as int),
            forall|c: int| 0 <= c < 52 ==> cp[c] == spec_has_card_upto(*cards, c, i as int),
        decreases 7 - i,
    {
        let c = cards[i];
        let rk = (c / 4) as usize;
        let st = (c % 4) as usize;
        rank_count[rk] = rank_count[rk] + 1;
        suit_count[st] = suit_count[st] + 1;
        suit_ranks[st] = suit_ranks[st] | (1u16 << ((c / 4) as u16));
        rank_mask = rank_mask | (1u16 << ((c / 4) as u16));
        cp[c as usize] = true;
        i = i + 1;
    }
    proof {
        lemma_histogram_bridge(*cards, rank_count, suit_count, cp);
    }

    // flush or straight flush
    let mut fs: u8 = 0;
    while fs < 4
        invariant
            fs <= 4,
            forall|s: int| 0 <= s < fs ==> spec_count_suit(*cards, s) < 5,
        decreases 4 - fs,
    {
        if suit_count[fs as usize] >= 5 {
            proof {
                assert(spec_count_suit(*cards, fs as int) >= 5);
                assert(spec_has_flush(*cards));
            }
            let m = suit_ranks[fs as usize];
            match straight_in_suit(&cp, fs, Ghost(*cards)) {
                Some(h) => {
                    let code = encode5(h, 0, 0, 0, 0);
                    proof {
                        assert(spec_has_straight_flush(*cards));
                        lemma_band(8, code as int);
                    }
                    return 1 + 8 * TIEBREAK_SPAN + code;
                },
                None => {
                    proof {
                        assert(!spec_has_straight_flush(*cards)) by {
                            if spec_has_straight_flush(*cards) {
                                let s2 = choose|s2: int|
                                    0 <= s2 < 4 && #[trigger] spec_count_suit(*cards, s2) >= 5
                                        && spec_straight_in_suit(*cards, s2);
                                lemma_suit_total(*cards);
                                assert(s2 == fs as int);
                                assert(spec_straight_in_suit(*cards, fs as int));
                            }
                        }
                    }
                    let code = top5_code(m);
                    proof {
                        lemma_band(5, code as int);
                    }
                    return 1 + 5 * TIEBREAK_SPAN + code;
                },
            }
        }
        fs = fs + 1;
    }
    proof {
        assert(!spec_has_flush(*cards)) by {
            if spec_has_flush(*cards) {
                let s2 = choose|s2: int| 0 <= s2 < 4 && #[trigger] spec_count_suit(*cards, s2)
                    >= 5;
                assert(spec_count_suit(*cards, s2) < 5);
            }
        }
    }

    offsuit_rank(&rank_count, rank_mask, Ghost(*cards))
}


} // verus!
