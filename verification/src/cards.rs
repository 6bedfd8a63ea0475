//! Card primitives: cards are integers in [0, 52) encoded as `rank * 4 + suit`
//! (ranks 0..13 stand for 2..A, suits 0..4 for clubs, diamonds, hearts,
//! spades), plus text parsing and printing of flops and the triangular
//! index of (turn, river) boards.

use vstd::prelude::*;
use vstd::string::StringSliceAdditionalSpecFns;

verus! {

/// Sentinel for a board card that has not been dealt yet.
pub const NOT_DEALT: u8 = 0xff;

pub open spec fn is_card(c: u8) -> bool {
    c < 52
}

pub open spec fn spec_rank(c: u8) -> u8 {
    c / 4
}

pub open spec fn spec_suit(c: u8) -> u8 {
    c % 4
}

/// Rank encoded by an ASCII byte, or -1 when the byte is not a rank character.
pub open spec fn spec_rank_of_byte(b: u8) -> int {
    if b == 65 {  // 'A'
        12
    } else if b == 75 {  // 'K'
        11
    } else if b == 81 {  // 'Q'
        10
    } else if b == 74 {  // 'J'
        9
    } else if b == 84 {  // 'T'
        8
    } else if 50 <= b && b <= 57 {  // '2' ..= '9'
        b - 50
    } else {
        -1
    }
}

/// Suit encoded by an ASCII byte, or -1 when the byte is not a suit character.
pub open spec fn spec_suit_of_byte(b: u8) -> int {
    if b == 115 {  // 's'
        3
    } else if b == 104 {  // 'h'
        2
    } else if b == 100 {  // 'd'
        1
    } else if b == 99 {  // 'c'
        0
    } else {
        -1
    }
}

/// Card encoded by a two-byte token, or -1 when the token is invalid.
pub open spec fn spec_card_of_bytes(r: u8, s: u8) -> int {
    if spec_rank_of_byte(r) < 0 || spec_suit_of_byte(s) < 0 {
        -1
    } else {
        spec_rank_of_byte(r) * 4 + spec_suit_of_byte(s)
    }
}

pub open spec fn is_ws_byte(b: u8) -> bool {
    b == 32 || b == 9 || b == 10 || b == 12 || b == 13
}

/// First position at or after `i` holding a non-whitespace byte (or the end).
pub open spec fn spec_skip_ws(s: Seq<u8>, i: int) -> int
    decreases s.len() - i,
{
    if 0 <= i && i < s.len() && is_ws_byte(s[i]) {
        spec_skip_ws(s, i + 1)
    } else {
        i
    }
}

/// Card starting at byte position `i`, or -1 when out of range or invalid.
pub open spec fn spec_card_at(s: Seq<u8>, i: int) -> int {
    if 0 <= i && i + 2 <= s.len() {
        spec_card_of_bytes(s[i], s[i + 1])
    } else {
        -1
    }
}

/// The three cards of a flop string in input order: one two-byte token,
/// then two more, each preceded by optional whitespace, with nothing after.
pub open spec fn spec_parse_three(s: Seq<u8>) -> Option<(u8, u8, u8)> {
    let c0 = spec_card_at(s, 0);
    let i1 = spec_skip_ws(s, 2);
    let c1 = spec_card_at(s, i1);
    let i2 = spec_skip_ws(s, i1 + 2);
    let c2 = spec_card_at(s, i2);
    if c0 < 0 || c1 < 0 || c2 < 0 {
        None
    } else if i2 + 2 != s.len() {
        None
    } else {
        Some((c0 as u8, c1 as u8, c2 as u8))
    }
}

pub open spec fn spec_sort3(a: u8, b: u8, c: u8) -> (u8, u8, u8) {
    if a <= b && a <= c {
        if b <= c { (a, b, c) } else { (a, c, b) }
    } else if b <= a && b <= c {
        if a <= c { (b, a, c) } else { (b, c, a) }
    } else {
        if a <= b { (c, a, b) } else { (c, b, a) }
    }
}

/// What a valid flop string denotes: its three cards sorted ascending,
/// provided they are pairwise distinct.
pub open spec fn spec_flop_from_bytes(s: Seq<u8>) -> Option<(u8, u8, u8)> {
    match spec_parse_three(s) {
        None => None,
        Some((a, b, c)) => {
            let (x, y, z) = spec_sort3(a, b, c);
            if x == y || y == z {
                None
            } else {
                Some((x, y, z))
            }
        },
    }
}

fn skip_ws(s: &Vec<u8>, i: usize) -> (r: usize)
    requires
        i <= s@.len(),
    ensures
        r == spec_skip_ws(s@, i as int),
        i <= r <= s@.len(),
    decreases s@.len() - i,
{
    if i < s.len() {
        let b = s[i];
        if b == 32 || b == 9 || b == 10 || b == 12 || b == 13 {
            return skip_ws(s, i + 1);
        }
    }
    i
}

fn card_at(s: &Vec<u8>, i: usize) -> (r: Option<u8>)
    ensures
        match r {
            Some(c) => spec_card_at(s@, i as int) == c && is_card(c),
            None => spec_card_at(s@, i as int) < 0,
        },
{
    if i < s.len() && i + 1 < s.len() {
        let rb = s[i];
        let sb = s[i + 1];
        let rank: u8 = if rb == 65 {
            12
        } else if rb == 75 {
            11
        } else if rb == 81 {
            10
        } else if rb == 74 {
            9
        } else if rb == 84 {
            8
        } else if 50 <= rb && rb <= 57 {
            rb - 50
        } else {
            return None;
        };
        let suit: u8 = if sb == 115 {
            3
        } else if sb == 104 {
            2
        } else if sb == 100 {
            1
        } else if sb == 99 {
            0
        } else {
            return None;
        };
        Some(rank * 4 + suit)
    } else {
        None
    }
}

/// Parses an optionally whitespace-separated flop string such as `"2c 3d 4h"`
/// into the sorted array of its three distinct cards.
pub fn flop_from_str(s: &str) -> (r: Result<[u8; 3], String>)
    ensures
        match r {
            Ok(f) => spec_flop_from_bytes(s.spec_bytes()) == Some((f[0], f[1], f[2]))
                && f[0] < f[1] < f[2] < 52,
            Err(_) => spec_flop_from_bytes(s.spec_bytes()) is None,
        },
{
    let bytes = s.as_bytes_vec();
    let c0 = match card_at(&bytes, 0) {
        Some(c) => c,
        None => {
            return Err("parse failed".to_owned());
        },
    };
    let i1 = skip_ws(&bytes, if bytes.len() < 2 { bytes.len() } else { 2 });
    assert(spec_skip_ws(bytes@, 2) == i1);
    let c1 = match card_at(&bytes, i1) {
        Some(c) => c,
        None => {
            return Err("parse failed".to_owned());
        },
    };
    let i2 = skip_ws(&bytes, if bytes.len() < i1 + 2 { bytes.len() } else { i1 + 2 });
    assert(spec_skip_ws(bytes@, i1 + 2) == i2);
    let c2 = match card_at(&bytes, i2) {
        Some(c) => c,
        None => {
            return Err("parse failed".to_owned());
        },
    };
    if i2 + 2 != bytes.len() {
        return Err("expected three cards".to_owned());
    }
    let (x, y, z) = sort3(c0, c1, c2);
    if x == y || y == z {
        return Err("cards must be unique".to_owned());
    }
    Ok([x, y, z])
}

fn sort3(a: u8, b: u8, c: u8) -> (r: (u8, u8, u8))
    ensures
        r == spec_sort3(a, b, c),
{
    if a <= b && a <= c {
        if b <= c { (a, b, c) } else { (a, c, b) }
    } else if b <= a && b <= c {
        if a <= c { (b, a, c) } else { (b, c, a) }
    } else {
        if a <= b { (c, a, b) } else { (c, b, a) }
    }
}

/// ASCII rank character of a card.
pub open spec fn spec_rank_byte(c: u8) -> u8 {
    let r = spec_rank(c);
    if r == 12 {
        65
    } else if r == 11 {
        75
    } else if r == 10 {
        81
    } else if r == 9 {
        74
    } else if r == 8 {
        84
    } else {
        (r + 50) as u8
    }
}

/// ASCII suit character of a card.
pub open spec fn spec_suit_byte(c: u8) -> u8 {
    let s = spec_suit(c);
    if s == 3 {
        115
    } else if s == 2 {
        104
    } else if s == 1 {
        100
    } else {
        99
    }
}

/// Canonical six-byte text of a flop: the three two-byte tokens, no spaces.
pub open spec fn spec_flop_bytes(a: u8, b: u8, c: u8) -> Seq<u8> {
    seq![
        spec_rank_byte(a),
        spec_suit_byte(a),
        spec_rank_byte(b),
        spec_suit_byte(b),
        spec_rank_byte(c),
        spec_suit_byte(c),
    ]
}

fn card_bytes(c: u8) -> (r: (u8, u8))
    requires
        is_card(c),
    ensures
        r.0 == spec_rank_byte(c),
        r.1 == spec_suit_byte(c),
{
    let rank = c / 4;
    let suit = c % 4;
    let rb: u8 = if rank == 12 {
        65
    } else if rank == 11 {
        75
    } else if rank == 10 {
        81
    } else if rank == 9 {
        74
    } else if rank == 8 {
        84
    } else {
        rank + 50
    };
    let sb: u8 = if suit == 3 {
        115
    } else if suit == 2 {
        104
    } else if suit == 1 {
        100
    } else {
        99
    };
    (rb, sb)
}

/// Canonical text of a flop, as bytes (always ASCII).
pub fn flop_to_bytes(flop: &[u8; 3]) -> (r: Vec<u8>)
    requires
        is_card(flop[0]),
        is_card(flop[1]),
        is_card(flop[2]),
    ensures
        r@ == spec_flop_bytes(flop[0], flop[1], flop[2]),
{
    let mut out: Vec<u8> = Vec::new();
    let (r0, s0) = card_bytes(flop[0]);
    let (r1, s1) = card_bytes(flop[1]);
    let (r2, s2) = card_bytes(flop[2]);
    out.push(r0);
    out.push(s0);
    out.push(r1);
    out.push(s1);
    out.push(r2);
    out.push(s2);
    proof {
        assert(out@ =~= spec_flop_bytes(flop[0], flop[1], flop[2]));
    }
    out
}

proof fn lemma_card_bytes_invert(c: u8)
    requires
        is_card(c),
    ensures
        spec_rank_of_byte(spec_rank_byte(c)) == spec_rank(c),
        spec_suit_of_byte(spec_suit_byte(c)) == spec_suit(c),
        spec_card_of_bytes(spec_rank_byte(c), spec_suit_byte(c)) == c,
        !is_ws_byte(spec_rank_byte(c)),
{
}

/// Printing a strictly sorted flop and parsing the text back yields the
/// same flop: the parser inverts the printer on every valid flop.
pub proof fn lemma_flop_round_trip(a: u8, b: u8, c: u8)
    requires
        a < b < c < 52,
    ensures
        spec_flop_from_bytes(spec_flop_bytes(a, b, c)) == Some((a, b, c)),
{
    let s = spec_flop_bytes(a, b, c);
    lemma_card_bytes_invert(a);
    lemma_card_bytes_invert(b);
    lemma_card_bytes_invert(c);
    assert(spec_card_at(s, 0) == a);
    assert(spec_skip_ws(s, 2) == 2);
    assert(spec_card_at(s, 2) == b);
    assert(spec_skip_ws(s, 4) == 4);
    assert(spec_card_at(s, 4) == c);
    assert(spec_parse_three(s) == Some((a, b, c)));
}

/// Triangular index of an unordered pair of distinct board cards.
pub open spec fn spec_board_index(turn: u8, river: u8) -> int {
    let t = if turn <= river { turn as int } else { river as int };
    let r = if turn <= river { river as int } else { turn as int };
    t * (101 - t) / 2 + r - 1
}

proof fn lemma_board_index_bound(t: int, r: int)
    by (nonlinear_arith)
    requires
        0 <= t < r < 52,
    ensures
        0 <= t * (101 - t) / 2 + r - 1 < 1326,
{
}

proof fn lemma_tri_gap(a: int, b: int)
    by (nonlinear_arith)
    requires
        0 <= a < b <= 50,
    ensures
        b * (101 - b) >= a * (101 - a) + 102 - 2 * b,
{
}

/// Distinct sorted (turn, river) pairs land in distinct table slots.
pub proof fn lemma_board_index_injective(t1: u8, r1: u8, t2: u8, r2: u8)
    requires
        t1 < r1 < 52,
        t2 < r2 < 52,
        !(t1 == t2 && r1 == r2),
    ensures
        spec_board_index(t1, r1) != spec_board_index(t2, r2),
{
    if t1 != t2 {
        let (a, ra, b, rb) = if t1 < t2 {
            (t1 as int, r1 as int, t2 as int, r2 as int)
        } else {
            (t2 as int, r2 as int, t1 as int, r1 as int)
        };
        let xa = a * (101 - a);
        let xb = b * (101 - b);
        lemma_tri_gap(a, b);
        vstd::arithmetic::div_mod::lemma_hoist_over_denominator(xa, 51 - b, 2);
        vstd::arithmetic::div_mod::lemma_div_is_ordered(xa + (51 - b) * 2, xb, 2);
        assert(xb / 2 >= xa / 2 + 51 - b);
        assert(xb / 2 + rb - 1 > xa / 2 + ra - 1);
    }
}

/// The triangular index of any two distinct cards lands in the table.
pub proof fn lemma_board_index_range(turn: u8, river: u8)
    requires
        turn < 52,
        river < 52,
        turn != river,
    ensures
        0 <= spec_board_index(turn, river) < 1326,
{
    if turn <= river {
        lemma_board_index_bound(turn as int, river as int);
    } else {
        lemma_board_index_bound(river as int, turn as int);
    }
}

/// Maps a (turn, river) pair, in either order, to its slot in the flat
/// hand-strength table.
pub fn board_index(turn: u8, river: u8) -> (r: usize)
    requires
        is_card(turn),
        is_card(river),
        turn != river,
    ensures
        r == spec_board_index(turn, river),
        r < 1326,
{
    let (t, rv): (u64, u64) = if turn <= river {
        (turn as u64, river as u64)
    } else {
        (river as u64, turn as u64)
    };
    proof {
        lemma_board_index_bound(t as int, rv as int);
    }
    (t * (101 - t) / 2 + rv - 1) as usize
}

} // verus!
