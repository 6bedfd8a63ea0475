//! Per-board hand-strength tables. For one (turn, river) board and one
//! player, the table lists the opponent's hand indices by nondecreasing
//! seven-card score (score 0 marks a hand that conflicts with the board),
//! together with, per player hand, the positions where the opponent's score
//! passes this hand's score. Showdown evaluation then reads winner, tie and
//! loser bands as index ranges of that one sorted order.

use vstd::prelude::*;

verus! {

pub open spec fn sorted_u64(s: Seq<u64>) -> bool {
    forall|i: int, j: int| 0 <= i <= j < s.len() ==> s[i] <= s[j]
}

/// Relies on std's `slice::sort_unstable`: it reorders the slice ascending
/// and keeps exactly the elements that were there.
#[verifier::external_body]
fn sort_u64(v: &mut Vec<u64>)
    ensures
        sorted_u64(final(v)@),
        final(v)@.to_multiset() == old(v)@.to_multiset(),
        final(v)@.len() == old(v)@.len(),
{
    v.sort_unstable();
}

/// First position of the sorted `keys` whose entry is at least `x`.
fn lower_bound(keys: &Vec<u64>, x: u64) -> (r: usize)
    requires
        sorted_u64(keys@),
    ensures
        r <= keys@.len(),
        forall|t: int| 0 <= t < r ==> keys@[t] < x,
        forall|t: int| r <= t < keys@.len() ==> keys@[t] >= x,
{
    let mut lo: usize = 0;
    let mut hi: usize = keys.len();
    while lo < hi
        invariant
            lo <= hi <= keys@.len(),
            sorted_u64(keys@),
            forall|t: int| 0 <= t < lo ==> keys@[t] < x,
            forall|t: int| hi <= t < keys@.len() ==> keys@[t] >= x,
        decreases hi - lo,
    {
        let mid = lo + (hi - lo) / 2;
        if keys[mid] < x {
            lo = mid + 1;
        } else {
            hi = mid;
        }
    }
    lo
}

proof fn lemma_key_decompose(s: int, j: int)
    by (nonlinear_arith)
    requires
        0 <= s,
        0 <= j < 0x100000000,
    ensures
        (s * 0x100000000 + j) % 0x100000000 == j,
        (s * 0x100000000 + j) / 0x100000000 == s,
{
}

proof fn lemma_div_lt(a: int, b: int)
    by (nonlinear_arith)
    requires
        0 <= a,
        a < b * 0x100000000,
    ensures
        a / 0x100000000 < b,
{
}

proof fn lemma_div_ge(a: int, b: int)
    by (nonlinear_arith)
    requires
        0 <= b,
        b * 0x100000000 <= a,
    ensures
        a / 0x100000000 >= b,
{
}

/// Strength table of one player against the opponent's hand list,
/// for one fully dealt board.
pub struct HandStrength {
    /// Opponent hand indices, by nondecreasing score.
    pub opponent_increasing_index: Vec<usize>,
    /// Number of leading entries whose score is zero (board conflicts).
    pub exclude_threshold: usize,
    /// Per player hand: first position whose score is not below this hand's.
    pub win_threshold: Vec<usize>,
    /// Per player hand: first position whose score exceeds this hand's.
    pub tie_threshold: Vec<usize>,
}

impl HandStrength {
    /// Shape well-formedness against the two hand-list sizes.
    pub open spec fn wf(&self, num_player: int, num_opp: int) -> bool {
        &&& self.opponent_increasing_index@.len() == num_opp
        &&& forall|t: int|
            0 <= t < num_opp ==> (#[trigger] self.opponent_increasing_index@[t]) < num_opp
        &&& self.exclude_threshold <= num_opp
        &&& self.win_threshold@.len() == num_player
        &&& self.tie_threshold@.len() == num_player
        &&& forall|i: int|
            0 <= i < num_player ==> (#[trigger] self.win_threshold@[i])
                <= self.tie_threshold@[i] <= num_opp
    }

    /// The table of a board that is never consulted.
    pub fn empty() -> (r: HandStrength)
        ensures
            r.wf(0, 0),
    {
        HandStrength {
            opponent_increasing_index: Vec::new(),
            exclude_threshold: 0,
            win_threshold: Vec::new(),
            tie_threshold: Vec::new(),
        }
    }

    /// Score of the opponent hand listed at position `t`.
    pub open spec fn score_at(&self, os: Seq<u32>, t: int) -> u32 {
        os[self.opponent_increasing_index@[t] as int]
    }
}

/// Everything `build_strength_one` establishes, as one named relation
/// between a table and the two score vectors it was built from: sorted
/// permutation with index tiebreak, and every threshold the exact split
/// point of the sorted order at the named score.
pub open spec fn strength_built(hs: HandStrength, ps: Seq<u32>, os: Seq<u32>) -> bool {
    &&& hs.wf(ps.len() as int, os.len() as int)
    &&& forall|t1: int, t2: int|
        0 <= t1 <= t2 < os.len() ==> hs.score_at(os, t1) <= hs.score_at(os, t2)
    &&& forall|t1: int, t2: int|
        0 <= t1 < t2 < os.len() && hs.score_at(os, t1) == hs.score_at(os, t2)
            ==> hs.opponent_increasing_index@[t1] < hs.opponent_increasing_index@[t2]
    &&& forall|t: int| 0 <= t < hs.exclude_threshold ==> hs.score_at(os, t) == 0
    &&& forall|t: int| hs.exclude_threshold <= t < os.len() ==> hs.score_at(os, t) > 0
    &&& forall|i: int, t: int|
        0 <= i < ps.len() && 0 <= t < hs.win_threshold@[i] ==> hs.score_at(os, t) < ps[i]
    &&& forall|i: int, t: int|
        0 <= i < ps.len() && hs.win_threshold@[i] <= t < os.len() ==> hs.score_at(os, t) >= ps[i]
    &&& forall|i: int, t: int|
        0 <= i < ps.len() && 0 <= t < hs.tie_threshold@[i] ==> hs.score_at(os, t) <= ps[i]
    &&& forall|i: int, t: int|
        0 <= i < ps.len() && hs.tie_threshold@[i] <= t < os.len() ==> hs.score_at(os, t) > ps[i]
    &&& forall|i: int|
        0 <= i < ps.len() && ps[i] >= 1 ==> hs.exclude_threshold <= (
        #[trigger] hs.win_threshold@[i])
}

/// Builds one player's strength table from the two score vectors: `ps` holds
/// the player's own scores, `os` the opponent's, both indexed by hand-list
/// position, zero standing for a board conflict.
///
/// The opponent permutation lists hands by nondecreasing score, ties by
/// increasing index, and every threshold is the exact split point of that
/// order at the named score: before `win_threshold[i]` all scores are below
/// `ps[i]`, from it on none is; before `tie_threshold[i]` none exceeds
/// `ps[i]`, from it on all do; before `exclude_threshold` all scores are
/// zero, from it on all are positive.
#[verifier::loop_isolation(false)]
pub fn build_strength_one(ps: &Vec<u32>, os: &Vec<u32>) -> (hs: HandStrength)
    requires
        os@.len() < 0x100000000,
        forall|j: int| 0 <= j < os@.len() ==> os@[j] < 0xffffffff,
        forall|i: int| 0 <= i < ps@.len() ==> ps@[i] < 0xffffffff,
    ensures
        strength_built(hs, ps@, os@),
        hs.wf(ps@.len() as int, os@.len() as int),
        forall|t1: int, t2: int|
            0 <= t1 <= t2 < os@.len() ==> hs.score_at(os@, t1) <= hs.score_at(os@, t2),
        forall|t1: int, t2: int|
            0 <= t1 < t2 < os@.len() && hs.score_at(os@, t1) == hs.score_at(os@, t2)
                ==> hs.opponent_increasing_index@[t1] < hs.opponent_increasing_index@[t2],
        forall|t: int| 0 <= t < hs.exclude_threshold ==> hs.score_at(os@, t) == 0,
        forall|t: int| hs.exclude_threshold <= t < os@.len() ==> hs.score_at(os@, t) > 0,
        forall|i: int, t: int|
            0 <= i < ps@.len() && 0 <= t < hs.win_threshold@[i] ==> hs.score_at(os@, t) < ps@[i],
        forall|i: int, t: int|
            0 <= i < ps@.len() && hs.win_threshold@[i] <= t < os@.len() ==> hs.score_at(os@, t)
                >= ps@[i],
        forall|i: int, t: int|
            0 <= i < ps@.len() && 0 <= t < hs.tie_threshold@[i] ==> hs.score_at(os@, t) <= ps@[i],
        forall|i: int, t: int|
            0 <= i < ps@.len() && hs.tie_threshold@[i] <= t < os@.len() ==> hs.score_at(os@, t)
                > ps@[i],
        forall|i: int|
            0 <= i < ps@.len() && ps@[i] >= 1 ==> hs.exclude_threshold <= (
            #[trigger] hs.win_threshold@[i]),
{
    broadcast use vstd::seq_lib::group_to_multiset_ensures;

    let n = os.len();
    let mut keys: Vec<u64> = Vec::new();
    let mut j: usize = 0;
    while j < n
        invariant
            j <= n,
            n == os@.len() < 0x100000000,
            forall|u: int| 0 <= u < n ==> os@[u] < 0xffffffff,
            keys@.len() == j,
            forall|u: int|
                0 <= u < j ==> #[trigger] keys@[u] == os@[u] * 0x100000000 + u,
        decreases n - j,
    {
        keys.push((os[j] as u64) * 0x100000000u64 + (j as u64));
        j = j + 1;
    }
    let ghost orig = keys@;

    sort_u64(&mut keys);

    let mut perm: Vec<usize> = Vec::new();
    let mut t: usize = 0;
    while t < n
        invariant
            t <= n,
            n == os@.len() < 0x100000000,
            keys@.len() == n,
            keys@.to_multiset() == orig.to_multiset(),
            orig.len() == n,
            forall|u: int| 0 <= u < n ==> #[trigger] orig[u] == os@[u] * 0x100000000 + u,
            sorted_u64(keys@),
            perm@.len() == t,
            forall|u: int|
                0 <= u < t ==> (#[trigger] perm@[u]) < n && os@[perm@[u] as int] == keys@[u]
                    / 0x100000000 && perm@[u] == keys@[u] as int % 0x100000000,
        decreases n - t,
    {
        let key = keys[t];
        proof {
            keys@.to_multiset_ensures();
            orig.to_multiset_ensures();
            assert(keys@.contains(key));
            assert(keys@.to_multiset().count(key) > 0);
            assert(orig.to_multiset().count(key) > 0);
            assert(orig.contains(key));
            let u = choose|u: int| 0 <= u < orig.len() && orig[u] == key;
            lemma_key_decompose(os@[u] as int, u);
            assert(key as int % 0x100000000 == u);
            assert(key as int / 0x100000000 == os@[u]);
        }
        let idx = (key % 0x100000000u64) as usize;
        perm.push(idx);
        t = t + 1;
    }

    // scores along the permutation are nondecreasing, ties ordered by index
    proof {
        assert forall|t1: int, t2: int| 0 <= t1 <= t2 < n implies os@[perm@[t1] as int]
            <= os@[perm@[t2] as int] by {
            vstd::arithmetic::div_mod::lemma_div_is_ordered(
                keys@[t1] as int,
                keys@[t2] as int,
                0x100000000,
            );
        }
        assert forall|t1: int, t2: int|
            0 <= t1 < t2 < n && os@[perm@[t1] as int] == os@[perm@[t2] as int] implies perm@[t1]
            < perm@[t2] by {
            let k1 = keys@[t1] as int;
            let k2 = keys@[t2] as int;
            vstd::arithmetic::div_mod::lemma_fundamental_div_mod(k1, 0x100000000);
            vstd::arithmetic::div_mod::lemma_fundamental_div_mod(k2, 0x100000000);
            assert(k1 <= k2);
            assert(k1 == os@[perm@[t1] as int] * 0x100000000 + perm@[t1]);
            assert(k2 == os@[perm@[t2] as int] * 0x100000000 + perm@[t2]);
            if perm@[t1] == perm@[t2] {
                assert(k1 == k2);
                lemma_distinct_keys(orig, keys@, os@, t1, t2);
            }
        }
    }

    let exclude_threshold = lower_bound(&keys, 0x100000000u64);
    proof {
        assert forall|u: int| 0 <= u < exclude_threshold implies os@[perm@[u] as int] == 0 by {
            lemma_div_lt(keys@[u] as int, 1);
        }
        assert forall|u: int| exclude_threshold <= u < n implies os@[perm@[u] as int] > 0 by {
            lemma_div_ge(keys@[u] as int, 1);
        }
    }

    let mut win_threshold: Vec<usize> = Vec::new();
    let mut tie_threshold: Vec<usize> = Vec::new();
    let mut i: usize = 0;
    while i < ps.len()
        invariant
            i <= ps@.len(),
            n == os@.len() < 0x100000000,
            forall|u: int| 0 <= u < ps@.len() ==> ps@[u] < 0xffffffff,
            keys@.len() == n,
            sorted_u64(keys@),
            perm@.len() == n,
            forall|u: int|
                0 <= u < n ==> (#[trigger] perm@[u]) < n && os@[perm@[u] as int] == keys@[u]
                    / 0x100000000,
            win_threshold@.len() == i,
            tie_threshold@.len() == i,
            forall|u: int|
                0 <= u < i ==> (#[trigger] win_threshold@[u]) <= tie_threshold@[u] <= n,
            forall|u: int, v: int|
                0 <= u < i && 0 <= v < win_threshold@[u] ==> os@[perm@[v] as int] < ps@[u],
            forall|u: int, v: int|
                0 <= u < i && win_threshold@[u] <= v < n ==> os@[perm@[v] as int] >= ps@[u],
            forall|u: int, v: int|
                0 <= u < i && 0 <= v < tie_threshold@[u] ==> os@[perm@[v] as int] <= ps@[u],
            forall|u: int, v: int|
                0 <= u < i && tie_threshold@[u] <= v < n ==> os@[perm@[v] as int] > ps@[u],
        decreases ps@.len() - i,
    {
        let p = ps[i];
        let w = lower_bound(&keys, (p as u64) * 0x100000000u64);
        let tw = lower_bound(&keys, (p as u64 + 1) * 0x100000000u64);
        proof {
            assert forall|v: int| 0 <= v < w implies os@[perm@[v] as int] < p by {
                lemma_div_lt(keys@[v] as int, p as int);
            }
            assert forall|v: int| w <= v < n implies os@[perm@[v] as int] >= p by {
                lemma_div_ge(keys@[v] as int, p as int);
            }
            assert forall|v: int| 0 <= v < tw implies os@[perm@[v] as int] <= p by {
                lemma_div_lt(keys@[v] as int, p as int + 1);
            }
            assert forall|v: int| tw <= v < n implies os@[perm@[v] as int] > p by {
                lemma_div_ge(keys@[v] as int, p as int + 1);
            }
            if tw < w {
                assert(os@[perm@[tw as int] as int] < p);
                assert(os@[perm@[tw as int] as int] > p);
            }
        }
        win_threshold.push(w);
        tie_threshold.push(tw);
        i = i + 1;
    }

    let hs = HandStrength {
        opponent_increasing_index: perm,
        exclude_threshold,
        win_threshold,
        tie_threshold,
    };

    proof {
        assert forall|u: int|
            0 <= u < ps@.len() && ps@[u] >= 1 implies hs.exclude_threshold <= (
        #[trigger] hs.win_threshold@[u]) by {
            if hs.win_threshold@[u] < hs.exclude_threshold {
                let v = hs.win_threshold@[u] as int;
                assert(os@[perm@[v] as int] == 0);
                assert(os@[perm@[v] as int] >= ps@[u]);
            }
        }
    }
    hs
}

/// Two positions of the sorted key list cannot hold the same key: the
/// original keys carry their index in the low bits, so they are pairwise
/// distinct, and sorting keeps multiplicities.
proof fn lemma_distinct_keys(orig: Seq<u64>, sorted: Seq<u64>, os: Seq<u32>, t1: int, t2: int)
    requires
        orig.len() == os.len(),
        forall|u: int| 0 <= u < orig.len() ==> #[trigger] orig[u] == os[u] * 0x100000000 + u,
        sorted.to_multiset() == orig.to_multiset(),
        sorted.len() == orig.len(),
        orig.len() < 0x100000000,
        0 <= t1 < t2 < sorted.len(),
    ensures
        sorted[t1] != sorted[t2],
{
    orig.to_multiset_ensures();
    sorted.to_multiset_ensures();

    assert(orig.no_duplicates()) by {
        assert forall|u1: int, u2: int|
            0 <= u1 < orig.len() && 0 <= u2 < orig.len() && u1 != u2 implies orig[u1]
            != orig[u2] by {
            lemma_key_decompose(os[u1] as int, u1);
            lemma_key_decompose(os[u2] as int, u2);
        }
    }
    orig.lemma_multiset_has_no_duplicates();
    if sorted[t1] == sorted[t2] {
        let removed = sorted.remove(t2);
        removed.to_multiset_ensures();
        assert(removed.to_multiset() =~= sorted.to_multiset().remove(sorted[t2]));
        assert(removed[t1] == sorted[t1]);
        assert(removed.contains(sorted[t1]));
        assert(removed.to_multiset().count(sorted[t1]) > 0);
        assert(sorted.to_multiset().count(sorted[t1]) > 1);
        assert(orig.to_multiset().count(sorted[t1]) > 1);
        assert(orig.contains(sorted[t1]));
        assert(orig.to_multiset().count(sorted[t1]) == 1);
    }
}

} // verus!
