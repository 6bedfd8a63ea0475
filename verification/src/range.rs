//! A player's starting range: a dense 52 x 52 table of prior weights over
//! ordered hole-card pairs (c1 < c2). Weights are integers in
//! [0, WEIGHT_SCALE]; only their ratios matter, since every payoff is later
//! normalized by the total weight of card assignments.

use vstd::prelude::*;

verus! {

/// A weight of this value stands for probability one.
pub const WEIGHT_SCALE: u32 = 1000000;

pub struct HandRange {
    pub data: Vec<u32>,
}

proof fn lemma_pair_index_injective(a: int, b: int, c: int, d: int)
    by (nonlinear_arith)
    requires
        0 <= a < b < 52,
        0 <= c < d < 52,
        a * 52 + b == c * 52 + d,
    ensures
        a == c && b == d,
{
}

impl HandRange {
    pub open spec fn wf(&self) -> bool {
        &&& self.data@.len() == 2704
        &&& forall|i: int| 0 <= i < 2704 ==> self.data@[i] <= 1000000
    }

    /// Prior weight of the ordered pair (c1, c2).
    pub open spec fn spec_weight(&self, c1: int, c2: int) -> u32 {
        self.data@[c1 * 52 + c2]
    }

    pub open spec fn spec_is_empty(&self) -> bool {
        forall|c1: int, c2: int|
            0 <= c1 < c2 < 52 ==> #[trigger] self.spec_weight(c1, c2) == 0
    }

    /// The range holding no hand at all.
    pub fn new() -> (r: HandRange)
        ensures
            r.wf(),
            r.spec_is_empty(),
            forall|c1: int, c2: int| 0 <= c1 < c2 < 52 ==> #[trigger] r.spec_weight(c1, c2) == 0,
    {
        let mut data: Vec<u32> = Vec::new();
        let mut i: usize = 0;
        while i < 2704
            invariant
                i <= 2704,
                data@.len() == i,
                forall|j: int| 0 <= j < i ==> data@[j] == 0,
            decreases 2704 - i,
        {
            data.push(0);
            i = i + 1;
        }
        HandRange { data }
    }

    pub fn get_weight(&self, c1: u8, c2: u8) -> (r: u32)
        requires
            self.wf(),
            c1 < c2 < 52,
        ensures
            r == self.spec_weight(c1 as int, c2 as int),
            r <= 1000000,
    {
        self.data[c1 as usize * 52 + c2 as usize]
    }

    /// Sets the weight of one ordered pair, leaving every other pair as it was.
    pub fn set_weight(&mut self, c1: u8, c2: u8, w: u32)
        requires
            old(self).wf(),
            c1 < c2 < 52,
            w <= 1000000,
        ensures
            final(self).wf(),
            final(self).spec_weight(c1 as int, c2 as int) == w,
            forall|a: int, b: int|
                0 <= a < b < 52 && !(a == c1 && b == c2) ==> #[trigger] final(self).spec_weight(
                    a, b) == old(self).spec_weight(a, b),
    {
        let idx = c1 as usize * 52 + c2 as usize;
        self.data[idx] = w;
        proof {
            assert forall|a: int, b: int|
                0 <= a < b < 52 && !(a == c1 && b == c2) implies #[trigger] (a * 52 + b)
                != c1 as int * 52 + c2 as int by {
                if a * 52 + b == c1 as int * 52 + c2 as int {
                    lemma_pair_index_injective(a, b, c1 as int, c2 as int);
                }
            }
        }
    }

    /// True when no ordered pair has a positive weight.
    pub fn is_empty(&self) -> (r: bool)
        requires
            self.wf(),
        ensures
            r == self.spec_is_empty(),
    {
        let mut c1: u8 = 0;
        while c1 < 52
            invariant
                self.wf(),
                c1 <= 52,
                forall|a: int, b: int|
                    0 <= a < c1 && a < b < 52 ==> #[trigger] self.spec_weight(a, b) == 0,
            decreases 52 - c1,
        {
            let mut c2: u8 = c1 + 1;
            while c2 < 52
                invariant
                    self.wf(),
                    c1 < c2 <= 52,
                    forall|a: int, b: int|
                        0 <= a < c1 && a < b < 52 ==> #[trigger] self.spec_weight(a, b) == 0,
                    forall|b: int| c1 < b < c2 ==> #[trigger] self.spec_weight(c1 as int, b) == 0,
                decreases 52 - c2,
            {
                if self.get_weight(c1, c2) > 0 {
                    return false;
                }
                c2 = c2 + 1;
            }
            c1 = c1 + 1;
        }
        true
    }
}

} // verus!
