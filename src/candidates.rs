//! The candidate index: for every set of nine digit bits, the digit masks it holds.
use vstd::prelude::*;
use crate::grid::{dmask, shares_bit, is_digit_mask, ALL_MASK};

verus! {

/// The digit masks among the first `k` digits that `m` holds, lowest first.
pub open spec fn present_upto(m: u32, k: nat) -> Seq<u32>
    decreases k,
{
    if k == 0 {
        seq![]
    } else {
        let p = present_upto(m, (k - 1) as nat);
        if shares_bit(m, dmask(k - 1)) {
            p.push(dmask(k - 1))
        } else {
            p
        }
    }
}

/// The digit masks that `m` holds, in ascending order.
pub open spec fn present(m: u32) -> Seq<u32> {
    present_upto(m, 9)
}

/// The digit masks still free next to the peer mask `p`, in ascending order.
pub open spec fn available(p: u32) -> Seq<u32> {
    present(ALL_MASK & !p)
}

/// The position of a digit mask among the nine, or 9 for any other value.
pub open spec fn digit_index(d: u32) -> int {
    if d == 1 {
        0
    } else if d == 2 {
        1
    } else if d == 4 {
        2
    } else if d == 8 {
        3
    } else if d == 16 {
        4
    } else if d == 32 {
        5
    } else if d == 64 {
        6
    } else if d == 128 {
        7
    } else if d == 256 {
        8
    } else {
        9
    }
}

proof fn lemma_push_contains(s: Seq<u32>, y: u32, x: u32)
    ensures
        s.push(y).contains(x) <==> s.contains(x) || x == y,
{
    if s.push(y).contains(x) {
        let t = choose|t: int| 0 <= t < s.push(y).len() && s.push(y)[t] == x;
        if t < s.len() {
            assert(s[t] == x);
        }
    }
    if x == y {
        assert(s.push(y)[s.len() as int] == x);
    }
    if s.contains(x) {
        let t = choose|t: int| 0 <= t < s.len() && s[t] == x;
        assert(s.push(y)[t] == x);
    }
}

proof fn lemma_present_upto_members(m: u32, k: nat, d: u32)
    requires
        k <= 9,
    ensures
        present_upto(m, k).contains(d) <==> is_digit_mask(d) && digit_index(d) < k && shares_bit(m, d),
    decreases k,
{
    if k > 0 {
        lemma_present_upto_members(m, (k - 1) as nat, d);
        let p = present_upto(m, (k - 1) as nat);
        let b = dmask(k - 1);
        assert(is_digit_mask(b) && digit_index(b) == k - 1);
        if shares_bit(m, b) {
            lemma_push_contains(p, b, d);
        }
    }
}

proof fn lemma_present_upto_distinct(m: u32, k: nat)
    requires
        k <= 9,
    ensures
        present_upto(m, k).no_duplicates(),
    decreases k,
{
    if k > 0 {
        lemma_present_upto_distinct(m, (k - 1) as nat);
        let p = present_upto(m, (k - 1) as nat);
        let b = dmask(k - 1);
        assert(is_digit_mask(b) && digit_index(b) == k - 1);
        lemma_present_upto_members(m, (k - 1) as nat, b);
        if shares_bit(m, b) {
            let q = p.push(b);
            assert forall|i: int, j: int| 0 <= i < q.len() && 0 <= j < q.len() && i != j implies q[i] != q[j] by {
                if j == p.len() {
                    assert(p.contains(q[i]));
                } else if i == p.len() {
                    assert(p.contains(q[j]));
                } else {
                    assert(q[i] == p[i] && q[j] == p[j]);
                }
            }
        }
    }
}

/// No digit mask stands twice in an entry.
pub proof fn lemma_available_distinct(p: u32)
    ensures
        available(p).no_duplicates(),
{
    lemma_present_upto_distinct(ALL_MASK & !p, 9);
}

/// What the entry for `m` holds: exactly the digit masks that `m` has.
pub proof fn lemma_present_members(m: u32)
    ensures
        forall|d: u32| #[trigger] present(m).contains(d) <==> is_digit_mask(d) && shares_bit(m, d),
{
    assert forall|d: u32| #[trigger] present(m).contains(d) <==> is_digit_mask(d) && shares_bit(m, d) by {
        lemma_present_upto_members(m, 9, d);
        assert(is_digit_mask(d) ==> digit_index(d) < 9);
    }
}

/// The entry for a peer mask holds exactly the digit masks that the peer mask lacks.
pub proof fn lemma_available_members(p: u32)
    ensures
        forall|d: u32| #[trigger] available(p).contains(d) <==> is_digit_mask(d) && !shares_bit(p, d),
{
    lemma_present_members(ALL_MASK & !p);
    assert forall|d: u32| #[trigger] available(p).contains(d) <==> is_digit_mask(d) && !shares_bit(p, d) by {
        assert((d == 1 || d == 2 || d == 4 || d == 8 || d == 16 || d == 32 || d == 64 || d == 128
            || d == 256) ==> (((0x1ffu32 & !p) & d != 0) <==> (p & d == 0))) by (bit_vector);
    }
}

/// For each of the 512 sets of digit bits, the digit masks in it, in ascending order.
/// Built once, then only read.
pub struct CandidateIndex {
    sets: Vec<Vec<u32>>,
}

impl CandidateIndex {
    pub closed spec fn wf(&self) -> bool {
        &&& self.sets@.len() == 512
        &&& forall|m: int| 0 <= m < 512 ==> (#[trigger] self.sets@[m])@ == present(m as u32)
    }

    /// Builds every entry by testing the nine digit bits against each mask.
    pub fn new() -> (r: CandidateIndex)
        ensures
            r.wf(),
    {
        let mut sets: Vec<Vec<u32>> = Vec::with_capacity(512);
        let mut idx: u32 = 0;
        while idx < 512
            invariant
                idx <= 512,
                sets@.len() == idx,
                forall|m: int| 0 <= m < idx ==> (#[trigger] sets@[m])@ == present(m as u32),
            decreases 512 - idx,
        {
            let mut set: Vec<u32> = Vec::new();
            let mut bit: u32 = 1;
            let mut k: usize = 0;
            while k < 9
                invariant
                    k <= 9,
                    bit == dmask(k as int),
                    set@ == present_upto(idx, k as nat),
                decreases 9 - k,
            {
                if idx & bit != 0 {
                    set.push(bit);
                }
                k += 1;
                if k < 9 {
                    bit = bit * 2;
                }
            }
            sets.push(set);
            idx += 1;
        }
        CandidateIndex { sets }
    }

    /// The digit masks that none of the peers summed up in `peer_mask` holds, in ascending order.
    pub fn get_available_options_from_peer_mask(&self, peer_mask: u32) -> (r: &Vec<u32>)
        requires
            self.wf(),
        ensures
            r@ == available(peer_mask),
    {
        let options_mask = ALL_MASK & !peer_mask;
        assert(0x1ffu32 & !peer_mask < 512) by (bit_vector);
        &self.sets[options_mask as usize]
    }
}

} // verus!
