use vstd::prelude::*;

use crate::float::{f32_is_nan, f32_lt, law_nan_bits, law_order_key_orders_values};
use crate::ranking::{is_top_ranking, ranked_before, top_ranked};
use crate::store::{f32_order_key, is_nan_bits, order_key};

verus! {

/// The ranking keys of logits given as single-precision bit patterns.
pub open spec fn logit_keys(bits: Seq<u32>) -> Seq<Option<u64>> {
    bits.map_values(|b: u32| Some(f32_order_key(b) as u64))
}

/// The ranking keys of logits order the logits as numbers: one key is below another exactly
/// when its logit is the smaller number.
pub proof fn law_logit_keys_order_values(bits: Seq<u32>, i: int, j: int)
    requires
        0 <= i < bits.len(),
        0 <= j < bits.len(),
        !f32_is_nan(bits[i]),
        !f32_is_nan(bits[j]),
    ensures
        logit_keys(bits)[i] is Some,
        (logit_keys(bits)[i].unwrap() < logit_keys(bits)[j].unwrap()) == f32_lt(bits[i], bits[j]),
{
    law_order_key_orders_values(bits[i], bits[j]);
}

/// A ranking of logits lists them from largest to smallest as numbers: no listed logit is
/// smaller than one listed after it, and a logit left out is no larger than any listed one
/// and is left out only when `limit` logits are listed.
pub proof fn law_ranked_logits_descend(bits: Seq<u32>, limit: nat, p: Seq<usize>)
    requires
        forall|i: int| 0 <= i < bits.len() ==> !f32_is_nan(#[trigger] bits[i]),
        is_top_ranking(logit_keys(bits), limit, p),
    ensures
        forall|t1: int, t2: int|
            0 <= t1 < t2 < p.len() ==> !f32_lt(bits[#[trigger] p[t1] as int], bits[#[trigger] p[t2] as int]),
        forall|j: int|
            0 <= j < bits.len() && !p.contains(j as usize) ==> #[trigger] left_out_ranks_lower(bits, limit, p, j),
{
    let keys = logit_keys(bits);
    assert forall|t1: int, t2: int|
        0 <= t1 < t2 < p.len() implies !f32_lt(bits[#[trigger] p[t1] as int], bits[#[trigger] p[t2] as int]) by {
        assert(ranked_before(keys, p[t1] as int, p[t2] as int));
        law_logit_keys_order_values(bits, p[t1] as int, p[t2] as int);
    }
    assert forall|j: int| 0 <= j < bits.len() && !p.contains(j as usize) implies #[trigger] left_out_ranks_lower(bits, limit, p, j) by {
        lemma_left_out_logit(bits, limit, p, j);
    }
}

/// Token `j`, left out of the ranked token ids `r`, is left out only when `limit` tokens are
/// listed, and its logit is no larger than any listed token's.
pub open spec fn token_left_out_ranks_lower(bits: Seq<u32>, limit: nat, r: Seq<u32>, j: int) -> bool {
    &&& r.len() == limit
    &&& forall|t: int| 0 <= t < r.len() ==> !f32_lt(bits[#[trigger] r[t] as int], bits[j])
}

/// Logit `j`, left out of the ranking `p`, is left out only when `limit` logits are listed,
/// and is no larger than any listed logit.
pub open spec fn left_out_ranks_lower(bits: Seq<u32>, limit: nat, p: Seq<usize>, j: int) -> bool {
    &&& p.len() == limit
    &&& forall|t: int| 0 <= t < p.len() ==> !f32_lt(bits[#[trigger] p[t] as int], bits[j])
}

proof fn lemma_left_out_logit(bits: Seq<u32>, limit: nat, p: Seq<usize>, j: int)
    requires
        forall|i: int| 0 <= i < bits.len() ==> !f32_is_nan(#[trigger] bits[i]),
        is_top_ranking(logit_keys(bits), limit, p),
        0 <= j < bits.len(),
        !p.contains(j as usize),
    ensures
        p.len() == limit,
        forall|t: int| 0 <= t < p.len() ==> !f32_lt(bits[#[trigger] p[t] as int], bits[j]),
{
    let keys = logit_keys(bits);
    assert(keys[j] is Some);
    assert forall|t: int| 0 <= t < p.len() implies !f32_lt(bits[#[trigger] p[t] as int], bits[j]) by {
        assert(ranked_before(keys, p[t] as int, j));
        law_logit_keys_order_values(bits, p[t] as int, j);
    }
}

/// The token ids of the `limit` largest logits, largest first; equal logits in the order of
/// their token ids. `logit_bits[i]` is the single-precision bit pattern of token `i`'s logit;
/// no logit is NaN.
pub fn ranked_token_ids(logit_bits: &Vec<u32>, limit: usize) -> (r: Vec<u32>)
    requires
        logit_bits@.len() <= u32::MAX + 1,
        forall|i: int| 0 <= i < logit_bits@.len() ==> !is_nan_bits(#[trigger] logit_bits@[i]),
    ensures
        exists|p: Seq<usize>|
            {
                &&& is_top_ranking(logit_keys(logit_bits@), limit as nat, p)
                &&& r@.len() == p.len()
                &&& forall|t: int| 0 <= t < p.len() ==> r@[t] as int == #[trigger] p[t] as int
            },
        forall|t: int| 0 <= t < r@.len() ==> (#[trigger] r@[t]) < logit_bits@.len(),
        forall|t1: int, t2: int|
            0 <= t1 < t2 < r@.len() ==> !f32_lt(
                logit_bits@[#[trigger] r@[t1] as int],
                logit_bits@[#[trigger] r@[t2] as int],
            ),
        forall|j: int|
            0 <= j < logit_bits@.len() && (forall|t: int| 0 <= t < r@.len() ==> r@[t] as int != j)
                ==> #[trigger] token_left_out_ranks_lower(logit_bits@, limit as nat, r@, j),
{
    let n = logit_bits.len();
    let mut keys: Vec<Option<u64>> = Vec::new();
    let mut i: usize = 0;
    while i < n
        invariant
            n == logit_bits@.len(),
            i <= n,
            keys@ == logit_keys(logit_bits@).take(i as int),
        decreases n - i,
    {
        keys.push(Some(order_key(logit_bits[i]) as u64));
        assert(keys@ =~= logit_keys(logit_bits@).take(i + 1));
        i = i + 1;
    }
    assert(keys@ =~= logit_keys(logit_bits@));
    let p = top_ranked(&keys, limit);
    let mut r: Vec<u32> = Vec::new();
    let mut t: usize = 0;
    while t < p.len()
        invariant
            t <= p@.len(),
            is_top_ranking(logit_keys(logit_bits@), limit as nat, p@),
            n == logit_bits@.len(),
            n <= u32::MAX + 1,
            r@.len() == t,
            forall|u: int| 0 <= u < t ==> r@[u] as int == #[trigger] p@[u] as int,
        decreases p@.len() - t,
    {
        assert(p@[t as int] < n);
        r.push(p[t] as u32);
        t = t + 1;
    }
    proof {
        assert forall|t: int| 0 <= t < r@.len() implies (#[trigger] r@[t]) < logit_bits@.len() by {
            assert(r@[t] as int == p@[t] as int);
        }
        assert forall|i: int| 0 <= i < logit_bits@.len() implies !f32_is_nan(#[trigger] logit_bits@[i]) by {
            law_nan_bits(logit_bits@[i]);
        }
        law_ranked_logits_descend(logit_bits@, limit as nat, p@);
        assert forall|j: int|
            0 <= j < logit_bits@.len() && (forall|t: int| 0 <= t < r@.len() ==> r@[t] as int != j)
                implies #[trigger] token_left_out_ranks_lower(logit_bits@, limit as nat, r@, j) by {
            if p@.contains(j as usize) {
                let t = choose|t: int| 0 <= t < p@.len() && p@[t] == j as usize;
                assert(r@[t] as int == p@[t] as int);
                assert(r@[t] as int == j);
            }
            lemma_left_out_logit(logit_bits@, limit as nat, p@, j);
            assert(r@.len() == p@.len());
            assert forall|t: int| 0 <= t < r@.len() implies !f32_lt(logit_bits@[#[trigger] r@[t] as int], logit_bits@[j]) by {
                assert(r@[t] as int == p@[t] as int);
            }
        }
        assert forall|t1: int, t2: int| 0 <= t1 < t2 < r@.len() implies !f32_lt(
                logit_bits@[#[trigger] r@[t1] as int],
                logit_bits@[#[trigger] r@[t2] as int],
            ) by {
            assert(r@[t1] as int == p@[t1] as int);
            assert(r@[t2] as int == p@[t2] as int);
        }
    }
    r
}

} // verus!
