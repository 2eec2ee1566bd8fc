use vstd::prelude::*;

use crate::document::Chunk;
use crate::float::{f32_is_nan, f32_lt, law_nan_bits, law_order_key_orders_values};
use crate::ranking::{is_top_ranking, ranked_before, top_ranked};

verus! {

/// The bit pattern `bits` is an IEEE-754 single-precision NaN.
pub open spec fn is_nan_bits(bits: u32) -> bool {
    (bits & 0x7f80_0000u32) == 0x7f80_0000u32 && (bits & 0x007f_ffffu32) != 0
}

/// A key for the single-precision value with bit pattern `bits` that orders values that
/// are not NaN as numbers do: larger values get larger keys, and `0.0` and `-0.0` the same key.
pub open spec fn f32_order_key(bits: u32) -> u32 {
    if bits & 0x8000_0000u32 == 0 {
        bits | 0x8000_0000u32
    } else if bits == 0x8000_0000u32 {
        0x8000_0000u32
    } else {
        !bits
    }
}

/// The keys by which scores are ranked: the order key of each score, none where a chunk has
/// no score.
pub open spec fn score_keys(scores: Seq<Option<u32>>) -> Seq<Option<u64>> {
    scores.map_values(
        |s: Option<u32>|
            match s {
                Some(b) => Some(f32_order_key(b) as u64),
                None => None,
            },
    )
}

/// The ranking keys of scores order the scores as numbers: one key is below another exactly
/// when its score is the smaller number.
pub proof fn law_score_keys_order_values(scores: Seq<Option<u32>>, i: int, j: int)
    requires
        0 <= i < scores.len(),
        0 <= j < scores.len(),
        scores[i] is Some,
        scores[j] is Some,
        !f32_is_nan(scores[i].unwrap()),
        !f32_is_nan(scores[j].unwrap()),
    ensures
        score_keys(scores)[i] is Some,
        score_keys(scores)[j] is Some,
        (score_keys(scores)[i].unwrap() < score_keys(scores)[j].unwrap()) == f32_lt(
            scores[i].unwrap(),
            scores[j].unwrap(),
        ),
{
    law_order_key_orders_values(scores[i].unwrap(), scores[j].unwrap());
}

/// Score `j`, left out of the ranking `p`, is left out only when `limit` positions are listed,
/// and is no larger than any listed score.
pub open spec fn score_left_out_ranks_lower(scores: Seq<Option<u32>>, limit: nat, p: Seq<usize>, j: int) -> bool {
    &&& p.len() == limit
    &&& forall|t: int| 0 <= t < p.len() ==> !f32_lt(scores[#[trigger] p[t] as int].unwrap(), scores[j].unwrap())
}

/// A ranking of scores lists scored positions from the largest score to the smallest as
/// numbers: no listed score is smaller than one listed after it, and a scored position left
/// out has a score no larger than any listed one and is left out only when `limit` are listed.
pub proof fn law_ranked_scores_descend(scores: Seq<Option<u32>>, limit: nat, p: Seq<usize>)
    requires
        forall|i: int| 0 <= i < scores.len() && (#[trigger] scores[i]) is Some ==> !f32_is_nan(scores[i].unwrap()),
        is_top_ranking(score_keys(scores), limit, p),
    ensures
        forall|t: int| 0 <= t < p.len() ==> (#[trigger] p[t]) < scores.len() && scores[p[t] as int] is Some,
        forall|t1: int, t2: int|
            0 <= t1 < t2 < p.len() ==> !f32_lt(
                scores[#[trigger] p[t1] as int].unwrap(),
                scores[#[trigger] p[t2] as int].unwrap(),
            ),
        forall|j: int|
            0 <= j < scores.len() && scores[j] is Some && !p.contains(j as usize)
                ==> #[trigger] score_left_out_ranks_lower(scores, limit, p, j),
{
    let keys = score_keys(scores);
    assert forall|t: int| 0 <= t < p.len() implies (#[trigger] p[t]) < scores.len() && scores[p[t] as int] is Some by {
        assert(keys[p[t] as int] is Some);
    }
    assert forall|t1: int, t2: int|
        0 <= t1 < t2 < p.len() implies !f32_lt(
            scores[#[trigger] p[t1] as int].unwrap(),
            scores[#[trigger] p[t2] as int].unwrap(),
        ) by {
        assert(ranked_before(keys, p[t1] as int, p[t2] as int));
        assert(keys[p[t1] as int] is Some && keys[p[t2] as int] is Some);
        law_score_keys_order_values(scores, p[t1] as int, p[t2] as int);
    }
    assert forall|j: int|
        0 <= j < scores.len() && scores[j] is Some && !p.contains(j as usize)
            implies #[trigger] score_left_out_ranks_lower(scores, limit, p, j) by {
        assert(keys[j] is Some);
        assert forall|t: int| 0 <= t < p.len() implies !f32_lt(scores[#[trigger] p[t] as int].unwrap(), scores[j].unwrap()) by {
            assert(ranked_before(keys, p[t] as int, j));
            assert(keys[p[t] as int] is Some);
            law_score_keys_order_values(scores, p[t] as int, j);
        }
    }
}

/// The order key of a single-precision bit pattern.
pub fn order_key(bits: u32) -> (r: u32)
    ensures
        r == f32_order_key(bits),
{
    if bits & 0x8000_0000u32 == 0 {
        bits | 0x8000_0000u32
    } else if bits == 0x8000_0000u32 {
        0x8000_0000u32
    } else {
        !bits
    }
}

/// An in-memory store of chunks, searched by similarity score.
pub struct VectorStore {
    chunks: Vec<Chunk>,
}

impl View for VectorStore {
    type V = Seq<Chunk>;

    closed spec fn view(&self) -> Seq<Chunk> {
        self.chunks@
    }
}

impl VectorStore {
    /// An empty store.
    pub fn new() -> (r: VectorStore)
        ensures
            r@ == Seq::<Chunk>::empty(),
    {
        VectorStore { chunks: Vec::new() }
    }

    /// Adds a chunk at the end.
    pub fn insert(&mut self, chunk: Chunk)
        ensures
            final(self)@ == old(self)@.push(chunk),
    {
        self.chunks.push(chunk);
    }

    /// Adds chunks at the end, in their order.
    pub fn insert_many(&mut self, chunks: Vec<Chunk>)
        ensures
            final(self)@ == old(self)@ + chunks@,
    {
        let mut chunks = chunks;
        self.chunks.append(&mut chunks);
    }

    /// The number of chunks.
    pub fn len(&self) -> (n: usize)
        ensures
            n == self@.len(),
    {
        self.chunks.len()
    }

    /// Whether the store holds no chunk.
    pub fn is_empty(&self) -> (b: bool)
        ensures
            b == (self@.len() == 0),
    {
        self.chunks.len() == 0
    }

    /// The chunks, in the order in which they were added.
    pub fn chunks(&self) -> (r: &Vec<Chunk>)
        ensures
            r@ == self@,
    {
        &self.chunks
    }

    /// The positions of the `top_k` best scored chunks, best first. `scores[i]` is the
    /// single-precision bit pattern of chunk `i`'s similarity to the query, given exactly
    /// for the chunks that have an embedding; equal scores keep the order of insertion.
    pub fn search_positions(&self, scores: &Vec<Option<u32>>, top_k: usize) -> (r: Vec<usize>)
        requires
            scores@.len() == self@.len(),
        ensures
            is_top_ranking(score_keys(scores@), top_k as nat, r@),
            (forall|i: int| 0 <= i < scores@.len() && (#[trigger] scores@[i]) is Some ==> !is_nan_bits(scores@[i].unwrap()))
                ==> {
                &&& forall|t: int| 0 <= t < r@.len() ==> (#[trigger] r@[t]) < scores@.len() && scores@[r@[t] as int] is Some
                &&& forall|t1: int, t2: int|
                    0 <= t1 < t2 < r@.len() ==> !f32_lt(
                        scores@[#[trigger] r@[t1] as int].unwrap(),
                        scores@[#[trigger] r@[t2] as int].unwrap(),
                    )
                &&& forall|j: int|
                    0 <= j < scores@.len() && scores@[j] is Some && !r@.contains(j as usize)
                        ==> #[trigger] score_left_out_ranks_lower(scores@, top_k as nat, r@, j)
            },
    {
        let n = scores.len();
        let mut keys: Vec<Option<u64>> = Vec::new();
        let mut i: usize = 0;
        while i < n
            invariant
                n == scores@.len(),
                i <= n,
                keys@ == score_keys(scores@).take(i as int),
            decreases n - i,
        {
            let k = match scores[i] {
                Some(b) => Some(order_key(b) as u64),
                None => None,
            };
            keys.push(k);
            assert(keys@ =~= score_keys(scores@).take(i + 1));
            i = i + 1;
        }
        assert(keys@ =~= score_keys(scores@));
        let r = top_ranked(&keys, top_k);
        proof {
            if forall|i: int| 0 <= i < scores@.len() && (#[trigger] scores@[i]) is Some ==> !is_nan_bits(scores@[i].unwrap()) {
                assert forall|i: int| 0 <= i < scores@.len() && (#[trigger] scores@[i]) is Some implies !f32_is_nan(scores@[i].unwrap()) by {
                    law_nan_bits(scores@[i].unwrap());
                }
                law_ranked_scores_descend(scores@, top_k as nat, r@);
            }
        }
        r
    }

    /// The `top_k` chunks with the best scores, best first, skipping the chunks without an
    /// embedding. `scores[i]` is the single-precision bit pattern of chunk `i`'s similarity
    /// to the query, given exactly for the chunks that have an embedding; no score is NaN.
    /// Equal scores keep the order of insertion.
    pub fn search(&self, scores: &Vec<Option<u32>>, top_k: usize) -> (r: Vec<&Chunk>)
        requires
            scores@.len() == self@.len(),
            forall|i: int|
                0 <= i < scores@.len() ==> ((#[trigger] scores@[i]) is Some <==> self@[i].embedding is Some),
            forall|i: int|
                0 <= i < scores@.len() && (#[trigger] scores@[i]) is Some ==> !is_nan_bits(
                    scores@[i].unwrap(),
                ),
        ensures
            exists|p: Seq<usize>|
                {
                    &&& is_top_ranking(score_keys(scores@), top_k as nat, p)
                    &&& r@.len() == p.len()
                    &&& forall|t: int| 0 <= t < p.len() ==> r@[t] == self@[#[trigger] p[t] as int]
                },
    {
        let p = self.search_positions(scores, top_k);
        let mut r: Vec<&Chunk> = Vec::new();
        let mut t: usize = 0;
        while t < p.len()
            invariant
                t <= p@.len(),
                is_top_ranking(score_keys(scores@), top_k as nat, p@),
                scores@.len() == self@.len(),
                r@.len() == t,
                forall|u: int| 0 <= u < t ==> r@[u] == self@[#[trigger] p@[u] as int],
            decreases p@.len() - t,
        {
            assert(p@[t as int] < score_keys(scores@).len());
            r.push(&self.chunks[p[t]]);
            t = t + 1;
        }
        r
    }
}

impl Default for VectorStore {
    fn default() -> (r: VectorStore)
        ensures
            r@ == Seq::<Chunk>::empty(),
    {
        VectorStore::new()
    }
}

} // verus!
