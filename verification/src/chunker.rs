use vstd::prelude::*;

use crate::document::{Chunk, Document};
use crate::text::{is_word, join, join_range, law_words_are_words, law_words_of_join, split_words, views, words};

verus! {

/// The index of the first word of chunk `k` when chunks start `step` words apart.
pub open spec fn chunk_start(k: int, step: int) -> int {
    k * step
}

/// One past the index of the last word of chunk `k`, for a text of `len` words.
pub open spec fn chunk_end(k: int, step: int, size: int, len: int) -> int {
    if chunk_start(k, step) + size <= len {
        chunk_start(k, step) + size
    } else {
        len
    }
}

/// `count` is the number of chunks of a text of `len` words: chunks are taken until one
/// reaches the last word, and an empty text has none.
pub open spec fn is_chunk_count(count: int, step: int, size: int, len: int) -> bool {
    if len == 0 {
        count == 0
    } else {
        &&& count >= 1
        &&& chunk_start(count - 1, step) + size >= len
        &&& forall|k: int| 0 <= k < count - 1 ==> #[trigger] chunk_start(k, step) + size < len
    }
}

/// The text of chunk `k` of the words `w`: its words joined by single spaces.
pub open spec fn chunk_text(w: Seq<Seq<char>>, k: int, step: int, size: int) -> Seq<char> {
    join(w.subrange(chunk_start(k, step), chunk_end(k, step, size, w.len() as int)), seq![' '])
}

/// Splits documents into chunks of at most `chunk_size` words, neighbouring chunks sharing
/// `chunk_overlap` words.
pub struct TextSplitter {
    chunk_size: usize,
    chunk_overlap: usize,
}

impl TextSplitter {
    #[verifier::type_invariant]
    closed spec fn wf(self) -> bool {
        self.chunk_overlap < self.chunk_size
    }

    /// The most words a chunk holds.
    pub closed spec fn size(self) -> nat {
        self.chunk_size as nat
    }

    /// How many words a chunk shares with the next one.
    pub closed spec fn overlap(self) -> nat {
        self.chunk_overlap as nat
    }

    /// A splitter; the overlap must be smaller than the chunk size.
    pub fn new(chunk_size: usize, chunk_overlap: usize) -> (r: TextSplitter)
        requires
            chunk_overlap < chunk_size,
        ensures
            r.size() == chunk_size,
            r.overlap() == chunk_overlap,
    {
        TextSplitter { chunk_size, chunk_overlap }
    }

    /// The chunk size.
    pub fn chunk_size(&self) -> (r: usize)
        ensures
            r == self.size(),
    {
        self.chunk_size
    }

    /// The overlap.
    pub fn chunk_overlap(&self) -> (r: usize)
        ensures
            r == self.overlap(),
            r < self.size(),
    {
        proof {
            use_type_invariant(self);
        }
        self.chunk_overlap
    }

    /// The chunks of `doc`: chunk `k` holds the words `k * step .. k * step + size` of the
    /// document (cut at its end), joined by single spaces, where `step` is the size less the
    /// overlap; the last chunk is the first that reaches the document's last word.
    pub fn split(&self, doc: &Document) -> (r: Vec<Chunk>)
        ensures
            is_chunk_count(
                r@.len() as int,
                self.size() - self.overlap(),
                self.size() as int,
                words(doc.content@).len() as int,
            ),
            forall|k: int|
                0 <= k < r@.len() ==> {
                    &&& (#[trigger] r@[k]).doc_id@ == doc.id@
                    &&& r@[k].chunk_index == k
                    &&& r@[k].embedding is None
                    &&& r@[k].content@ == chunk_text(
                        words(doc.content@),
                        k,
                        self.size() - self.overlap(),
                        self.size() as int,
                    )
                },
    {
        proof {
            use_type_invariant(self);
        }
        let ws = split_words(doc.content.as_str());
        let ghost w = words(doc.content@);
        let len = ws.len();
        let mut chunks: Vec<Chunk> = Vec::new();
        if len == 0 {
            return chunks;
        }
        let size = self.chunk_size;
        let step = self.chunk_size - self.chunk_overlap;
        let ghost st = step as int;
        let mut start: usize = 0;
        let mut idx: usize = 0;
        assert(chunk_start(0, st) == 0);
        loop
            invariant_except_break
                start < len,
                start == chunk_start(idx as int, st),
                idx == chunks@.len(),
                idx <= start,
                forall|k: int| 0 <= k < idx ==> #[trigger] chunk_start(k, st) + size < len,
            invariant
                views(ws@) == w,
                len == w.len(),
                len > 0,
                0 < step <= size,
                st == step,
                step == self.size() - self.overlap(),
                size == self.size(),
                forall|k: int|
                    0 <= k < chunks@.len() ==> {
                        &&& (#[trigger] chunks@[k]).doc_id@ == doc.id@
                        &&& chunks@[k].chunk_index == k
                        &&& chunks@[k].embedding is None
                        &&& chunks@[k].content@ == chunk_text(w, k, st, size as int)
                    },
            ensures
                is_chunk_count(chunks@.len() as int, st, size as int, len as int),
            decreases len - start,
        {
            let end = if len - start <= size {
                len
            } else {
                start + size
            };
            let content = join_range(&ws, start, end, " ");
            proof {
                reveal_strlit(" ");
                assert(" "@ =~= seq![' ']);
            }
            let c = Chunk::new(doc.id.as_str(), idx, content.as_str());
            chunks.push(c);
            if end == len {
                assert(is_chunk_count(chunks@.len() as int, st, size as int, len as int));
                break;
            }
            let ghost ii = idx as int;
            assert((ii + 1) * st == ii * st + st) by (nonlinear_arith);
            start = start + step;
            idx = idx + 1;
        }
        chunks
    }
}

proof fn lemma_chunk_start_step(k: int, step: int)
    ensures
        chunk_start(k + 1, step) == chunk_start(k, step) + step,
{
    assert((k + 1) * step == k * step + step) by (nonlinear_arith);
}

proof fn lemma_chunk_start_mono(k1: int, k2: int, step: int)
    requires
        0 <= k1 <= k2,
        step >= 0,
    ensures
        chunk_start(k1, step) <= chunk_start(k2, step),
{
    assert(k1 * step <= k2 * step) by (nonlinear_arith)
        requires
            0 <= k1 <= k2,
            step >= 0,
    ;
}

/// Every chunk starts inside the text and holds between one and `size` words.
pub proof fn law_chunk_bounds(count: int, step: int, size: int, len: int, k: int)
    requires
        0 < step <= size,
        0 <= len,
        is_chunk_count(count, step, size, len),
        0 <= k < count,
    ensures
        0 <= chunk_start(k, step) < chunk_end(k, step, size, len) <= len,
        chunk_end(k, step, size, len) - chunk_start(k, step) <= size,
{
    lemma_chunk_start_mono(0, k, step);
    assert(chunk_start(0, step) == 0);
    if k < count - 1 {
        assert(chunk_start(k, step) + size < len);
    } else if count >= 2 {
        assert(chunk_start(count - 2, step) + size < len);
        lemma_chunk_start_step(count - 2, step);
        assert(k == count - 1);
        assert(chunk_start(k, step) == chunk_start(count - 2, step) + step);
    } else {
        assert(k == 0);
        assert(len > 0);
    }
}

/// Neighbouring chunks share `size - step` words (the overlap): the next chunk starts that
/// many words before the end of the previous one, and reaches further.
pub proof fn law_chunks_overlap(count: int, step: int, size: int, len: int, k: int)
    requires
        0 < step <= size,
        0 <= len,
        is_chunk_count(count, step, size, len),
        0 <= k < count - 1,
    ensures
        chunk_start(k + 1, step) + (size - step) == chunk_end(k, step, size, len),
        chunk_end(k, step, size, len) < chunk_end(k + 1, step, size, len),
{
    assert(chunk_start(k, step) + size < len);
    lemma_chunk_start_step(k, step);
    law_chunk_bounds(count, step, size, len, k + 1);
}

/// The chunks cover the text: every word lies in some chunk.
pub proof fn law_chunks_cover(count: int, step: int, size: int, len: int, j: int)
    requires
        0 < step <= size,
        0 <= len,
        is_chunk_count(count, step, size, len),
        0 <= j < len,
    ensures
        exists|k: int| 0 <= k < count && #[trigger] chunk_start(k, step) <= j < chunk_end(k, step, size, len),
{
    let q = j / step;
    assert(q * step <= j < q * step + step) by (nonlinear_arith)
        requires
            step > 0,
            j >= 0,
            q == j / step,
    ;
    assert(q >= 0) by (nonlinear_arith)
        requires
            step > 0,
            j >= 0,
            q == j / step,
    ;
    if q < count {
        assert(chunk_start(q, step) <= j < chunk_end(q, step, size, len));
    } else {
        lemma_chunk_start_mono(count - 1, q, step);
        assert(chunk_start(count - 1, step) <= j < chunk_end(count - 1, step, size, len));
    }
}

/// Splitting a chunk's text into words gives back the words of the document that the chunk
/// covers.
pub proof fn law_chunk_words(text: Seq<char>, count: int, step: int, size: int, k: int)
    requires
        0 < step <= size,
        is_chunk_count(count, step, size, words(text).len() as int),
        0 <= k < count,
    ensures
        words(chunk_text(words(text), k, step, size)) == words(text).subrange(
            chunk_start(k, step),
            chunk_end(k, step, size, words(text).len() as int),
        ),
{
    let w = words(text);
    law_chunk_bounds(count, step, size, w.len() as int, k);
    law_words_are_words(text);
    let sub = w.subrange(chunk_start(k, step), chunk_end(k, step, size, w.len() as int));
    assert forall|i: int| 0 <= i < sub.len() implies is_word(#[trigger] sub[i]) by {
        assert(sub[i] == w[chunk_start(k, step) + i]);
    }
    law_words_of_join(sub);
}

} // verus!
