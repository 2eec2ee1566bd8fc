use vstd::prelude::*;

use crate::chunker::{chunk_text, is_chunk_count, TextSplitter};
use crate::document::{Chunk, Document};
use crate::ranking::is_top_ranking;
use crate::store::{is_nan_bits, score_keys, VectorStore};
use crate::text::{decimal, decimal_string, join, words};

verus! {

/// The context line of the `i`-th retrieved chunk (counting from 0):
/// `[i+1] (doc: <doc id>) <content>`.
pub open spec fn context_entry(i: int, c: Chunk) -> Seq<char> {
    "["@ + decimal((i + 1) as nat) + "] (doc: "@ + c.doc_id@ + ") "@ + c.content@
}

/// The context block of the retrieved chunks: their lines, separated by blank lines.
pub open spec fn context_of(chunks: Seq<Chunk>) -> Seq<char> {
    join(Seq::new(chunks.len(), |i: int| context_entry(i, chunks[i])), "\n\n"@)
}

/// The prompt for `query` with the context block `context`.
pub open spec fn prompt_of(query: Seq<char>, context: Seq<char>) -> Seq<char> {
    "Use the following context to answer the question.\n\nContext:\n"@ + context
        + "\n\nQuestion: "@ + query + "\n\nAnswer:"@
}

/// The chunks that `add_document` stores: chunk `k` of the document, with embedding
/// `embeddings[k]`.
pub open spec fn embedded_chunks_of(
    added: Seq<Chunk>,
    doc: Document,
    embeddings: Seq<Vec<u32>>,
    step: int,
    size: int,
) -> bool {
    &&& added.len() == embeddings.len()
    &&& forall|k: int|
        0 <= k < added.len() ==> {
            &&& (#[trigger] added[k]).doc_id@ == doc.id@
            &&& added[k].chunk_index == k
            &&& added[k].content@ == chunk_text(words(doc.content@), k, step, size)
            &&& added[k].embedding matches Some(e) && e@ == embeddings[k]@
        }
}

/// A retrieval pipeline: documents are split into chunks, stored with their embeddings,
/// and the best chunks for a query are assembled into a prompt.
pub struct RagPipeline {
    splitter: TextSplitter,
    store: VectorStore,
}

impl RagPipeline {
    /// The stored chunks.
    pub closed spec fn stored(self) -> Seq<Chunk> {
        self.store@
    }

    /// The splitter's chunk size.
    pub closed spec fn size(self) -> nat {
        self.splitter.size()
    }

    /// The splitter's overlap.
    pub closed spec fn overlap(self) -> nat {
        self.splitter.overlap()
    }

    /// An empty pipeline with the given chunking; the overlap must be smaller than the size.
    pub fn new(chunk_size: usize, chunk_overlap: usize) -> (r: RagPipeline)
        requires
            chunk_overlap < chunk_size,
        ensures
            r.stored() == Seq::<Chunk>::empty(),
            r.size() == chunk_size,
            r.overlap() == chunk_overlap,
            r.overlap() < r.size(),
    {
        RagPipeline { splitter: TextSplitter::new(chunk_size, chunk_overlap), store: VectorStore::new() }
    }

    /// The chunk size; the overlap of every pipeline is smaller.
    pub fn chunk_size(&self) -> (r: usize)
        ensures
            r == self.size(),
            self.overlap() < self.size(),
    {
        let _ = self.splitter.chunk_overlap();
        self.splitter.chunk_size()
    }

    /// The overlap of neighbouring chunks, smaller than the chunk size.
    pub fn chunk_overlap(&self) -> (r: usize)
        ensures
            r == self.overlap(),
            r < self.size(),
    {
        self.splitter.chunk_overlap()
    }

    /// The chunks of `doc`, without embeddings, as `add_document` will store them.
    pub fn chunks_of(&self, doc: &Document) -> (r: Vec<Chunk>)
        ensures
            is_chunk_count(
                r@.len() as int,
                self.size() - self.overlap(),
                self.size() as int,
                words(doc.content@).len() as int,
            ),
            forall|k: int|
                0 <= k < r@.len() ==> {
                    &&& (#[trigger] r@[k]).doc_id@ == doc.id@
                    &&& r@[k].chunk_index == k
                    &&& r@[k].embedding is None
                    &&& r@[k].content@ == chunk_text(
                        words(doc.content@),
                        k,
                        self.size() - self.overlap(),
                        self.size() as int,
                    )
                },
    {
        self.splitter.split(doc)
    }

    /// Stores the chunks of `doc` with their embeddings, `embeddings[k]` for chunk `k`
    /// (single-precision bit patterns); there is one embedding per chunk.
    pub fn add_document(&mut self, doc: &Document, embeddings: Vec<Vec<u32>>)
        requires
            is_chunk_count(
                embeddings@.len() as int,
                old(self).size() - old(self).overlap(),
                old(self).size() as int,
                words(doc.content@).len() as int,
            ),
        ensures
            final(self).size() == old(self).size(),
            final(self).overlap() == old(self).overlap(),
            final(self).overlap() < final(self).size(),
            final(self).stored().len() == old(self).stored().len() + embeddings@.len(),
            final(self).stored().take(old(self).stored().len() as int) == old(self).stored(),
            embedded_chunks_of(
                final(self).stored().skip(old(self).stored().len() as int),
                *doc,
                embeddings@,
                old(self).size() - old(self).overlap(),
                old(self).size() as int,
            ),
    {
        let mut chunks = self.splitter.split(doc);
        let _ = self.splitter.chunk_overlap();
        let ghost plain = chunks@;
        proof {
            lemma_chunk_count_unique(
                chunks@.len() as int,
                embeddings@.len() as int,
                self.size() - self.overlap(),
                self.size() as int,
                words(doc.content@).len() as int,
            );
        }
        let mut embeddings = embeddings;
        let ghost embs = embeddings@;
        let n = chunks.len();
        let mut k: usize = 0;
        while k < n
            invariant
                n == chunks@.len(),
                n == embeddings@.len(),
                n == plain.len(),
                k <= n,
                forall|j: int| k <= j < n ==> #[trigger] embeddings@[j] == embs[j],
                forall|j: int| 0 <= j < n ==> {
                    &&& (#[trigger] chunks@[j]).doc_id == plain[j].doc_id
                    &&& chunks@[j].chunk_index == plain[j].chunk_index
                    &&& chunks@[j].content == plain[j].content
                },
                forall|j: int| 0 <= j < k ==> ((#[trigger] chunks@[j]).embedding matches Some(e) && e@ == embs[j]@),
            decreases n - k,
        {
            let mut e: Vec<u32> = Vec::new();
            std::mem::swap(&mut e, &mut embeddings[k]);
            chunks[k].embedding = Some(e);
            k = k + 1;
        }
        self.store.insert_many(chunks);
        proof {
            let added = self.store@.skip(old(self).store@.len() as int);
            assert(added =~= chunks@);
            assert(self.store@.take(old(self).store@.len() as int) =~= old(self).store@);
        }
    }

    /// The `top_k` stored chunks with the best scores, best first. `scores[i]` is the
    /// single-precision bit pattern of stored chunk `i`'s similarity to the query, given
    /// exactly for the chunks with an embedding; no score is NaN.
    pub fn retrieve(&self, scores: &Vec<Option<u32>>, top_k: usize) -> (r: Vec<&Chunk>)
        requires
            scores@.len() == self.stored().len(),
            forall|i: int|
                0 <= i < scores@.len() ==> ((#[trigger] scores@[i]) is Some <==> self.stored()[i].embedding is Some),
            forall|i: int|
                0 <= i < scores@.len() && (#[trigger] scores@[i]) is Some ==> !is_nan_bits(
                    scores@[i].unwrap(),
                ),
        ensures
            exists|p: Seq<usize>|
                {
                    &&& is_top_ranking(score_keys(scores@), top_k as nat, p)
                    &&& r@.len() == p.len()
                    &&& forall|t: int| 0 <= t < p.len() ==> r@[t] == self.stored()[#[trigger] p[t] as int]
                },
    {
        self.store.search(scores, top_k)
    }

    /// The stored chunks.
    pub fn store(&self) -> (r: &VectorStore)
        ensures
            r@ == self.stored(),
    {
        &self.store
    }

    /// The number of stored chunks.
    pub fn chunk_count(&self) -> (n: usize)
        ensures
            n == self.stored().len(),
    {
        self.store.len()
    }

    /// The context block for retrieved chunks: one line `[n] (doc: <id>) <content>` per chunk,
    /// numbered from 1, separated by blank lines.
    pub fn build_context(retrieved: &Vec<&Chunk>) -> (r: String)
        ensures
            r@ == context_of(retrieved@.map_values(|c: &Chunk| *c)),
    {
        let ghost cs = retrieved@.map_values(|c: &Chunk| *c);
        let ghost entries = Seq::new(cs.len(), |i: int| context_entry(i, cs[i]));
        let mut r = String::new();
        let n = retrieved.len();
        let mut i: usize = 0;
        assert(entries.take(0) =~= Seq::<Seq<char>>::empty());
        while i < n
            invariant
                n == retrieved@.len(),
                cs == retrieved@.map_values(|c: &Chunk| *c),
                entries == Seq::new(cs.len(), |i: int| context_entry(i, cs[i])),
                i <= n,
                r@ == join(entries.take(i as int), "\n\n"@),
            decreases n - i,
        {
            let c: &Chunk = retrieved[i];
            let ghost before = r@;
            if i > 0 {
                r.append("\n\n");
            }
            r.append("[");
            let num = decimal_string(i + 1);
            r.append(num.as_str());
            r.append("] (doc: ");
            r.append(c.doc_id.as_str());
            r.append(") ");
            r.append(c.content.as_str());
            proof {
                assert(entries.take(i + 1).drop_last() =~= entries.take(i as int));
                assert(entries.take(i + 1).last() == context_entry(i as int, cs[i as int]));
                if i > 0 {
                    assert(r@ =~= before + "\n\n"@ + context_entry(i as int, cs[i as int]));
                } else {
                    assert(entries.take(1) =~= seq![context_entry(0, cs[0])]);
                    assert(r@ =~= context_entry(0, cs[0]));
                }
            }
            i = i + 1;
        }
        assert(entries.take(n as int) =~= entries);
        r
    }

    /// The prompt for `query` with the context block `context`.
    pub fn build_prompt(query: &str, context: &str) -> (r: String)
        ensures
            r@ == prompt_of(query@, context@),
    {
        let mut r = String::new();
        r.append("Use the following context to answer the question.\n\nContext:\n");
        r.append(context);
        r.append("\n\nQuestion: ");
        r.append(query);
        r.append("\n\nAnswer:");
        assert(r@ =~= prompt_of(query@, context@));
        r
    }
}

/// The number of chunks of a text is determined by its length, the size and the step.
pub proof fn lemma_chunk_count_unique(c1: int, c2: int, step: int, size: int, len: int)
    requires
        step > 0,
        is_chunk_count(c1, step, size, len),
        is_chunk_count(c2, step, size, len),
    ensures
        c1 == c2,
{
    if len > 0 && c1 != c2 {
        if c1 < c2 {
            assert(crate::chunker::chunk_start(c1 - 1, step) + size < len);
        } else {
            assert(crate::chunker::chunk_start(c2 - 1, step) + size < len);
        }
    }
}

} // verus!
