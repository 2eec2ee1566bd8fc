use rust_llm_inference::chunker::TextSplitter;
use rust_llm_inference::document::{Chunk, Document, Metadata};
use rust_llm_inference::embedder::{normalise, trim_non_alphabetic, BagOfWordsEmbedder};
use rust_llm_inference::pipeline::RagPipeline;
use rust_llm_inference::ranking::top_ranked;
use rust_llm_inference::store::{order_key, VectorStore};

fn cosine_similarity(a: &[f32], b: &[f32]) -> f32 {
    let dot: f32 = a.iter().zip(b).map(|(x, y)| x * y).sum();
    let norm_a: f32 = a.iter().map(|x| x * x).sum::<f32>().sqrt();
    let norm_b: f32 = b.iter().map(|x| x * x).sum::<f32>().sqrt();
    if norm_a == 0.0 || norm_b == 0.0 {
        0.0
    } else {
        dot / (norm_a * norm_b)
    }
}

fn chunk_with_emb(doc_id: &str, emb: Vec<f32>) -> Chunk {
    let mut c = Chunk::new(doc_id, 0, "");
    c.embedding = Some(emb.iter().map(|x| x.to_bits()).collect());
    c
}

fn scores_for(store: &VectorStore, query: &[f32]) -> Vec<Option<u32>> {
    store
        .chunks()
        .iter()
        .map(|c| {
            c.embedding.as_ref().map(|e| {
                let e: Vec<f32> = e.iter().map(|b| f32::from_bits(*b)).collect();
                cosine_similarity(query, &e).to_bits()
            })
        })
        .collect()
}

#[test]
fn splits_into_chunks_with_overlap() {
    let doc = Document::new("d1", "t", "a b c d e f g h i j");
    let splitter = TextSplitter::new(4, 1);
    let chunks = splitter.split(&doc);
    assert_eq!(chunks[0].content, "a b c d");
    assert_eq!(chunks[1].content, "d e f g");
}

#[test]
fn single_chunk_when_content_fits() {
    let doc = Document::new("d2", "t", "hello world");
    let splitter = TextSplitter::new(10, 2);
    let chunks = splitter.split(&doc);
    assert_eq!(chunks.len(), 1);
    assert_eq!(chunks[0].content, "hello world");
}

#[test]
fn empty_document_yields_no_chunks() {
    let doc = Document::new("d3", "t", "");
    let splitter = TextSplitter::new(4, 1);
    assert!(splitter.split(&doc).is_empty());
}

#[test]
fn retrieves_nearest_chunk() {
    let mut store = VectorStore::new();
    store.insert(chunk_with_emb("doc-0", vec![1.0, 0.0]));
    store.insert(chunk_with_emb("doc-1", vec![0.0, 1.0]));

    let scores = scores_for(&store, &[1.0, 0.0]);
    let results = store.search(&scores, 1);
    assert_eq!(results.len(), 1);
    assert_eq!(results[0].doc_id, "doc-0");
}

#[test]
fn returns_top_k_in_order() {
    let mut store = VectorStore::new();
    store.insert(chunk_with_emb("a", vec![1.0, 0.0]));
    store.insert(chunk_with_emb("b", vec![0.8, 0.6]));
    store.insert(chunk_with_emb("c", vec![0.0, 1.0]));

    let scores = scores_for(&store, &[1.0, 0.0]);
    let results = store.search(&scores, 2);
    assert_eq!(results[0].doc_id, "a");
    assert_eq!(results[1].doc_id, "b");
}

#[test]
fn skips_chunks_without_embedding() {
    let mut store = VectorStore::new();
    store.insert(Chunk::new("no-emb", 0, ""));
    store.insert(chunk_with_emb("has-emb", vec![1.0]));

    let scores = scores_for(&store, &[1.0]);
    let results = store.search(&scores, 5);
    assert_eq!(results.len(), 1);
    assert_eq!(results[0].doc_id, "has-emb");
}

#[test]
fn chunks_carry_document_id_and_index() {
    let doc = Document::new("doc-7", "t", "  one two\tthree\nfour five six seven  ");
    let chunks = TextSplitter::new(3, 1).split(&doc);
    let contents: Vec<&str> = chunks.iter().map(|c| c.content.as_str()).collect();
    assert_eq!(contents, vec!["one two three", "three four five", "five six seven"]);
    for (i, c) in chunks.iter().enumerate() {
        assert_eq!(c.doc_id, "doc-7");
        assert_eq!(c.chunk_index, i);
        assert!(c.embedding.is_none());
    }
}

#[test]
fn last_chunk_is_cut_at_the_end() {
    let doc = Document::new("d", "t", "a b c d e f");
    let chunks = TextSplitter::new(4, 2).split(&doc);
    let contents: Vec<&str> = chunks.iter().map(|c| c.content.as_str()).collect();
    assert_eq!(contents, vec!["a b c d", "c d e f"]);
    let chunks = TextSplitter::new(4, 1).split(&doc);
    let contents: Vec<&str> = chunks.iter().map(|c| c.content.as_str()).collect();
    assert_eq!(contents, vec!["a b c d", "d e f"]);
}

#[test]
fn neighbouring_chunks_share_the_overlap() {
    let text: Vec<String> = (0..23).map(|i| format!("w{i}")).collect();
    let doc = Document::new("d", "t", &text.join(" "));
    let chunks = TextSplitter::new(5, 2).split(&doc);
    for pair in chunks.windows(2) {
        let a: Vec<&str> = pair[0].content.split(' ').collect();
        let b: Vec<&str> = pair[1].content.split(' ').collect();
        assert_eq!(&a[a.len() - 2..], &b[..2]);
    }
    let mut covered: Vec<&str> = Vec::new();
    for c in &chunks {
        for w in c.content.split(' ') {
            if !covered.contains(&w) {
                covered.push(w);
            }
        }
    }
    assert_eq!(covered.len(), 23);
}

#[test]
fn unicode_white_space_separates_words() {
    let doc = Document::new("d", "t", "a\u{3000}b\u{a0}c\u{2003}d\u{85}e");
    let chunks = TextSplitter::new(10, 0).split(&doc);
    assert_eq!(chunks.len(), 1);
    assert_eq!(chunks[0].content, "a b c d e");
}

#[test]
fn splitter_reports_its_settings() {
    let s = TextSplitter::new(40, 8);
    assert_eq!(s.chunk_size(), 40);
    assert_eq!(s.chunk_overlap(), 8);
}

#[test]
fn metadata_keeps_one_value_per_key() {
    let doc = Document::new("id", "title", "body")
        .with_metadata("lang", "en")
        .with_metadata("source", "web")
        .with_metadata("lang", "fr");
    assert_eq!(doc.id, "id");
    assert_eq!(doc.title, "title");
    assert_eq!(doc.content, "body");
    assert_eq!(doc.metadata.len(), 2);
    assert_eq!(doc.metadata.get("lang").map(|s| s.as_str()), Some("fr"));
    assert_eq!(doc.metadata.get("source").map(|s| s.as_str()), Some("web"));
    assert!(doc.metadata.get("missing").is_none());
    let pairs: Vec<(String, String)> = doc.metadata.pairs().clone();
    assert_eq!(
        pairs,
        vec![("lang".to_string(), "fr".to_string()), ("source".to_string(), "web".to_string())]
    );
}

#[test]
fn new_metadata_is_empty() {
    let m = Metadata::new();
    assert_eq!(m.len(), 0);
    assert!(Document::new("a", "b", "c").metadata.get("a").is_none());
}

#[test]
fn chunk_new_has_no_embedding() {
    let c = Chunk::new("doc", 3, "text");
    assert_eq!(c.doc_id, "doc");
    assert_eq!(c.chunk_index, 3);
    assert_eq!(c.content, "text");
    assert!(c.embedding.is_none());
}

#[test]
fn normalise_lowercases_and_trims() {
    assert_eq!(normalise("Hello,"), "hello");
    assert_eq!(normalise("(RUST)"), "rust");
    assert_eq!(normalise("Rust's"), "rust's");
    assert_eq!(normalise("123"), "");
    assert_eq!(normalise("--"), "");
    assert_eq!(normalise("ÉLAN!"), "élan");
    assert_eq!(normalise("key-value"), "key-value");
}

#[test]
fn trim_keeps_inner_characters() {
    assert_eq!(trim_non_alphabetic("--ab-c--"), "ab-c");
    assert_eq!(trim_non_alphabetic("42"), "");
    assert_eq!(trim_non_alphabetic("x"), "x");
    assert_eq!(trim_non_alphabetic("ABC"), "ABC");
}

#[test]
fn vocabulary_is_most_frequent_words() {
    let corpus = ["the cat sat on the mat", "The dog sat.", "a cat, a dog; THE end"];
    let e = BagOfWordsEmbedder::new(&corpus, 3);
    assert_eq!(e.dim(), 3);
    let vocab: Vec<&str> = e.vocab().iter().map(|s| s.as_str()).collect();
    assert_eq!(vocab.len(), 3);
    assert_eq!(vocab[0], "the");
    // "cat", "sat", "a" and "dog" all occur twice: any two of them may follow.
    for w in &vocab[1..] {
        assert!(["cat", "sat", "a", "dog"].contains(w));
    }
    assert_ne!(vocab[1], vocab[2]);
}

#[test]
fn vocabulary_smaller_than_dim_holds_every_token() {
    let corpus = ["Alpha beta", "beta 42 gamma!"];
    let e = BagOfWordsEmbedder::new(&corpus, 10);
    let mut vocab: Vec<String> = e.vocab().clone();
    assert_eq!(vocab[0], "beta");
    vocab.sort();
    assert_eq!(vocab, vec!["alpha", "beta", "gamma"]);
}

#[test]
fn embed_indices_counts_known_words() {
    let corpus = ["red red red blue blue green"];
    let e = BagOfWordsEmbedder::new(&corpus, 2);
    let vocab: Vec<&str> = e.vocab().iter().map(|s| s.as_str()).collect();
    assert_eq!(vocab, vec!["red", "blue"]);
    let (hits, n) = e.embed_indices("Blue sky, RED sun red!");
    assert_eq!(n, 5);
    assert_eq!(hits, vec![1, 0, 0]);
    let (hits, n) = e.embed_indices("   ");
    assert_eq!(n, 0);
    assert!(hits.is_empty());
}

#[test]
fn order_key_orders_like_floats() {
    let values: Vec<f32> = vec![
        f32::NEG_INFINITY,
        -1.0e30,
        -2.5,
        -1.0,
        -1.0e-40,
        -0.0,
        0.0,
        1.0e-40,
        0.5,
        0.8,
        1.0,
        3.0e38,
        f32::INFINITY,
    ];
    for a in &values {
        for b in &values {
            let ka = order_key(a.to_bits());
            let kb = order_key(b.to_bits());
            assert_eq!(a.partial_cmp(b).unwrap(), ka.cmp(&kb), "{a} vs {b}");
        }
    }
}

#[test]
fn ranking_keeps_insertion_order_on_ties() {
    let keys = vec![Some(3), None, Some(5), Some(3), Some(5), None, Some(1)];
    assert_eq!(top_ranked(&keys, 10), vec![2, 4, 0, 3, 6]);
    assert_eq!(top_ranked(&keys, 3), vec![2, 4, 0]);
    assert_eq!(top_ranked(&keys, 0), Vec::<usize>::new());
    assert_eq!(top_ranked(&vec![None, None], 2), Vec::<usize>::new());
}

#[test]
fn store_counts_and_appends() {
    let mut store = VectorStore::default();
    assert!(store.is_empty());
    store.insert(Chunk::new("a", 0, "x"));
    store.insert_many(vec![Chunk::new("b", 0, "y"), Chunk::new("b", 1, "z")]);
    assert_eq!(store.len(), 3);
    assert!(!store.is_empty());
    let ids: Vec<&str> = store.chunks().iter().map(|c| c.doc_id.as_str()).collect();
    assert_eq!(ids, vec!["a", "b", "b"]);
}

#[test]
fn equal_scores_keep_insertion_order() {
    let mut store = VectorStore::new();
    store.insert(chunk_with_emb("first", vec![0.0, 1.0]));
    store.insert(chunk_with_emb("second", vec![0.0, 2.0]));
    store.insert(chunk_with_emb("best", vec![1.0, 0.0]));
    let scores = scores_for(&store, &[1.0, 0.0]);
    let ids: Vec<&str> = store.search(&scores, 3).iter().map(|c| c.doc_id.as_str()).collect();
    assert_eq!(ids, vec!["best", "first", "second"]);
    assert_eq!(store.search_positions(&scores, 2), vec![2, 0]);
}

fn embed_bits(e: &BagOfWordsEmbedder, text: &str) -> Vec<u32> {
    let (hits, n) = e.embed_indices(text);
    let mut v = vec![0.0f32; e.dim()];
    if n > 0 {
        let w = 1.0 / n as f32;
        for i in hits {
            v[i] += w;
        }
    }
    v.iter().map(|x| x.to_bits()).collect()
}

#[test]
fn pipeline_indexes_and_retrieves() {
    let corpus = ["Cargo is the package manager.", "The borrow checker enforces memory safety."];
    let e = BagOfWordsEmbedder::new(&corpus, 64);
    let mut p = RagPipeline::new(40, 8);
    for (i, text) in corpus.iter().enumerate() {
        let doc = Document::new(&format!("doc-{i}"), &format!("Snippet {i}"), text);
        let embs: Vec<Vec<u32>> = p.chunks_of(&doc).iter().map(|c| embed_bits(&e, &c.content)).collect();
        p.add_document(&doc, embs);
    }
    assert_eq!(p.chunk_count(), 2);
    let q = embed_bits(&e, "memory safety");
    let q: Vec<f32> = q.iter().map(|b| f32::from_bits(*b)).collect();
    let scores = scores_for(p.store(), &q);
    let found = p.retrieve(&scores, 1);
    assert_eq!(found.len(), 1);
    assert_eq!(found[0].doc_id, "doc-1");
    let ctx = RagPipeline::build_context(&found);
    assert_eq!(ctx, "[1] (doc: doc-1) The borrow checker enforces memory safety.");
}

#[test]
fn context_numbers_chunks_and_separates_them() {
    let a = Chunk::new("x", 0, "alpha");
    let b = Chunk::new("y", 4, "beta gamma");
    let ctx = RagPipeline::build_context(&vec![&a, &b]);
    assert_eq!(ctx, "[1] (doc: x) alpha\n\n[2] (doc: y) beta gamma");
    assert_eq!(RagPipeline::build_context(&vec![]), "");
    let many: Vec<Chunk> = (0..12).map(|i| Chunk::new("d", i, "c")).collect();
    let refs: Vec<&Chunk> = many.iter().collect();
    let ctx = RagPipeline::build_context(&refs);
    assert!(ctx.ends_with("\n\n[12] (doc: d) c"));
}

#[test]
fn prompt_wraps_context_and_question() {
    let p = RagPipeline::build_prompt("What is Rust?", "[1] (doc: a) Rust is a language.");
    assert_eq!(
        p,
        "Use the following context to answer the question.\n\nContext:\n[1] (doc: a) Rust is a language.\n\nQuestion: What is Rust?\n\nAnswer:"
    );
}

#[test]
fn add_document_attaches_embeddings_in_order() {
    let mut p = RagPipeline::new(2, 0);
    let doc = Document::new("d", "t", "a b c");
    assert_eq!(p.chunks_of(&doc).len(), 2);
    p.add_document(&doc, vec![vec![1, 2], vec![3]]);
    let stored = p.store().chunks();
    assert_eq!(stored.len(), 2);
    assert_eq!(stored[0].content, "a b");
    assert_eq!(stored[0].embedding, Some(vec![1, 2]));
    assert_eq!(stored[1].content, "c");
    assert_eq!(stored[1].chunk_index, 1);
    assert_eq!(stored[1].embedding, Some(vec![3]));
}

#[test]
fn search_with_zero_top_k_is_empty() {
    let mut store = VectorStore::new();
    store.insert(chunk_with_emb("a", vec![1.0]));
    let scores = scores_for(&store, &[1.0]);
    assert!(store.search(&scores, 0).is_empty());
    let empty = VectorStore::new();
    assert!(empty.search(&Vec::new(), 3).is_empty());
}

#[test]
fn negative_scores_rank_below_zero() {
    let mut store = VectorStore::new();
    store.insert(chunk_with_emb("opposite", vec![-1.0, 0.0]));
    store.insert(chunk_with_emb("orthogonal", vec![0.0, 1.0]));
    store.insert(chunk_with_emb("zero", vec![0.0, 0.0]));
    store.insert(chunk_with_emb("same", vec![2.0, 0.0]));
    let scores = scores_for(&store, &[1.0, 0.0]);
    let ids: Vec<&str> = store.search(&scores, 10).iter().map(|c| c.doc_id.as_str()).collect();
    assert_eq!(ids, vec!["same", "orthogonal", "zero", "opposite"]);
}
