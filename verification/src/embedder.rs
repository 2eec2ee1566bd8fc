use vstd::prelude::*;

use crate::ranking::{is_top_ranking, ranked_before, top_ranked};
use crate::text::{chars_of, push_char, split_words, views, words};

verus! {

/// What `str::to_lowercase` returns for a string with characters `s` (Unicode lower-case
/// mapping, which may change the length).
pub uninterp spec fn spec_to_lowercase(s: Seq<char>) -> Seq<char>;

/// What `char::is_alphabetic` returns for `c` (the Unicode `Alphabetic` property).
pub uninterp spec fn spec_is_alphabetic(c: char) -> bool;

/// The lower-case form of `s`, by `str::to_lowercase`.
#[verifier::external_body]
fn to_lowercase(s: &str) -> (r: String)
    ensures
        r@ == spec_to_lowercase(s@),
{
    s.to_lowercase()
}

/// Whether `c` is alphabetic, by `char::is_alphabetic`.
#[verifier::external_body]
fn is_alphabetic(c: char) -> (r: bool)
    ensures
        r == spec_is_alphabetic(c),
{
    c.is_alphabetic()
}

/// `s` without its leading characters that are not alphabetic.
pub open spec fn trim_start_non_alphabetic(s: Seq<char>) -> Seq<char>
    decreases s.len(),
{
    if s.len() > 0 && !spec_is_alphabetic(s[0]) {
        trim_start_non_alphabetic(s.drop_first())
    } else {
        s
    }
}

/// `s` without its trailing characters that are not alphabetic.
pub open spec fn trim_end_non_alphabetic(s: Seq<char>) -> Seq<char>
    decreases s.len(),
{
    if s.len() > 0 && !spec_is_alphabetic(s.last()) {
        trim_end_non_alphabetic(s.drop_last())
    } else {
        s
    }
}

/// The vocabulary form of a word: lower-cased, without the characters that are not
/// alphabetic at either end.
pub open spec fn normalised(w: Seq<char>) -> Seq<char> {
    trim_end_non_alphabetic(trim_start_non_alphabetic(spec_to_lowercase(w)))
}

/// The vocabulary form of `word`.
pub fn normalise(word: &str) -> (r: String)
    ensures
        r@ == normalised(word@),
{
    let lower = to_lowercase(word);
    trim_non_alphabetic(lower.as_str())
}

/// `text` without the characters that are not alphabetic at either end.
pub fn trim_non_alphabetic(text: &str) -> (r: String)
    ensures
        r@ == trim_end_non_alphabetic(trim_start_non_alphabetic(text@)),
{
    let cs = chars_of(text);
    let ghost s = cs@;
    let n = cs.len();
    let mut i: usize = 0;
    assert(s.skip(0) =~= s);
    while i < n && !is_alphabetic(cs[i])
        invariant
            i <= n,
            n == s.len(),
            cs@ == s,
            trim_start_non_alphabetic(s) == trim_start_non_alphabetic(s.skip(i as int)),
        decreases n - i,
    {
        assert(s.skip(i as int).drop_first() =~= s.skip(i + 1));
        i = i + 1;
    }
    assert(trim_start_non_alphabetic(s.skip(i as int)) == s.skip(i as int));
    assert(s.skip(i as int) =~= s.subrange(i as int, n as int));
    let mut j: usize = n;
    while j > i && !is_alphabetic(cs[j - 1])
        invariant
            i <= j <= n,
            n == s.len(),
            cs@ == s,
            trim_end_non_alphabetic(s.subrange(i as int, n as int))
                == trim_end_non_alphabetic(s.subrange(i as int, j as int)),
        decreases j,
    {
        assert(s.subrange(i as int, j as int).drop_last() =~= s.subrange(i as int, j - 1));
        j = j - 1;
    }
    let ghost t = s.subrange(i as int, j as int);
    assert(trim_end_non_alphabetic(t) == t);
    let mut r = String::new();
    let mut k: usize = i;
    while k < j
        invariant
            i <= k <= j <= n,
            n == s.len(),
            cs@ == s,
            r@ == s.subrange(i as int, k as int),
        decreases j - k,
    {
        push_char(&mut r, cs[k]);
        assert(r@ =~= s.subrange(i as int, k + 1));
        k = k + 1;
    }
    r
}

/// The vocabulary tokens of the words `ws`: their vocabulary forms, leaving out those that
/// are empty.
pub open spec fn tokens(ws: Seq<Seq<char>>) -> Seq<Seq<char>>
    decreases ws.len(),
{
    if ws.len() == 0 {
        seq![]
    } else if normalised(ws.last()).len() == 0 {
        tokens(ws.drop_last())
    } else {
        tokens(ws.drop_last()).push(normalised(ws.last()))
    }
}

/// The vocabulary tokens of the texts `texts`, text after text.
pub open spec fn corpus_tokens(texts: Seq<Seq<char>>) -> Seq<Seq<char>>
    decreases texts.len(),
{
    if texts.len() == 0 {
        seq![]
    } else {
        corpus_tokens(texts.drop_last()) + tokens(words(texts.last()))
    }
}

/// The number of words of the texts `texts`.
pub open spec fn total_words(texts: Seq<Seq<char>>) -> nat
    decreases texts.len(),
{
    if texts.len() == 0 {
        0
    } else {
        total_words(texts.drop_last()) + words(texts.last()).len()
    }
}

/// How often `w` occurs in `s`.
pub open spec fn count_of(s: Seq<Seq<char>>, w: Seq<char>) -> nat
    decreases s.len(),
{
    if s.len() == 0 {
        0
    } else {
        count_of(s.drop_last(), w) + if s.last() == w { 1nat } else { 0nat }
    }
}

/// The character views of the texts of a corpus.
pub open spec fn text_views(corpus: Seq<&str>) -> Seq<Seq<char>> {
    corpus.map_values(|t: &str| t@)
}

/// `v` is a vocabulary of at most `dim` tokens taken from `toks` by frequency: distinct
/// tokens, each occurring in `toks`, from most to least frequent, and a token left out
/// occurs no more often than any token taken, and is left out only when `dim` tokens
/// were taken. Tokens of equal frequency may come in any order.
pub open spec fn is_frequency_vocab(toks: Seq<Seq<char>>, dim: nat, v: Seq<Seq<char>>) -> bool {
    &&& v.len() <= dim
    &&& forall|a: int, b: int| 0 <= a < v.len() && 0 <= b < v.len() && a != b ==> v[a] != v[b]
    &&& forall|a: int| 0 <= a < v.len() ==> count_of(toks, #[trigger] v[a]) > 0
    &&& forall|a: int, b: int|
        0 <= a < b < v.len() ==> count_of(toks, #[trigger] v[a]) >= count_of(toks, #[trigger] v[b])
    &&& forall|w: Seq<char>|
        count_of(toks, w) > 0 && !v.contains(w) ==> {
            &&& v.len() == dim
            &&& forall|a: int| 0 <= a < v.len() ==> count_of(toks, #[trigger] v[a]) >= count_of(toks, w)
        }
}

/// The vocabulary positions of the words `ws` that are in the vocabulary `v`, word by word.
pub open spec fn hits(v: Seq<Seq<char>>, ws: Seq<Seq<char>>) -> Seq<usize>
    decreases ws.len(),
{
    if ws.len() == 0 {
        seq![]
    } else if v.contains(normalised(ws.last())) {
        hits(v, ws.drop_last()).push(choose|k: usize| k < v.len() && v[k as int] == normalised(ws.last()))
    } else {
        hits(v, ws.drop_last())
    }
}

/// The tokens of some words are their vocabulary forms, in order, leaving out exactly those
/// that are empty.
pub proof fn law_tokens_are_nonempty_forms(ws: Seq<Seq<char>>)
    ensures
        tokens(ws) == ws.map_values(|w: Seq<char>| normalised(w)).filter(|t: Seq<char>| t.len() > 0),
    decreases ws.len(),
{
    let m = ws.map_values(|w: Seq<char>| normalised(w));
    let keep = |t: Seq<char>| t.len() > 0;
    if ws.len() == 0 {
        assert(m =~= Seq::<Seq<char>>::empty());
        reveal(Seq::filter);
    } else {
        law_tokens_are_nonempty_forms(ws.drop_last());
        let md = ws.drop_last().map_values(|w: Seq<char>| normalised(w));
        assert(m =~= md.push(normalised(ws.last())));
        md.lemma_filter_push(normalised(ws.last()), keep);
    }
}

/// A word whose vocabulary form is not empty adds that form to the tokens; any other word
/// adds nothing.
pub proof fn law_tokens_push(ws: Seq<Seq<char>>, w: Seq<char>)
    ensures
        normalised(w).len() > 0 ==> tokens(ws.push(w)) == tokens(ws).push(normalised(w)),
        normalised(w).len() == 0 ==> tokens(ws.push(w)) == tokens(ws),
{
    assert(ws.push(w).drop_last() =~= ws);
}

/// The tokens of a corpus with one more text are those of the corpus followed by the tokens
/// of the new text's words.
pub proof fn law_corpus_tokens_push(texts: Seq<Seq<char>>, t: Seq<char>)
    ensures
        corpus_tokens(texts.push(t)) == corpus_tokens(texts) + tokens(words(t)),
{
    assert(texts.push(t).drop_last() =~= texts);
}

/// `count_of` is the number of occurrences: the length of the sequence filtered to `w`.
pub proof fn law_count_of_occurrences(s: Seq<Seq<char>>, w: Seq<char>)
    ensures
        count_of(s, w) == s.filter(|x: Seq<char>| x == w).len(),
    decreases s.len(),
{
    let same = |x: Seq<char>| x == w;
    if s.len() == 0 {
        reveal(Seq::filter);
    } else {
        law_count_of_occurrences(s.drop_last(), w);
        assert(s.drop_last().push(s.last()) =~= s);
        s.drop_last().lemma_filter_push(s.last(), same);
    }
}

/// Embedding reads the words in order: a word whose vocabulary form stands at position `k` of
/// the vocabulary adds `k` to the hits; a word whose form is not in the vocabulary adds
/// nothing.
pub proof fn law_hits_push(v: Seq<Seq<char>>, ws: Seq<Seq<char>>, w: Seq<char>, k: usize)
    requires
        forall|a: int, b: int| 0 <= a < v.len() && 0 <= b < v.len() && a != b ==> v[a] != v[b],
    ensures
        k < v.len() && v[k as int] == normalised(w) ==> hits(v, ws.push(w)) == hits(v, ws).push(k),
        !v.contains(normalised(w)) ==> hits(v, ws.push(w)) == hits(v, ws),
{
    assert(ws.push(w).drop_last() =~= ws);
    if k < v.len() && v[k as int] == normalised(w) {
        assert(v.contains(normalised(w)));
        let c = choose|c: usize| c < v.len() && v[c as int] == normalised(w);
        assert(c == k);
    }
}

proof fn lemma_count_of_push(s: Seq<Seq<char>>, t: Seq<char>, w: Seq<char>)
    ensures
        count_of(s.push(t), w) == count_of(s, w) + if t == w { 1nat } else { 0nat },
{
    assert(s.push(t).drop_last() =~= s);
}

proof fn lemma_count_of_le(s: Seq<Seq<char>>, w: Seq<char>)
    ensures
        count_of(s, w) <= s.len(),
    decreases s.len(),
{
    if s.len() > 0 {
        lemma_count_of_le(s.drop_last(), w);
    }
}

proof fn lemma_tokens_le(ws: Seq<Seq<char>>)
    ensures
        tokens(ws).len() <= ws.len(),
    decreases ws.len(),
{
    if ws.len() > 0 {
        lemma_tokens_le(ws.drop_last());
    }
}

proof fn lemma_corpus_tokens_le(texts: Seq<Seq<char>>)
    ensures
        corpus_tokens(texts).len() <= total_words(texts),
    decreases texts.len(),
{
    if texts.len() > 0 {
        lemma_corpus_tokens_le(texts.drop_last());
        lemma_tokens_le(words(texts.last()));
    }
}

proof fn lemma_total_words_prefix(texts: Seq<Seq<char>>, i: int)
    requires
        0 <= i <= texts.len(),
    ensures
        total_words(texts.take(i)) <= total_words(texts),
    decreases texts.len() - i,
{
    if i < texts.len() {
        lemma_total_words_prefix(texts, i + 1);
        assert(texts.take(i + 1).drop_last() =~= texts.take(i));
    } else {
        assert(texts.take(i) =~= texts);
    }
}

/// A bag-of-words embedder: its vocabulary is the `dim` most frequent tokens of a corpus,
/// and a text is embedded by how often it uses each of them.
pub struct BagOfWordsEmbedder {
    vocab: Vec<String>,
    dim: usize,
}

impl BagOfWordsEmbedder {
    #[verifier::type_invariant]
    closed spec fn wf(self) -> bool {
        &&& self.vocab@.len() <= self.dim
        &&& forall|a: int, b: int|
            0 <= a < self.vocab@.len() && 0 <= b < self.vocab@.len() && a != b
                ==> self.vocab@[a]@ != self.vocab@[b]@
    }

    /// The vocabulary, word `k` standing for dimension `k`.
    pub closed spec fn vocabulary(self) -> Seq<Seq<char>> {
        views(self.vocab@)
    }

    /// The number of dimensions of an embedding.
    pub closed spec fn dimension(self) -> nat {
        self.dim as nat
    }

    /// An embedder whose vocabulary is the `dim` most frequent tokens of `corpus`.
    pub fn new(corpus: &[&str], dim: usize) -> (r: BagOfWordsEmbedder)
        requires
            total_words(text_views(corpus@)) <= usize::MAX,
        ensures
            r.dimension() == dim,
            is_frequency_vocab(corpus_tokens(text_views(corpus@)), dim as nat, r.vocabulary()),
    {
        let ghost texts = text_views(corpus@);
        let mut seen: Vec<String> = Vec::new();
        let mut counts: Vec<usize> = Vec::new();
        let ghost mut toks: Seq<Seq<char>> = seq![];
        let n = corpus.len();
        let mut i: usize = 0;
        assert(texts.take(0) =~= Seq::<Seq<char>>::empty());
        while i < n
            invariant
                n == corpus@.len(),
                texts == text_views(corpus@),
                total_words(texts) <= usize::MAX,
                i <= n,
                toks == corpus_tokens(texts.take(i as int)),
                seen@.len() == counts@.len(),
                forall|a: int, b: int|
                    0 <= a < seen@.len() && 0 <= b < seen@.len() && a != b ==> seen@[a]@ != seen@[b]@,
                forall|a: int| 0 <= a < seen@.len() ==> #[trigger] counts@[a] == count_of(toks, seen@[a]@),
                forall|a: int| 0 <= a < seen@.len() ==> count_of(toks, #[trigger] seen@[a]@) > 0,
                forall|w: Seq<char>| count_of(toks, w) > 0 ==> views(seen@).contains(w),
            decreases n - i,
        {
            let ws = split_words(corpus[i]);
            let ghost wv = words(texts[i as int]);
            assert(corpus@[i as int]@ == texts[i as int]);
            let ghost base = toks;
            proof {
                lemma_total_words_prefix(texts, i + 1);
                assert(texts.take(i + 1).drop_last() =~= texts.take(i as int));
                lemma_corpus_tokens_le(texts.take(i + 1));
            }
            let m = ws.len();
            let mut j: usize = 0;
            assert(wv.take(0) =~= Seq::<Seq<char>>::empty());
            assert(base + tokens(wv.take(0)) =~= base);
            while j < m
                invariant
                    views(ws@) == wv,
                    m == wv.len(),
                    j <= m,
                    toks == base + tokens(wv.take(j as int)),
                    base + tokens(wv) == corpus_tokens(texts.take(i + 1)),
                    corpus_tokens(texts.take(i + 1)).len() <= usize::MAX,
                    seen@.len() == counts@.len(),
                    forall|a: int, b: int|
                        0 <= a < seen@.len() && 0 <= b < seen@.len() && a != b ==> seen@[a]@ != seen@[b]@,
                    forall|a: int| 0 <= a < seen@.len() ==> #[trigger] counts@[a] == count_of(toks, seen@[a]@),
                    forall|a: int| 0 <= a < seen@.len() ==> count_of(toks, #[trigger] seen@[a]@) > 0,
                    forall|w: Seq<char>| count_of(toks, w) > 0 ==> views(seen@).contains(w),
                decreases m - j,
            {
                let t = normalise(ws[j].as_str());
                assert(wv.take(j + 1).drop_last() =~= wv.take(j as int));
                assert(wv.take(j + 1).last() == ws@[j as int]@);
                if !t.as_str().is_empty() {
                    let ghost old_toks = toks;
                    proof {
                        toks = toks.push(t@);
                        assert(toks =~= base + tokens(wv.take(j + 1)));
                        lemma_tokens_prefix_le(wv, j + 1);
                        assert(toks.len() <= corpus_tokens(texts.take(i + 1)).len()) by {
                            assert(tokens(wv.take(j + 1)).len() <= tokens(wv).len());
                        }
                    }
                    let k = position(&seen, &t);
                    match k {
                        Some(k) => {
                            proof {
                                lemma_count_of_le(old_toks, t@);
                                assert forall|w: Seq<char>| #[trigger] count_of(toks, w) == count_of(old_toks, w) + if t@ == w { 1nat } else { 0nat } by {
                                    lemma_count_of_push(old_toks, t@, w);
                                }
                            }
                            let c = counts[k] + 1;
                            counts.set(k, c);
                        },
                        None => {
                            proof {
                                assert forall|w: Seq<char>| #[trigger] count_of(toks, w) == count_of(old_toks, w) + if t@ == w { 1nat } else { 0nat } by {
                                    lemma_count_of_push(old_toks, t@, w);
                                }
                                if count_of(old_toks, t@) > 0 {
                                    assert(views(seen@).contains(t@));
                                    let a = choose|a: int| 0 <= a < views(seen@).len() && views(seen@)[a] == t@;
                                    assert(seen@[a]@ == t@);
                                }
                                assert(views(seen@.push(t)) =~= views(seen@).push(t@));
                            }
                            let ghost old_seen = seen@;
                            seen.push(t);
                            counts.push(1);
                            proof {
                                assert forall|w: Seq<char>| count_of(toks, w) > 0 implies views(seen@).contains(w) by {
                                    if w != t@ {
                                        assert(count_of(old_toks, w) > 0);
                                        assert(views(old_seen).contains(w));
                                        let a = choose|a: int| 0 <= a < views(old_seen).len() && views(old_seen)[a] == w;
                                        assert(seen@[a] == old_seen[a]);
                                        assert(views(seen@)[a] == w);
                                    } else {
                                        assert(views(seen@)[seen@.len() - 1] == w);
                                    }
                                }
                            }
                        },
                    }
                } else {
                    assert(tokens(wv.take(j + 1)) == tokens(wv.take(j as int)));
                }
                j = j + 1;
            }
            assert(wv.take(m as int) =~= wv);
            i = i + 1;
        }
        assert(texts.take(n as int) =~= texts);
        let mut keys: Vec<Option<u64>> = Vec::new();
        let mut a: usize = 0;
        while a < counts.len()
            invariant
                a <= counts@.len(),
                keys@.len() == a,
                forall|b: int| 0 <= b < a ==> #[trigger] keys@[b] == Some(counts@[b] as u64),
            decreases counts@.len() - a,
        {
            keys.push(Some(counts[a] as u64));
            a = a + 1;
        }
        let p = top_ranked(&keys, dim);
        let mut vocab: Vec<String> = Vec::new();
        let mut t: usize = 0;
        while t < p.len()
            invariant
                t <= p@.len(),
                is_top_ranking(keys@, dim as nat, p@),
                keys@.len() == seen@.len(),
                vocab@.len() == t,
                forall|u: int| 0 <= u < t ==> (#[trigger] vocab@[u])@ == seen@[p@[u] as int]@,
            decreases p@.len() - t,
        {
            let w = seen[p[t]].clone();
            vocab.push(w);
            t = t + 1;
        }
        let ghost v = views(vocab@);
        proof {
            assert forall|x: int, y: int| 0 <= x < v.len() && 0 <= y < v.len() && x != y implies v[x] != v[y] by {
                if x < y {
                    assert(ranked_before(keys@, p@[x] as int, p@[y] as int));
                } else {
                    assert(ranked_before(keys@, p@[y] as int, p@[x] as int));
                }
            }
            assert forall|x: int, y: int| 0 <= x < y < v.len() implies count_of(toks, #[trigger] v[x]) >= count_of(toks, #[trigger] v[y]) by {
                assert(ranked_before(keys@, p@[x] as int, p@[y] as int));
                assert(keys@[p@[x] as int] == Some(counts@[p@[x] as int] as u64));
                assert(keys@[p@[y] as int] == Some(counts@[p@[y] as int] as u64));
            }
            assert forall|x: int| 0 <= x < v.len() implies count_of(toks, #[trigger] v[x]) > 0 by {
                assert(v[x] == seen@[p@[x] as int]@);
            }
            assert forall|w: Seq<char>| count_of(toks, w) > 0 && !v.contains(w) implies {
                &&& v.len() == dim
                &&& forall|x: int| 0 <= x < v.len() ==> count_of(toks, #[trigger] v[x]) >= count_of(toks, w)
            } by {
                assert(views(seen@).contains(w));
                let jj = choose|jj: int| 0 <= jj < views(seen@).len() && views(seen@)[jj] == w;
                assert(seen@[jj]@ == w);
                assert(keys@[jj] is Some);
                if p@.contains(jj as usize) {
                    let x = choose|x: int| 0 <= x < p@.len() && p@[x] == jj as usize;
                    assert(v[x] == w);
                }
                assert forall|x: int| 0 <= x < v.len() implies count_of(toks, #[trigger] v[x]) >= count_of(toks, w) by {
                    assert(ranked_before(keys@, p@[x] as int, jj));
                    assert(keys@[p@[x] as int] == Some(counts@[p@[x] as int] as u64));
                }
            }
        }
        BagOfWordsEmbedder { vocab, dim }
    }

    /// The number of dimensions of an embedding.
    pub fn dim(&self) -> (r: usize)
        ensures
            r == self.dimension(),
    {
        self.dim
    }

    /// The vocabulary, word `k` standing for dimension `k`.
    pub fn vocab(&self) -> (r: &Vec<String>)
        ensures
            views(r@) == self.vocabulary(),
    {
        &self.vocab
    }

    /// What the embedding of `text` is made of: for each word of `text` whose vocabulary form
    /// is in the vocabulary, in order, the dimension it stands for; and the number of words
    /// of `text`. The embedding adds the reciprocal of the word count at each listed dimension.
    pub fn embed_indices(&self, text: &str) -> (r: (Vec<usize>, usize))
        ensures
            r.0@ == hits(self.vocabulary(), words(text@)),
            r.1 == words(text@).len(),
            forall|t: int| 0 <= t < r.0@.len() ==> (#[trigger] r.0@[t]) < self.dimension(),
    {
        proof {
            use_type_invariant(self);
        }
        let ws = split_words(text);
        let ghost wv = words(text@);
        let ghost v = self.vocabulary();
        let mut out: Vec<usize> = Vec::new();
        let m = ws.len();
        let mut j: usize = 0;
        assert(wv.take(0) =~= Seq::<Seq<char>>::empty());
        while j < m
            invariant
                views(ws@) == wv,
                m == wv.len(),
                j <= m,
                v == views(self.vocab@),
                self.vocab@.len() <= self.dim,
                forall|a: int, b: int|
                    0 <= a < self.vocab@.len() && 0 <= b < self.vocab@.len() && a != b
                        ==> self.vocab@[a]@ != self.vocab@[b]@,
                out@ == hits(v, wv.take(j as int)),
                forall|t: int| 0 <= t < out@.len() ==> (#[trigger] out@[t]) < self.dim,
            decreases m - j,
        {
            let t = normalise(ws[j].as_str());
            assert(wv.take(j + 1).drop_last() =~= wv.take(j as int));
            assert(wv.take(j + 1).last() == ws@[j as int]@);
            match position(&self.vocab, &t) {
                Some(k) => {
                    proof {
                        assert(v[k as int] == t@);
                        assert(v.contains(t@));
                        let c = choose|c: usize| c < v.len() && v[c as int] == t@;
                        assert(c == k);
                    }
                    out.push(k);
                },
                None => {},
            }
            j = j + 1;
        }
        assert(wv.take(m as int) =~= wv);
        (out, m)
    }
}

proof fn lemma_tokens_prefix_le(ws: Seq<Seq<char>>, j: int)
    requires
        0 <= j <= ws.len(),
    ensures
        tokens(ws.take(j)).len() <= tokens(ws).len(),
    decreases ws.len() - j,
{
    if j < ws.len() {
        lemma_tokens_prefix_le(ws, j + 1);
        assert(ws.take(j + 1).drop_last() =~= ws.take(j));
    } else {
        assert(ws.take(j) =~= ws);
    }
}

/// The position of `w` in `v`, if it occurs there.
fn position(v: &Vec<String>, w: &String) -> (r: Option<usize>)
    ensures
        r matches Some(k) ==> k < v@.len() && v@[k as int]@ == w@,
        r is None ==> !views(v@).contains(w@),
{
    let mut k: usize = 0;
    while k < v.len()
        invariant
            k <= v@.len(),
            forall|a: int| 0 <= a < k ==> v@[a]@ != w@,
        decreases v@.len() - k,
    {
        if v[k] == *w {
            return Some(k);
        }
        k = k + 1;
    }
    proof {
        if views(v@).contains(w@) {
            let a = choose|a: int| 0 <= a < views(v@).len() && views(v@)[a] == w@;
            assert(v@[a]@ == w@);
        }
    }
    None
}

} // verus!
