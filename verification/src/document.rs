use vstd::prelude::*;

verus! {

/// The key/value pairs of `e`, taken by their character views.
pub open spec fn pair_views(e: Seq<(String, String)>) -> Seq<(Seq<char>, Seq<char>)> {
    e.map_values(|p: (String, String)| (p.0@, p.1@))
}

/// The map that a list of pairs describes: a later pair wins over an earlier one with the
/// same key.
pub open spec fn map_of(e: Seq<(Seq<char>, Seq<char>)>) -> Map<Seq<char>, Seq<char>>
    decreases e.len(),
{
    if e.len() == 0 {
        Map::empty()
    } else {
        map_of(e.drop_last()).insert(e.last().0, e.last().1)
    }
}

/// No key occurs twice in `e`.
pub open spec fn keys_unique(e: Seq<(Seq<char>, Seq<char>)>) -> bool {
    forall|i: int, j: int| 0 <= i < e.len() && 0 <= j < e.len() && i != j ==> e[i].0 != e[j].0
}

proof fn lemma_map_of_dom(e: Seq<(Seq<char>, Seq<char>)>, k: Seq<char>)
    ensures
        map_of(e).dom().contains(k) <==> exists|i: int| 0 <= i < e.len() && e[i].0 == k,
    decreases e.len(),
{
    if e.len() > 0 {
        lemma_map_of_dom(e.drop_last(), k);
        if map_of(e).dom().contains(k) && k != e.last().0 {
            let i = choose|i: int| 0 <= i < e.drop_last().len() && e.drop_last()[i].0 == k;
            assert(e[i].0 == k);
        }
        if exists|i: int| 0 <= i < e.len() && e[i].0 == k {
            let i = choose|i: int| 0 <= i < e.len() && e[i].0 == k;
            if i < e.len() - 1 {
                assert(e.drop_last()[i].0 == k);
            }
        }
    }
}

proof fn lemma_map_of_update(e: Seq<(Seq<char>, Seq<char>)>, i: int, v: Seq<char>)
    requires
        keys_unique(e),
        0 <= i < e.len(),
    ensures
        map_of(e.update(i, (e[i].0, v))) =~= map_of(e).insert(e[i].0, v),
    decreases e.len(),
{
    let k = e[i].0;
    let e2 = e.update(i, (k, v));
    if i == e.len() - 1 {
        assert(e2.drop_last() =~= e.drop_last());
    } else {
        assert(e2.drop_last() =~= e.drop_last().update(i, (k, v)));
        lemma_map_of_update(e.drop_last(), i, v);
        assert(e.last().0 != k);
    }
}

/// String-keyed metadata of a document: each key occurs once.
#[derive(Debug)]
pub struct Metadata {
    entries: Vec<(String, String)>,
}

impl View for Metadata {
    type V = Map<Seq<char>, Seq<char>>;

    closed spec fn view(&self) -> Map<Seq<char>, Seq<char>> {
        map_of(pair_views(self.entries@))
    }
}

impl Metadata {
    #[verifier::type_invariant]
    closed spec fn wf(self) -> bool {
        keys_unique(pair_views(self.entries@))
    }

    /// Metadata with no entries.
    pub fn new() -> (r: Metadata)
        ensures
            r@ == Map::<Seq<char>, Seq<char>>::empty(),
    {
        let r = Metadata { entries: Vec::new() };
        assert(pair_views(r.entries@) =~= Seq::empty());
        r
    }

    /// The number of keys.
    pub fn len(&self) -> (n: usize)
        ensures
            n == self@.dom().len(),
    {
        proof {
            use_type_invariant(self);
            self.lemma_dom_len();
        }
        self.entries.len()
    }

    proof fn lemma_dom_len(self)
        requires
            keys_unique(pair_views(self.entries@)),
        ensures
            self@.dom().finite(),
            self@.dom().len() == self.entries@.len(),
    {
        lemma_map_of_len(pair_views(self.entries@));
    }

    /// Sets `key` to `value`, replacing an earlier value of `key`.
    pub fn insert(&mut self, key: &str, value: &str)
        ensures
            final(self)@ == old(self)@.insert(key@, value@),
    {
        proof {
            use_type_invariant(&*self);
        }
        let ghost e = pair_views(self.entries@);
        assert(old(self)@ == map_of(e));
        let k = String::from_str(key);
        let n = self.entries.len();
        let mut i: usize = 0;
        while i < n
            invariant
                n == self.entries@.len(),
                e == pair_views(self.entries@),
                old(self)@ == map_of(e),
                k@ == key@,
                keys_unique(e),
                i <= n,
                forall|j: int| 0 <= j < i ==> e[j].0 != key@,
            decreases n - i,
        {
            if self.entries[i].0 == k {
                let v = String::from_str(value);
                proof {
                    assert(e[i as int].0 == key@);
                    lemma_map_of_update(e, i as int, value@);
                    assert(pair_views(self.entries@.update(i as int, (k, v))) =~= e.update(
                        i as int,
                        (e[i as int].0, value@),
                    ));
                    assert(keys_unique(e.update(i as int, (e[i as int].0, value@))));
                }
                let mut entries: Vec<(String, String)> = Vec::new();
                std::mem::swap(&mut entries, &mut self.entries);
                entries.set(i, (k, v));
                assert(pair_views(entries@) =~= e.update(i as int, (e[i as int].0, value@)));
                self.entries = entries;
                assert(self@ == map_of(e).insert(key@, value@));
                return;
            }
            i = i + 1;
        }
        let v = String::from_str(value);
        proof {
            assert(pair_views(self.entries@.push((k, v))) =~= e.push((key@, value@)));
            assert(e.push((key@, value@)).drop_last() =~= e);
            assert(keys_unique(e.push((key@, value@))));
        }
        let mut entries: Vec<(String, String)> = Vec::new();
        std::mem::swap(&mut entries, &mut self.entries);
        entries.push((k, v));
        self.entries = entries;
    }

    /// The value of `key`, if it has one.
    pub fn get(&self, key: &str) -> (r: Option<&String>)
        ensures
            r is Some <==> self@.dom().contains(key@),
            r matches Some(v) ==> v@ == self@[key@],
    {
        proof {
            use_type_invariant(self);
        }
        let ghost e = pair_views(self.entries@);
        let k = String::from_str(key);
        let n = self.entries.len();
        let mut i: usize = 0;
        while i < n
            invariant
                n == self.entries@.len(),
                e == pair_views(self.entries@),
                k@ == key@,
                keys_unique(e),
                i <= n,
                forall|j: int| 0 <= j < i ==> e[j].0 != key@,
            decreases n - i,
        {
            if self.entries[i].0 == k {
                proof {
                    lemma_map_of_lookup(e, i as int);
                }
                return Some(&self.entries[i].1);
            }
            i = i + 1;
        }
        proof {
            lemma_map_of_dom(e, key@);
        }
        None
    }

    /// The entries, each key once, in the order in which the keys were first set.
    pub fn pairs(&self) -> (r: &Vec<(String, String)>)
        ensures
            map_of(pair_views(r@)) == self@,
            keys_unique(pair_views(r@)),
    {
        proof {
            use_type_invariant(self);
        }
        &self.entries
    }
}

impl Clone for Metadata {
    fn clone(&self) -> (r: Metadata)
        ensures
            r@ == self@,
    {
        proof {
            use_type_invariant(self);
        }
        let n = self.entries.len();
        let mut entries: Vec<(String, String)> = Vec::new();
        let mut i: usize = 0;
        while i < n
            invariant
                n == self.entries@.len(),
                i <= n,
                entries@.len() == i,
                pair_views(entries@) == pair_views(self.entries@).take(i as int),
            decreases n - i,
        {
            let k = self.entries[i].0.clone();
            let v = self.entries[i].1.clone();
            assert(k@ == self.entries@[i as int].0@);
            assert(v@ == self.entries@[i as int].1@);
            let ghost before = entries@;
            entries.push((k, v));
            assert(entries@ == before.push((k, v)));
            assert(pair_views(entries@)[i as int] == pair_views(self.entries@)[i as int]);
            assert(pair_views(entries@) =~= pair_views(self.entries@).take(i + 1));
            i = i + 1;
        }
        assert(pair_views(entries@) =~= pair_views(self.entries@));
        Metadata { entries }
    }
}

proof fn lemma_map_of_lookup(e: Seq<(Seq<char>, Seq<char>)>, i: int)
    requires
        keys_unique(e),
        0 <= i < e.len(),
    ensures
        map_of(e).dom().contains(e[i].0),
        map_of(e)[e[i].0] == e[i].1,
    decreases e.len(),
{
    if i < e.len() - 1 {
        assert(e.drop_last()[i] == e[i]);
        lemma_map_of_lookup(e.drop_last(), i);
    }
}

proof fn lemma_map_of_len(e: Seq<(Seq<char>, Seq<char>)>)
    requires
        keys_unique(e),
    ensures
        map_of(e).dom().finite(),
        map_of(e).dom().len() == e.len(),
    decreases e.len(),
{
    if e.len() > 0 {
        let d = e.drop_last();
        assert(keys_unique(d));
        lemma_map_of_len(d);
        lemma_map_of_dom(d, e.last().0);
        if map_of(d).dom().contains(e.last().0) {
            let i = choose|i: int| 0 <= i < d.len() && d[i].0 == e.last().0;
            assert(e[i].0 == e[e.len() - 1].0);
        }
    }
}

/// A document to be indexed.
#[derive(Debug, Clone)]
pub struct Document {
    pub id: String,
    pub title: String,
    pub content: String,
    pub metadata: Metadata,
}

impl Document {
    /// A document with the given id, title and content and no metadata.
    pub fn new(id: &str, title: &str, content: &str) -> (r: Document)
        ensures
            r.id@ == id@,
            r.title@ == title@,
            r.content@ == content@,
            r.metadata@ == Map::<Seq<char>, Seq<char>>::empty(),
    {
        Document {
            id: String::from_str(id),
            title: String::from_str(title),
            content: String::from_str(content),
            metadata: Metadata::new(),
        }
    }

    /// The same document with `key` set to `value` in its metadata.
    pub fn with_metadata(self, key: &str, value: &str) -> (r: Document)
        ensures
            r.id == self.id,
            r.title == self.title,
            r.content == self.content,
            r.metadata@ == self.metadata@.insert(key@, value@),
    {
        let mut d = self;
        d.metadata.insert(key, value);
        d
    }
}

/// A piece of a document's text. `embedding` holds the IEEE-754 single-precision bit
/// patterns of the chunk's embedding, once it has one.
#[derive(Debug, Clone)]
pub struct Chunk {
    pub doc_id: String,
    pub chunk_index: usize,
    pub content: String,
    pub embedding: Option<Vec<u32>>,
}

impl Chunk {
    /// A chunk without an embedding.
    pub fn new(doc_id: &str, chunk_index: usize, content: &str) -> (r: Chunk)
        ensures
            r.doc_id@ == doc_id@,
            r.chunk_index == chunk_index,
            r.content@ == content@,
            r.embedding is None,
    {
        Chunk {
            doc_id: String::from_str(doc_id),
            chunk_index,
            content: String::from_str(content),
            embedding: None,
        }
    }
}

} // verus!
