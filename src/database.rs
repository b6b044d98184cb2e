//! The archive: an append-only document store and a sharded reverse index
//! from lowercased words to the identifiers of the documents that hold them.
use crate::multimap::added;
use crate::multimap::ConcurrentMultiMap;
use vstd::prelude::*;

verus! {

/// The whitespace-delimited tokens of `s`, in order.
pub uninterp spec fn words_of(s: Seq<char>) -> Seq<Seq<char>>;

/// The lowercase form of `s`.
pub uninterp spec fn lower_of(s: Seq<char>) -> Seq<char>;

/// The texts of a sequence of strings.
pub open spec fn texts(s: Seq<String>) -> Seq<Seq<char>> {
    s.map_values(|w: String| w@)
}

/// The texts of a sequence of string slices.
pub open spec fn slice_texts(s: Seq<&str>) -> Seq<Seq<char>> {
    s.map_values(|w: &str| w@)
}

/// Each word lowercased.
pub open spec fn lowered(s: Seq<Seq<char>>) -> Seq<Seq<char>> {
    s.map_values(|w: Seq<char>| lower_of(w))
}

proof fn lemma_texts_push(s: Seq<String>, x: String)
    ensures
        texts(s.push(x)) == texts(s).push(x@),
{
    assert(texts(s.push(x)) =~= texts(s).push(x@));
}

proof fn lemma_lowered_push(s: Seq<Seq<char>>, x: Seq<char>)
    ensures
        lowered(s.push(x)) == lowered(s).push(lower_of(x)),
{
    assert(lowered(s.push(x)) =~= lowered(s).push(lower_of(x)));
}

/// Relies on str::split_whitespace: the tokens depend on the text alone.
#[verifier::external_body]
fn split_words<'a>(s: &'a str) -> (r: Vec<&'a str>)
    ensures
        slice_texts(r@) == words_of(s@),
{
    s.split_whitespace().collect()
}

/// Relies on str::to_lowercase: the result depends on the text alone.
#[verifier::external_body]
fn lowercase(s: &str) -> (r: String)
    ensures
        r@ == lower_of(s@),
{
    s.to_lowercase()
}

/// The words under which a document is indexed: its whitespace-delimited
/// tokens, each lowercased, in order.
pub fn index_words(doc: &str) -> (r: Vec<String>)
    ensures
        texts(r@) == lowered(words_of(doc@)),
{
    let tokens = split_words(doc);
    let mut r: Vec<String> = Vec::new();
    let mut i: usize = 0;
    while i < tokens.len()
        invariant
            i <= tokens@.len(),
            slice_texts(tokens@) == words_of(doc@),
            texts(r@) == lowered(slice_texts(tokens@.take(i as int))),
        decreases tokens@.len() - i,
    {
        let w = lowercase(tokens[i]);
        let ghost before = r@;
        r.push(w);
        proof {
            assert(tokens@.take(i + 1) =~= tokens@.take(i as int).push(tokens@[i as int]));
            lemma_texts_push(before, w);
            assert(slice_texts(tokens@.take(i + 1)) =~= slice_texts(tokens@.take(i as int)).push(
                tokens@[i as int]@,
            ));
            lemma_lowered_push(slice_texts(tokens@.take(i as int)), tokens@[i as int]@);
        }
        i = i + 1;
    }
    assert(tokens@.take(i as int) =~= tokens@);
    r
}

/// What appending `d` to a store holding `s` leaves, and the identifier it
/// hands back: the store's former length.
pub open spec fn appended(s: Seq<Seq<char>>, d: Seq<char>) -> (Seq<Seq<char>>, nat) {
    (s.push(d), s.len())
}

/// The document stored under `id`, if any.
pub open spec fn document_at(s: Seq<Seq<char>>, id: nat) -> Option<Seq<char>> {
    if id < s.len() {
        Some(s[id as int])
    } else {
        None
    }
}

/// The documents of the archive, in the order of their identifiers.
pub struct DocumentStore {
    docs: Vec<String>,
}

impl View for DocumentStore {
    type V = Seq<Seq<char>>;

    closed spec fn view(&self) -> Seq<Seq<char>> {
        self.docs@.map_values(|d: String| d@)
    }
}

impl DocumentStore {
    pub fn new() -> (r: DocumentStore)
        ensures
            r@ == Seq::<Seq<char>>::empty(),
    {
        let r = DocumentStore { docs: Vec::new() };
        assert(r@ =~= Seq::<Seq<char>>::empty());
        r
    }

    /// Stores `doc` under the next identifier, the number of documents held
    /// before, and returns that identifier.
    pub fn append(&mut self, doc: String) -> (r: usize)
        ensures
            (final(self)@, r as nat) == appended(old(self)@, doc@),
    {
        let id = self.docs.len();
        self.docs.push(doc);
        assert(self@ =~= old(self)@.push(doc@));
        id
    }

    /// A copy of the document stored under `id`; `None` where no document has
    /// that identifier.
    pub fn get(&self, id: usize) -> (r: Option<String>)
        ensures
            r is Some <==> document_at(self@, id as nat) is Some,
            r matches Some(d) ==> document_at(self@, id as nat) == Some(d@),
    {
        if id < self.docs.len() {
            Some(self.docs[id].clone())
        } else {
            None
        }
    }

    /// The number of documents held.
    pub fn len(&self) -> (r: usize)
        ensures
            r == self@.len(),
    {
        self.docs.len()
    }
}

/// What a run of appends of `docs`, in order, to a store holding `s` leaves,
/// and the identifiers handed back, in order.
pub open spec fn appended_all(s: Seq<Seq<char>>, docs: Seq<Seq<char>>) -> (
    Seq<Seq<char>>,
    Seq<nat>,
)
    decreases docs.len(),
{
    if docs.len() == 0 {
        (s, seq![])
    } else {
        let before = appended_all(s, docs.drop_last());
        let step = appended(before.0, docs.last());
        (step.0, before.1.push(step.1))
    }
}

/// Appending N documents one by one to an empty store hands back exactly the
/// identifiers 0, 1, ..., N - 1, in that order, and leaves the store holding
/// the documents in that order.
pub proof fn lemma_ids_gap_free(docs: Seq<Seq<char>>)
    ensures
        appended_all(Seq::empty(), docs).1 == Seq::new(docs.len(), |i: int| i as nat),
        appended_all(Seq::empty(), docs).0 == docs,
    decreases docs.len(),
{
    if docs.len() > 0 {
        lemma_ids_gap_free(docs.drop_last());
        assert(appended_all(Seq::empty(), docs).1 =~= Seq::new(docs.len(), |i: int| i as nat));
        assert(appended_all(Seq::empty(), docs).0 =~= docs);
    } else {
        assert(appended_all(Seq::empty(), docs).1 =~= Seq::new(docs.len(), |i: int| i as nat));
    }
}

/// Retrieving under the identifier that an append handed back gives the
/// appended document.
pub proof fn lemma_retrieve_after_append(s: Seq<Seq<char>>, d: Seq<char>)
    ensures
        document_at(appended(s, d).0, appended(s, d).1) == Some(d),
{
}

/// After any run of appends to an empty store, an identifier that was never
/// handed back finds no document.
pub proof fn lemma_unissued_id_not_found(docs: Seq<Seq<char>>, id: nat)
    requires
        !appended_all(Seq::empty(), docs).1.contains(id),
    ensures
        document_at(appended_all(Seq::empty(), docs).0, id) is None,
{
    lemma_ids_gap_free(docs);
    if id < docs.len() {
        assert(appended_all(Seq::empty(), docs).1[id as int] == id);
    }
}

/// The identifiers indexed under `w` after publishing `doc` under `id`,
/// where `s` were those indexed before: `id` joins them where `w` is one of
/// the document's lowercased tokens.
pub open spec fn indexed(s: Seq<usize>, w: Seq<char>, doc: Seq<char>, id: usize) -> Seq<usize> {
    if lowered(words_of(doc)).contains(w) {
        s.push(id)
    } else {
        s
    }
}

/// After a document is published, a search for any of its tokens (which
/// looks up the token's lowercase form) finds the document's identifier, and
/// every identifier found before under any word is still found.
pub proof fn lemma_published_token_found(s: Seq<usize>, doc: Seq<char>, id: usize, j: int, w: Seq<char>)
    requires
        0 <= j < words_of(doc).len(),
    ensures
        indexed(s, lower_of(words_of(doc)[j]), doc, id).contains(id),
        forall|x: usize| s.contains(x) ==> #[trigger] indexed(s, w, doc, id).contains(x),
{
    let ws = lowered(words_of(doc));
    assert(ws[j] == lower_of(words_of(doc)[j]));
    assert(s.push(id)[s.len() as int] == id);
    assert forall|x: usize| s.contains(x) implies #[trigger] indexed(s, w, doc, id).contains(x) by {
        let i = choose|i: int| 0 <= i < s.len() && s[i] == x;
        assert(s.push(id)[i] == x);
    }
}

/// The number of index buckets of an archive.
pub const BUCKETS: usize = 128;

/// A document archive that clients publish to, search and retrieve from.
pub struct Database {
    /// Maps each word to the identifiers of the documents that hold it.
    reverse_index: ConcurrentMultiMap,
    /// The documents, in the order of their identifiers.
    blob_store: DocumentStore,
}

impl Database {
    /// The published documents, in the order of their identifiers.
    pub closed spec fn documents(&self) -> Seq<Seq<char>> {
        self.blob_store@
    }

    /// The identifiers indexed under the word `w`, each once, in the order
    /// in which they were published.
    pub closed spec fn ids(&self, w: Seq<char>) -> Seq<usize> {
        self.reverse_index.values(w)
    }

    /// The index is well formed and names only published documents.
    pub closed spec fn wf(&self) -> bool {
        &&& self.reverse_index.wf()
        &&& self.reverse_index@.len() == BUCKETS
        &&& forall|w: Seq<char>, j: int|
            0 <= j < self.ids(w).len() ==> #[trigger] self.ids(w)[j] < self.documents().len()
    }

    /// An empty archive whose index has `BUCKETS` buckets.
    pub fn new() -> (r: Self)
        ensures
            r.wf(),
            r.documents() == Seq::<Seq<char>>::empty(),
            forall|w: Seq<char>| #[trigger] r.ids(w) == Seq::<usize>::empty(),
    {
        let reverse_index = ConcurrentMultiMap::new(BUCKETS);
        let blob_store = DocumentStore::new();
        let r = Database { reverse_index, blob_store };
        assert forall|w: Seq<char>| #[trigger] r.ids(w) == Seq::<usize>::empty() by {
            assert(r.reverse_index.values(w) == Seq::<usize>::empty());
        }
        r
    }

    /// Stores `doc` under the next identifier, the number of documents
    /// published before, then indexes it under each of its lowercased
    /// tokens, and returns the identifier. Earlier documents and index
    /// entries stay as they were.
    pub fn publish(&mut self, doc: String) -> (r: usize)
        requires
            old(self).wf(),
        ensures
            final(self).wf(),
            (final(self).documents(), r as nat) == appended(old(self).documents(), doc@),
            forall|w: Seq<char>| #[trigger] final(self).ids(w) == indexed(old(self).ids(w), w, doc@, r),
    {
        let words = index_words(doc.as_str());
        let ghost ws = texts(words@);
        let ghost start = *self;
        let id = self.blob_store.append(doc);
        let mut i: usize = 0;
        while i < words.len()
            invariant
                i <= words@.len(),
                ws == texts(words@),
                ws == lowered(words_of(doc@)),
                id == start.documents().len(),
                self.documents() == start.documents().push(doc@),
                self.reverse_index.wf(),
                self.reverse_index@.len() == BUCKETS,
                start.wf(),
                forall|w: Seq<char>| #[trigger] self.ids(w) == if ws.take(i as int).contains(w) {
                    start.ids(w).push(id)
                } else {
                    start.ids(w)
                },
            decreases words@.len() - i,
        {
            let word = words[i].clone();
            let ghost before = *self;
            let ghost wi = ws[i as int];
            assert(word@ == wi);
            self.reverse_index.set(word, id);
            proof {
                assert forall|w: Seq<char>| #[trigger] self.ids(w) == if ws.take(i + 1).contains(w) {
                    start.ids(w).push(id)
                } else {
                    start.ids(w)
                } by {
                    assert(ws.take(i + 1) =~= ws.take(i as int).push(wi));
                    if w == wi {
                        assert(ws.take(i + 1)[i as int] == wi);
                        assert(self.ids(w) == added(before.ids(w), id));
                        if ws.take(i as int).contains(w) {
                            assert(before.ids(w) == start.ids(w).push(id));
                            assert(before.ids(w)[start.ids(w).len() as int] == id);
                            assert(before.ids(w).contains(id));
                        } else {
                            assert(before.ids(w) == start.ids(w));
                            if start.ids(w).contains(id) {
                                let j = choose|j: int| 0 <= j < start.ids(w).len() && start.ids(w)[j] == id;
                                assert(start.ids(w)[j] < start.documents().len());
                            }
                        }
                    } else {
                        assert(self.ids(w) == before.ids(w));
                        if ws.take(i + 1).contains(w) {
                            let j = choose|j: int| 0 <= j < i + 1 && #[trigger] ws.take(i + 1)[j] == w;
                            assert(ws.take(i as int)[j] == w);
                        }
                        if ws.take(i as int).contains(w) {
                            let j = choose|j: int| 0 <= j < i && #[trigger] ws.take(i as int)[j] == w;
                            assert(ws.take(i + 1)[j] == w);
                        }
                    }
                }
            }
            i = i + 1;
        }
        proof {
            assert(ws.take(i as int) =~= ws);
            assert forall|w: Seq<char>, j: int|
                0 <= j < self.ids(w).len() implies #[trigger] self.ids(w)[j] < self.documents().len() by {
                if j < start.ids(w).len() {
                    assert(start.ids(w)[j] < start.documents().len());
                }
            }
        }
        id
    }

    /// The identifiers of the documents indexed under the lowercase form of
    /// `word`; empty where there are none.
    pub fn search(&self, word: &str) -> (r: Vec<usize>)
        requires
            self.wf(),
        ensures
            r@ == self.ids(lower_of(word@)),
            r@.no_duplicates(),
    {
        self.reverse_index.get(&lowercase(word))
    }

    /// A copy of the document stored under `id`; `None` where no document
    /// has that identifier.
    pub fn retrieve(&self, id: usize) -> (r: Option<String>)
        ensures
            r is Some <==> document_at(self.documents(), id as nat) is Some,
            r matches Some(d) ==> document_at(self.documents(), id as nat) == Some(d@),
    {
        self.blob_store.get(id)
    }

    /// The number of documents stored.
    pub fn len(&self) -> (r: usize)
        ensures
            r == self.documents().len(),
    {
        self.blob_store.len()
    }
}

} // verus!
