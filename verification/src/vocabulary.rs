//! The interned vocabulary of the dictionary lattice backend: dense word IDs
//! in both directions, with `u32::MAX` reserved as the exhaustion sentinel.
use vstd::prelude::*;
use rustc_hash::{FxBuildHasher, FxHashMap};
use crate::hints::capped_size_hint_capacity;

verus! {

/// The vocabulary ID returned once IDs are exhausted; never assigned to a word.
pub const VOCAB_ID_EXHAUSTED: u32 = 0xffff_ffff;

/// The ID the next interned word receives when `len` are interned: `len`,
/// when it is below the exhaustion sentinel.
pub fn next_vocab_id(len: usize) -> (r: Option<u32>)
    ensures
        r == (if len < VOCAB_ID_EXHAUSTED { Some(len as u32) } else { None::<u32> }),
{
    if len < 0xffff_ffffusize { Some(len as u32) } else { None }
}

/// A vocabulary ID as an index.
pub fn usize_from_vocab_id(id: u32) -> (r: usize)
    ensures
        r == id,
{
    id as usize
}

/// Largest vocabulary size: the number of assignable IDs.
pub fn vocab_capacity_limit() -> (r: usize)
    ensures
        r == VOCAB_ID_EXHAUSTED,
{
    usize_from_vocab_id(VOCAB_ID_EXHAUSTED)
}

/// A map from words to their IDs.
pub type WordMap = FxHashMap<String, u32>;

/// The word-to-ID entries of a word map, by the words' scalars.
pub uninterp spec fn word_ids(m: WordMap) -> Map<Seq<char>, u32>;

/// Calls `HashMap::with_capacity_and_hasher`: a new map holds no words.
#[verifier::external_body]
fn word_map_with_capacity(capacity: usize) -> (r: WordMap)
    ensures
        word_ids(r).dom().is_empty(),
{
    FxHashMap::with_capacity_and_hasher(capacity, FxBuildHasher)
}

/// Calls `HashMap::get` with a `&str` key: the ID stored for the word with
/// the same scalars, if any.
#[verifier::external_body]
fn word_map_get(m: &WordMap, word: &str) -> (r: Option<u32>)
    ensures
        r == (if word_ids(*m).contains_key(word@) { Some(word_ids(*m)[word@]) } else { None::<u32> }),
{
    m.get(word).copied()
}

/// Calls `HashMap::insert`: afterwards the word's scalars map to `id`, and
/// every other entry is unchanged.
#[verifier::external_body]
fn word_map_insert(m: &mut WordMap, word: String, id: u32)
    ensures
        word_ids(*final(m)) == word_ids(*old(m)).insert(word@, id),
{
    m.insert(word, id);
}

/// The scalars of each term.
pub open spec fn term_views(terms: Seq<String>) -> Seq<Seq<char>> {
    terms.map_values(|t: String| t@)
}

/// Bidirectional dense word IDs.
#[derive(Clone)]
pub struct Vocabulary {
    word_to_id: WordMap,
    id_to_word: Vec<String>,
}

impl Vocabulary {
    /// The interned words, by ID.
    pub closed spec fn spec_words(self) -> Seq<Seq<char>> {
        self.id_to_word@.map_values(|w: String| w@)
    }

    /// The word-to-ID index.
    pub closed spec fn spec_ids(self) -> Map<Seq<char>, u32> {
        word_ids(self.word_to_id)
    }

    /// The index maps exactly the interned words to their positions.
    pub closed spec fn wf(self) -> bool {
        &&& self.id_to_word@.len() <= VOCAB_ID_EXHAUSTED
        &&& forall|w: Seq<char>| #[trigger] word_ids(self.word_to_id).contains_key(w) ==>
                word_ids(self.word_to_id)[w] < self.id_to_word@.len()
                && self.id_to_word@[word_ids(self.word_to_id)[w] as int]@ == w
        &&& forall|i: int| 0 <= i < self.id_to_word@.len() ==>
                word_ids(self.word_to_id).contains_key(#[trigger] self.id_to_word@[i]@)
                && word_ids(self.word_to_id)[self.id_to_word@[i]@] == i
    }

    /// An empty vocabulary with room reserved for `capacity` words, at most
    /// the number of assignable IDs.
    pub fn with_vocabulary_capacity(capacity: usize) -> (r: Self)
        ensures
            r.wf(),
            r.spec_words() == Seq::<Seq<char>>::empty(),
    {
        let limit: usize = vocab_capacity_limit();
        let capacity: usize = if capacity < limit { capacity } else { limit };
        let r = Vocabulary { word_to_id: word_map_with_capacity(capacity), id_to_word: Vec::with_capacity(capacity) };
        assert(r.spec_words() =~= Seq::<Seq<char>>::empty());
        r
    }

    /// An empty vocabulary.
    pub fn new() -> (r: Self)
        ensures
            r.wf(),
            r.spec_words() == Seq::<Seq<char>>::empty(),
    {
        Self::with_vocabulary_capacity(0)
    }

    /// The ID of `word`: its existing ID, else the next ID with `word`
    /// appended, or `None` once IDs are exhausted.
    pub fn try_intern(&mut self, word: &str) -> (r: Option<u32>)
        requires
            old(self).wf(),
        ensures
            final(self).wf(),
            old(self).spec_words().contains(word@) ==> {
                &&& r matches Some(id) && id < old(self).spec_words().len() && old(self).spec_words()[id as int] == word@
                &&& final(self).spec_words() == old(self).spec_words()
            },
            !old(self).spec_words().contains(word@) && old(self).spec_words().len() < VOCAB_ID_EXHAUSTED ==> {
                &&& r == Some(old(self).spec_words().len() as u32)
                &&& final(self).spec_words() == old(self).spec_words().push(word@)
            },
            !old(self).spec_words().contains(word@) && old(self).spec_words().len() >= VOCAB_ID_EXHAUSTED ==> {
                &&& r is None
                &&& final(self).spec_words() == old(self).spec_words()
            },
    {
        proof {
            if self.spec_words().contains(word@) {
                let i = choose|i: int| 0 <= i < self.spec_words().len() && self.spec_words()[i] == word@;
                assert(self.id_to_word@[i]@ == word@);
            }
        }
        match word_map_get(&self.word_to_id, word) {
            Some(id) => {
                proof {
                    assert(self.spec_words()[id as int] == self.id_to_word@[id as int]@);
                    assert(self.spec_words().contains(word@));
                }
                return Some(id);
            },
            None => {},
        }
        proof {
            if self.spec_words().contains(word@) {
                let i = choose|i: int| 0 <= i < self.spec_words().len() && self.spec_words()[i] == word@;
                assert(word_ids(self.word_to_id).contains_key(self.id_to_word@[i]@));
            }
        }
        let id: u32 = match next_vocab_id(self.id_to_word.len()) {
            Some(id) => id,
            None => return None,
        };
        let owned: String = word.to_owned();
        let stored: String = word.to_owned();
        let ghost before = word_ids(self.word_to_id);
        word_map_insert(&mut self.word_to_id, owned, id);
        self.id_to_word.push(stored);
        proof {
            assert(self.spec_words() =~= old(self).spec_words().push(word@));
            assert forall|w: Seq<char>| #[trigger] word_ids(self.word_to_id).contains_key(w) implies
                word_ids(self.word_to_id)[w] < self.id_to_word@.len()
                && self.id_to_word@[word_ids(self.word_to_id)[w] as int]@ == w by {
                if w != word@ {
                    assert(before.contains_key(w));
                }
            }
            assert forall|i: int| 0 <= i < self.id_to_word@.len() implies
                word_ids(self.word_to_id).contains_key(#[trigger] self.id_to_word@[i]@)
                && word_ids(self.word_to_id)[self.id_to_word@[i]@] == i by {
                if i < self.id_to_word@.len() - 1 {
                    assert(self.id_to_word@[i] == old(self).id_to_word@[i]);
                    assert(before.contains_key(old(self).id_to_word@[i]@));
                    if old(self).id_to_word@[i]@ == word@ {
                        assert(old(self).spec_words()[i] == word@);
                    }
                }
            }
        }
        Some(id)
    }

    /// Whether another word can still be interned.
    pub fn has_vocab_capacity(&self) -> (r: bool)
        ensures
            r == (self.spec_words().len() < VOCAB_ID_EXHAUSTED),
    {
        next_vocab_id(self.id_to_word.len()).is_some()
    }

    /// The word with ID `id`.
    pub fn lookup(&self, id: u32) -> (r: Option<&str>)
        ensures
            match r {
                Some(w) => id < self.spec_words().len() && w@ == self.spec_words()[id as int],
                None => id >= self.spec_words().len(),
            },
    {
        let index: usize = usize_from_vocab_id(id);
        if index < self.id_to_word.len() {
            Some(self.id_to_word[index].as_str())
        } else {
            None
        }
    }

    /// Number of interned words.
    pub fn vocab_size(&self) -> (r: usize)
        ensures
            r == self.spec_words().len(),
    {
        self.id_to_word.len()
    }

    /// The ID of `word`, if interned.
    pub fn get_id(&self, word: &str) -> (r: Option<u32>)
        requires
            self.wf(),
        ensures
            match r {
                Some(id) => id < self.spec_words().len() && self.spec_words()[id as int] == word@,
                None => !self.spec_words().contains(word@),
            },
    {
        proof {
            if self.spec_words().contains(word@) {
                let i = choose|i: int| 0 <= i < self.spec_words().len() && self.spec_words()[i] == word@;
                assert(word_ids(self.word_to_id).contains_key(self.id_to_word@[i]@));
            }
        }
        let r: Option<u32> = word_map_get(&self.word_to_id, word);
        proof {
            if let Some(id) = r {
                assert(self.spec_words()[id as int] == self.id_to_word@[id as int]@);
            }
        }
        r
    }

    /// Whether `word` is interned.
    pub fn contains(&self, word: &str) -> (r: bool)
        requires
            self.wf(),
        ensures
            r == self.spec_words().contains(word@),
    {
        proof {
            if self.spec_words().contains(word@) {
                let i = choose|i: int| 0 <= i < self.spec_words().len() && self.spec_words()[i] == word@;
                assert(word_ids(self.word_to_id).contains_key(self.id_to_word@[i]@));
            }
        }
        let r: Option<u32> = word_map_get(&self.word_to_id, word);
        proof {
            if let Some(id) = r {
                assert(self.spec_words()[id as int] == self.id_to_word@[id as int]@);
            }
        }
        r.is_some()
    }

    /// The interned words with their IDs, in ID order.
    pub fn entries(&self) -> (r: Vec<(u32, &str)>)
        requires
            self.wf(),
        ensures
            r@.len() == self.spec_words().len(),
            forall|i: int| 0 <= i < r@.len() ==> (#[trigger] r@[i]).0 == i && r@[i].1@ == self.spec_words()[i],
    {
        let mut out: Vec<(u32, &str)> = Vec::new();
        for i in 0..self.id_to_word.len()
            invariant
                self.wf(),
                out@.len() == i,
                forall|k: int| 0 <= k < i ==> (#[trigger] out@[k]).0 == k && out@[k].1@ == self.spec_words()[k],
        {
            match next_vocab_id(i) {
                Some(id) => {
                    out.push((id, self.id_to_word[i].as_str()));
                },
                None => {},
            }
        }
        out
    }

    /// A vocabulary of `terms`, interned in order until IDs run out.
    pub fn with_vocabulary(terms: Vec<String>) -> (r: Self)
        ensures
            r.wf(),
            forall|i: int| 0 <= i < terms@.len() && r.spec_words().len() < VOCAB_ID_EXHAUSTED
                ==> r.spec_words().contains(#[trigger] terms@[i]@),
            forall|i: int| 0 <= i < r.spec_words().len() ==> term_views(terms@).contains(#[trigger] r.spec_words()[i]),
    {
        let mut vocabulary: Vocabulary = Self::with_vocabulary_capacity(capped_size_hint_capacity(terms.len()));
        for i in 0..terms.len()
            invariant
                vocabulary.wf(),
                forall|k: int| 0 <= k < i ==> vocabulary.spec_words().contains(#[trigger] terms@[k]@),
                forall|k: int| 0 <= k < vocabulary.spec_words().len() ==>
                    term_views(terms@).contains(#[trigger] vocabulary.spec_words()[k]),
        {
            let ghost before = vocabulary.spec_words();
            match vocabulary.try_intern(terms[i].as_str()) {
                Some(_) => {
                    proof {
                        assert(vocabulary.spec_words().contains(terms@[i as int]@)) by {
                            if before.contains(terms@[i as int]@) {
                            } else {
                                assert(vocabulary.spec_words()[before.len() as int] == terms@[i as int]@);
                            }
                        }
                        assert forall|k: int| 0 <= k < i + 1 implies vocabulary.spec_words().contains(#[trigger] terms@[k]@) by {
                            if k < i {
                                let c = choose|c: int| 0 <= c < before.len() && before[c] == terms@[k]@;
                                assert(vocabulary.spec_words()[c] == terms@[k]@);
                            }
                        }
                        assert forall|k: int| 0 <= k < vocabulary.spec_words().len() implies
                            term_views(terms@).contains(#[trigger] vocabulary.spec_words()[k]) by {
                            if k < before.len() {
                                assert(vocabulary.spec_words()[k] == before[k]);
                            } else {
                                assert(vocabulary.spec_words()[k] == terms@[i as int]@);
                                assert(term_views(terms@)[i as int] == terms@[i as int]@);
                            }
                        }
                    }
                },
                None => {
                    proof {
                        assert forall|k: int| 0 <= k < vocabulary.spec_words().len() implies
                            term_views(terms@).contains(#[trigger] vocabulary.spec_words()[k]) by {
                            assert(vocabulary.spec_words()[k] == before[k]);
                        }
                    }
                    return vocabulary;
                },
            }
        }
        vocabulary
    }

    /// A vocabulary of all of `terms`, or `None` when IDs run out first.
    pub fn try_with_vocabulary(terms: Vec<String>) -> (r: Option<Self>)
        ensures
            match r {
                Some(v) => v.wf()
                    && (forall|i: int| 0 <= i < terms@.len() ==> v.spec_words().contains(#[trigger] terms@[i]@))
                    && (forall|i: int| 0 <= i < v.spec_words().len() ==>
                        term_views(terms@).contains(#[trigger] v.spec_words()[i])),
                None => true,
            },
    {
        let mut vocabulary: Vocabulary = Self::with_vocabulary_capacity(capped_size_hint_capacity(terms.len()));
        for i in 0..terms.len()
            invariant
                vocabulary.wf(),
                forall|k: int| 0 <= k < i ==> vocabulary.spec_words().contains(#[trigger] terms@[k]@),
                forall|k: int| 0 <= k < vocabulary.spec_words().len() ==>
                    term_views(terms@).contains(#[trigger] vocabulary.spec_words()[k]),
        {
            let ghost before = vocabulary.spec_words();
            match vocabulary.try_intern(terms[i].as_str()) {
                Some(_) => {
                    proof {
                        assert(vocabulary.spec_words().contains(terms@[i as int]@)) by {
                            if before.contains(terms@[i as int]@) {
                            } else {
                                assert(vocabulary.spec_words()[before.len() as int] == terms@[i as int]@);
                            }
                        }
                        assert forall|k: int| 0 <= k < i + 1 implies vocabulary.spec_words().contains(#[trigger] terms@[k]@) by {
                            if k < i {
                                let c = choose|c: int| 0 <= c < before.len() && before[c] == terms@[k]@;
                                assert(vocabulary.spec_words()[c] == terms@[k]@);
                            }
                        }
                        assert forall|k: int| 0 <= k < vocabulary.spec_words().len() implies
                            term_views(terms@).contains(#[trigger] vocabulary.spec_words()[k]) by {
                            if k < before.len() {
                                assert(vocabulary.spec_words()[k] == before[k]);
                            } else {
                                assert(vocabulary.spec_words()[k] == terms@[i as int]@);
                                assert(term_views(terms@)[i as int] == terms@[i as int]@);
                            }
                        }
                    }
                },
                None => {
                    return None;
                },
            }
        }
        Some(vocabulary)
    }
}

/// Interned words are distinct: a word has exactly one ID.
pub proof fn lemma_words_distinct(v: Vocabulary, i: int, j: int)
    requires
        v.wf(),
        0 <= i < v.spec_words().len(),
        0 <= j < v.spec_words().len(),
        v.spec_words()[i] == v.spec_words()[j],
    ensures
        i == j,
{
    assert(v.spec_words()[i] == v.id_to_word@[i]@);
    assert(v.spec_words()[j] == v.id_to_word@[j]@);
}

/// Interning a word, then looking up the returned ID, gives the word back.
pub proof fn lemma_intern_then_lookup(before: Vocabulary, after: Vocabulary, word: Seq<char>, id: u32)
    requires
        before.wf(),
        after.wf(),
        before.spec_words().contains(word) ==> after.spec_words() == before.spec_words()
            && id < before.spec_words().len() && before.spec_words()[id as int] == word,
        !before.spec_words().contains(word) ==> id == before.spec_words().len()
            && after.spec_words() == before.spec_words().push(word),
    ensures
        id < after.spec_words().len(),
        after.spec_words()[id as int] == word,
        forall|i: int| 0 <= i < before.spec_words().len() ==> after.spec_words()[i] == #[trigger] before.spec_words()[i],
{
}

} // verus!
