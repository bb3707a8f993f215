//! The read-only index facade the search pipeline consumes.
//!
//! [`Context`] abstracts a consistent snapshot of the inverted index:
//! posting lists keyed by word, precomputed prefix posting lists, two-term
//! proximity posting lists, the dictionary and prefix-cache FSTs, and the
//! per-field numeric facet lists. Its mathematical content is an
//! [`IndexModel`]. [`MemIndex`] is the in-memory implementation. The
//! facade is total and holds a fully loaded snapshot: the fallible reads
//! of a storage engine, and the propagation of their errors, are outside
//! this crate's scope.

use vstd::prelude::*;
use roaring::RoaringBitmap;
use crate::bitmap::{bitmap_set, bitmap_clone};
use crate::derivations::fst_words;

verus! {

/// The mathematical content of an index snapshot.
pub struct IndexModel {
    /// Every document identifier the index knows.
    pub documents: Set<u32>,
    /// Posting list of each indexed word; absent words have no entry.
    pub word_docs: Map<Seq<char>, Set<u32>>,
    /// Precomputed posting list of each cached prefix.
    pub prefix_docs: Map<Seq<char>, Set<u32>>,
    /// Posting list of each `(left, right, proximity)` pair.
    pub pair_docs: Map<(Seq<char>, Seq<char>, u8), Set<u32>>,
    /// Posting list of each `(left, right-prefix, proximity)` pair.
    pub prefix_pair_docs: Map<(Seq<char>, Seq<char>, u8), Set<u32>>,
    /// The dictionary: every indexed word.
    pub words: Set<Seq<char>>,
    /// The prefix cache: prefixes whose posting list is precomputed.
    pub prefix_cache: Set<Seq<char>>,
    /// Per-field numeric facet values, each with its documents, in
    /// ascending value order.
    pub facets: Map<Seq<char>, Seq<(i64, Set<u32>)>>,
    /// Per-document word positions: for each document, the words it
    /// holds, each with the bitmap of its positions.
    pub positions: Map<u32, Map<Seq<char>, Set<u32>>>,
}

/// Relies on `<str as PartialEq>::eq`: string slices are equal exactly
/// when their character sequences are.
#[verifier::external_body]
pub fn str_eq(a: &str, b: &str) -> (r: bool)
    ensures
        r == (a@ == b@),
{
    a == b
}

/// First entry of a word-keyed posting list whose key is `w`.
pub open spec fn word_entry_find(s: Seq<(String, RoaringBitmap)>, w: Seq<char>) -> Option<
    Set<u32>,
>
    decreases s.len(),
{
    if s.len() == 0 {
        None
    } else if s[0].0@ == w {
        Some(bitmap_set(s[0].1))
    } else {
        word_entry_find(s.drop_first(), w)
    }
}

/// A word-keyed posting list as a map.
pub open spec fn word_map(s: Seq<(String, RoaringBitmap)>) -> Map<Seq<char>, Set<u32>> {
    Map::new(|w: Seq<char>| word_entry_find(s, w) is Some, |w: Seq<char>| word_entry_find(s, w)->0)
}

/// First entry of a pair-keyed posting list whose key is `(l, r, p)`.
pub open spec fn pair_entry_find(
    s: Seq<((String, String, u8), RoaringBitmap)>,
    l: Seq<char>,
    r: Seq<char>,
    p: u8,
) -> Option<Set<u32>>
    decreases s.len(),
{
    if s.len() == 0 {
        None
    } else if s[0].0.0@ == l && s[0].0.1@ == r && s[0].0.2 == p {
        Some(bitmap_set(s[0].1))
    } else {
        pair_entry_find(s.drop_first(), l, r, p)
    }
}

/// A pair-keyed posting list as a map.
pub open spec fn pair_map(s: Seq<((String, String, u8), RoaringBitmap)>) -> Map<
    (Seq<char>, Seq<char>, u8),
    Set<u32>,
> {
    Map::new(
        |k: (Seq<char>, Seq<char>, u8)| pair_entry_find(s, k.0, k.1, k.2) is Some,
        |k: (Seq<char>, Seq<char>, u8)| pair_entry_find(s, k.0, k.1, k.2)->0,
    )
}

/// A facet list over bitmaps, viewed over sets.
pub open spec fn facet_view(v: Seq<(i64, RoaringBitmap)>) -> Seq<(i64, Set<u32>)> {
    v.map_values(|p: (i64, RoaringBitmap)| (p.0, bitmap_set(p.1)))
}

/// First entry of a field-keyed facet table whose key is `w`.
pub open spec fn facet_entry_find(
    s: Seq<(String, Vec<(i64, RoaringBitmap)>)>,
    w: Seq<char>,
) -> Option<Seq<(i64, Set<u32>)>>
    decreases s.len(),
{
    if s.len() == 0 {
        None
    } else if s[0].0@ == w {
        Some(facet_view(s[0].1@))
    } else {
        facet_entry_find(s.drop_first(), w)
    }
}

/// A field-keyed facet table as a map.
pub open spec fn facet_map(s: Seq<(String, Vec<(i64, RoaringBitmap)>)>) -> Map<
    Seq<char>,
    Seq<(i64, Set<u32>)>,
> {
    Map::new(
        |w: Seq<char>| facet_entry_find(s, w) is Some,
        |w: Seq<char>| facet_entry_find(s, w)->0,
    )
}

/// First entry of a document-keyed positions table whose key is `d`.
pub open spec fn positions_entry_find(
    s: Seq<(u32, Vec<(String, RoaringBitmap)>)>,
    d: u32,
) -> Option<Map<Seq<char>, Set<u32>>>
    decreases s.len(),
{
    if s.len() == 0 {
        None
    } else if s[0].0 == d {
        Some(word_map(s[0].1@))
    } else {
        positions_entry_find(s.drop_first(), d)
    }
}

/// A document-keyed positions table as a map.
pub open spec fn positions_map(s: Seq<(u32, Vec<(String, RoaringBitmap)>)>) -> Map<
    u32,
    Map<Seq<char>, Set<u32>>,
> {
    Map::new(
        |d: u32| positions_entry_find(s, d) is Some,
        |d: u32| positions_entry_find(s, d)->0,
    )
}

/// Word-keyed posting lists with pointwise equal entries find alike.
proof fn lemma_word_entries_congruent(
    a: Seq<(String, RoaringBitmap)>,
    b: Seq<(String, RoaringBitmap)>,
)
    requires
        a.len() == b.len(),
        forall|j: int|
            0 <= j < a.len() ==> (#[trigger] a[j]).0@ == b[j].0@ && bitmap_set(a[j].1)
                == bitmap_set(b[j].1),
    ensures
        forall|w: Seq<char>| #[trigger] word_entry_find(a, w) == word_entry_find(b, w),
    decreases a.len(),
{
    if a.len() > 0 {
        assert(forall|j: int|
            0 <= j < a.len() - 1 ==> #[trigger] a.drop_first()[j] == a[j + 1]);
        assert(forall|j: int|
            0 <= j < b.len() - 1 ==> #[trigger] b.drop_first()[j] == b[j + 1]);
        lemma_word_entries_congruent(a.drop_first(), b.drop_first());
        assert forall|w: Seq<char>| #[trigger] word_entry_find(a, w) == word_entry_find(
            b,
            w,
        ) by {
            assert(word_entry_find(a.drop_first(), w) == word_entry_find(b.drop_first(), w));
        }
    }
}

/// A consistent snapshot of the inverted index.
///
/// Every method is total: a missing posting list is `None`, never an
/// error. The facade models an index already in memory; fallible storage
/// reads are outside this crate's scope.
pub trait Context {
    /// The mathematical content of this snapshot.
    spec fn model(&self) -> IndexModel;

    /// Every document identifier.
    fn documents_ids(&self) -> (r: RoaringBitmap)
        ensures
            bitmap_set(r) == self.model().documents,
    ;

    /// The posting list of `word`, if the word is indexed.
    fn word_docids(&self, word: &str) -> (r: Option<RoaringBitmap>)
        ensures
            match r {
                Some(b) => self.model().word_docs.contains_key(word@) && bitmap_set(b)
                    == self.model().word_docs[word@],
                None => !self.model().word_docs.contains_key(word@),
            },
    ;

    /// The precomputed posting list of the prefix `word`, if cached.
    fn word_prefix_docids(&self, word: &str) -> (r: Option<RoaringBitmap>)
        ensures
            match r {
                Some(b) => self.model().prefix_docs.contains_key(word@) && bitmap_set(b)
                    == self.model().prefix_docs[word@],
                None => !self.model().prefix_docs.contains_key(word@),
            },
    ;

    /// The posting list of the pair `(left, right)` at `proximity`.
    fn word_pair_proximity_docids(&self, left: &str, right: &str, proximity: u8) -> (r: Option<
        RoaringBitmap,
    >)
        ensures
            match r {
                Some(b) => self.model().pair_docs.contains_key((left@, right@, proximity))
                    && bitmap_set(b) == self.model().pair_docs[(left@, right@, proximity)],
                None => !self.model().pair_docs.contains_key((left@, right@, proximity)),
            },
    ;

    /// The posting list of `(left, right-prefix)` at `proximity`.
    fn word_prefix_pair_proximity_docids(&self, left: &str, right: &str, proximity: u8) -> (r:
        Option<RoaringBitmap>)
        ensures
            match r {
                Some(b) => self.model().prefix_pair_docs.contains_key((left@, right@, proximity))
                    && bitmap_set(b) == self.model().prefix_pair_docs[(left@, right@, proximity)],
                None => !self.model().prefix_pair_docs.contains_key((left@, right@, proximity)),
            },
    ;

    /// The dictionary FST.
    fn words_fst(&self) -> (r: &fst::Set<Vec<u8>>)
        ensures
            fst_words(*r) == self.model().words,
    ;

    /// Whether a precomputed prefix posting list exists for `word`.
    fn in_prefix_cache(&self, word: &str) -> (r: bool)
        ensures
            r == self.model().prefix_cache.contains(word@),
    ;

    /// The `(value, documents)` pairs of a numeric facet field, in
    /// ascending value order; an unknown field yields the empty list.
    fn facet_number_values(&self, field: &str) -> (r: Vec<(i64, RoaringBitmap)>)
        ensures
            facet_view(r@) == if self.model().facets.contains_key(field@) {
                self.model().facets[field@]
            } else {
                Seq::<(i64, Set<u32>)>::empty()
            },
    ;

    /// The words of one document, each with the bitmap of its positions
    /// within the document; an unknown document yields the empty list.
    fn docid_words_positions(&self, docid: u32) -> (r: Vec<(String, RoaringBitmap)>)
        ensures
            word_map(r@) == if self.model().positions.contains_key(docid) {
                self.model().positions[docid]
            } else {
                Map::<Seq<char>, Set<u32>>::empty()
            },
    ;
}

/// An in-memory index snapshot.
pub struct MemIndex {
    pub documents: RoaringBitmap,
    pub word_docs: Vec<(String, RoaringBitmap)>,
    pub word_prefix_docs: Vec<(String, RoaringBitmap)>,
    pub word_pair_proximity_docs: Vec<((String, String, u8), RoaringBitmap)>,
    pub word_prefix_pair_proximity_docs: Vec<((String, String, u8), RoaringBitmap)>,
    pub words_fst: fst::Set<Vec<u8>>,
    pub words_prefixes_fst: fst::Set<Vec<u8>>,
    pub facet_docs: Vec<(String, Vec<(i64, RoaringBitmap)>)>,
    pub docid_words_positions: Vec<(u32, Vec<(String, RoaringBitmap)>)>,
}

/// Linear search of a word-keyed posting list.
fn lookup_word(list: &Vec<(String, RoaringBitmap)>, word: &str) -> (r: Option<RoaringBitmap>)
    ensures
        match r {
            Some(b) => word_entry_find(list@, word@) == Some(bitmap_set(b)),
            None => word_entry_find(list@, word@) is None,
        },
{
    proof {
        assert(list@.skip(0) =~= list@);
    }
    let mut i: usize = 0;
    while i < list.len()
        invariant
            i <= list@.len(),
            word_entry_find(list@, word@) == word_entry_find(list@.skip(i as int), word@),
        decreases list@.len() - i,
    {
        let e = &list[i];
        proof {
            assert(list@.skip(i as int)[0] == list@[i as int]);
        }
        if str_eq(e.0.as_str(), word) {
            return Some(bitmap_clone(&e.1));
        }
        proof {
            assert(list@.skip(i as int).drop_first() =~= list@.skip(i + 1));
        }
        i += 1;
    }
    proof {
        assert(list@.skip(i as int).len() == 0);
    }
    None
}

/// Linear search of a pair-keyed posting list.
fn lookup_pair(
    list: &Vec<((String, String, u8), RoaringBitmap)>,
    left: &str,
    right: &str,
    proximity: u8,
) -> (r: Option<RoaringBitmap>)
    ensures
        match r {
            Some(b) => pair_entry_find(list@, left@, right@, proximity) == Some(bitmap_set(b)),
            None => pair_entry_find(list@, left@, right@, proximity) is None,
        },
{
    proof {
        assert(list@.skip(0) =~= list@);
    }
    let mut i: usize = 0;
    while i < list.len()
        invariant
            i <= list@.len(),
            pair_entry_find(list@, left@, right@, proximity) == pair_entry_find(
                list@.skip(i as int),
                left@,
                right@,
                proximity,
            ),
        decreases list@.len() - i,
    {
        let e = &list[i];
        proof {
            assert(list@.skip(i as int)[0] == list@[i as int]);
        }
        if str_eq(e.0.0.as_str(), left) && str_eq(e.0.1.as_str(), right) && e.0.2 == proximity {
            return Some(bitmap_clone(&e.1));
        }
        proof {
            assert(list@.skip(i as int).drop_first() =~= list@.skip(i + 1));
        }
        i += 1;
    }
    proof {
        assert(list@.skip(i as int).len() == 0);
    }
    None
}

/// A copy of a facet list.
fn clone_facet_list(list: &Vec<(i64, RoaringBitmap)>) -> (r: Vec<(i64, RoaringBitmap)>)
    ensures
        facet_view(r@) == facet_view(list@),
{
    let mut out: Vec<(i64, RoaringBitmap)> = Vec::new();
    let mut i: usize = 0;
    while i < list.len()
        invariant
            i <= list@.len(),
            out@.len() == i,
            forall|j: int|
                0 <= j < i ==> (#[trigger] out@[j]).0 == list@[j].0 && bitmap_set(out@[j].1)
                    == bitmap_set(list@[j].1),
        decreases list@.len() - i,
    {
        let e = &list[i];
        out.push((e.0, bitmap_clone(&e.1)));
        i += 1;
    }
    proof {
        assert(facet_view(out@) =~= facet_view(list@));
    }
    out
}

/// A copy of a word-keyed posting list, entry for entry.
fn clone_word_list(list: &Vec<(String, RoaringBitmap)>) -> (r: Vec<(String, RoaringBitmap)>)
    ensures
        r@.len() == list@.len(),
        forall|j: int|
            0 <= j < list@.len() ==> (#[trigger] r@[j]).0@ == list@[j].0@ && bitmap_set(r@[j].1)
                == bitmap_set(list@[j].1),
{
    let mut out: Vec<(String, RoaringBitmap)> = Vec::new();
    let mut i: usize = 0;
    while i < list.len()
        invariant
            i <= list@.len(),
            out@.len() == i,
            forall|j: int|
                0 <= j < i ==> (#[trigger] out@[j]).0@ == list@[j].0@ && bitmap_set(out@[j].1)
                    == bitmap_set(list@[j].1),
        decreases list@.len() - i,
    {
        let e = &list[i];
        out.push((e.0.clone(), bitmap_clone(&e.1)));
        i += 1;
    }
    out
}

impl Context for MemIndex {
    open spec fn model(&self) -> IndexModel {
        IndexModel {
            documents: bitmap_set(self.documents),
            word_docs: word_map(self.word_docs@),
            prefix_docs: word_map(self.word_prefix_docs@),
            pair_docs: pair_map(self.word_pair_proximity_docs@),
            prefix_pair_docs: pair_map(self.word_prefix_pair_proximity_docs@),
            words: fst_words(self.words_fst),
            prefix_cache: fst_words(self.words_prefixes_fst),
            facets: facet_map(self.facet_docs@),
            positions: positions_map(self.docid_words_positions@),
        }
    }

    fn documents_ids(&self) -> (r: RoaringBitmap) {
        bitmap_clone(&self.documents)
    }

    fn word_docids(&self, word: &str) -> (r: Option<RoaringBitmap>) {
        lookup_word(&self.word_docs, word)
    }

    fn word_prefix_docids(&self, word: &str) -> (r: Option<RoaringBitmap>) {
        lookup_word(&self.word_prefix_docs, word)
    }

    fn word_pair_proximity_docids(&self, left: &str, right: &str, proximity: u8) -> (r: Option<
        RoaringBitmap,
    >) {
        lookup_pair(&self.word_pair_proximity_docs, left, right, proximity)
    }

    fn word_prefix_pair_proximity_docids(&self, left: &str, right: &str, proximity: u8) -> (r:
        Option<RoaringBitmap>) {
        lookup_pair(&self.word_prefix_pair_proximity_docs, left, right, proximity)
    }

    fn words_fst(&self) -> (r: &fst::Set<Vec<u8>>) {
        &self.words_fst
    }

    fn in_prefix_cache(&self, word: &str) -> (r: bool) {
        crate::derivations::fst_set_contains(&self.words_prefixes_fst, word)
    }

    fn facet_number_values(&self, field: &str) -> (r: Vec<(i64, RoaringBitmap)>) {
        proof {
            assert(self.facet_docs@.skip(0) =~= self.facet_docs@);
        }
        let mut i: usize = 0;
        while i < self.facet_docs.len()
            invariant
                i <= self.facet_docs@.len(),
                facet_entry_find(self.facet_docs@, field@) == facet_entry_find(
                    self.facet_docs@.skip(i as int),
                    field@,
                ),
            decreases self.facet_docs@.len() - i,
        {
            let e = &self.facet_docs[i];
            proof {
                assert(self.facet_docs@.skip(i as int)[0] == self.facet_docs@[i as int]);
            }
            if str_eq(e.0.as_str(), field) {
                return clone_facet_list(&e.1);
            }
            proof {
                assert(self.facet_docs@.skip(i as int).drop_first() =~= self.facet_docs@.skip(
                    i + 1,
                ));
            }
            i += 1;
        }
        proof {
            assert(self.facet_docs@.skip(i as int).len() == 0);
        }
        Vec::new()
    }

    fn docid_words_positions(&self, docid: u32) -> (r: Vec<(String, RoaringBitmap)>) {
        proof {
            assert(self.docid_words_positions@.skip(0) =~= self.docid_words_positions@);
        }
        let mut i: usize = 0;
        while i < self.docid_words_positions.len()
            invariant
                i <= self.docid_words_positions@.len(),
                positions_entry_find(self.docid_words_positions@, docid)
                    == positions_entry_find(
                    self.docid_words_positions@.skip(i as int),
                    docid,
                ),
            decreases self.docid_words_positions@.len() - i,
        {
            let e = &self.docid_words_positions[i];
            proof {
                assert(self.docid_words_positions@.skip(i as int)[0]
                    == self.docid_words_positions@[i as int]);
            }
            if e.0 == docid {
                let out = clone_word_list(&e.1);
                proof {
                    lemma_word_entries_congruent(out@, e.1@);
                    assert(word_map(out@) =~= word_map(e.1@));
                }
                return out;
            }
            proof {
                assert(self.docid_words_positions@.skip(i as int).drop_first()
                    =~= self.docid_words_positions@.skip(i + 1));
            }
            i += 1;
        }
        proof {
            assert(self.docid_words_positions@.skip(i as int).len() == 0);
            assert(word_map(Seq::<(String, RoaringBitmap)>::empty()) =~= Map::<
                Seq<char>,
                Set<u32>,
            >::empty());
        }
        Vec::new()
    }
}

} // verus!
