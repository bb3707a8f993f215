//! Fuzzy and prefix expansion of query terms against the dictionary FST.
//!
//! A derivation of `(word, prefix, max_typos)` is a dictionary word within
//! `max_typos` edit operations of `word` (or, with `prefix`, prefixed by
//! such a string), paired with the observed edit distance. The expansion
//! walks the dictionary FST with a Levenshtein automaton of the requested
//! radius; results are memoized in a [`WordDerivationsCache`] for the
//! duration of one search.

use vstd::prelude::*;
use fst::{IntoStreamer, Streamer};
use levenshtein_automata::LevenshteinAutomatonBuilder;
use crate::index::{Context, str_eq};
use crate::query_tree::clamp_typos;

verus! {

#[verifier::external_type_specification]
#[verifier::external_body]
#[verifier::reject_recursive_types(D)]
pub struct ExFstSet<D>(fst::Set<D>);

/// The words an FST set holds, as character sequences.
pub uninterp spec fn fst_words(s: fst::Set<Vec<u8>>) -> Set<Seq<char>>;

/// What the Levenshtein expansion of `word` at radius `max_typos`
/// (prefix-matching when `prefix` is set) returns against a dictionary
/// holding `words`: the matching dictionary words in dictionary order,
/// each with its observed edit distance.
pub uninterp spec fn derive_of(
    words: Set<Seq<char>>,
    word: Seq<char>,
    prefix: bool,
    max_typos: u8,
) -> Seq<(Seq<char>, u8)>;

/// A derivation list over views.
pub open spec fn derivs_view(v: Seq<(String, u8)>) -> Seq<(Seq<char>, u8)> {
    v.map_values(|p: (String, u8)| (p.0@, p.1))
}

/// Relies on `fst::Set::from_iter`: when it accepts the word list (the
/// list is sorted and duplicate-free), the set holds exactly those words.
#[verifier::external_body]
pub fn build_words_fst(words: &Vec<String>) -> (r: Option<fst::Set<Vec<u8>>>)
    ensures
        match r {
            Some(s) => fst_words(s) == words@.map_values(|w: String| w@).to_set(),
            None => true,
        },
{
    fst::Set::from_iter(words.iter().map(|w| w.as_bytes())).ok()
}

/// Relies on `fst::Set::contains`.
#[verifier::external_body]
pub fn fst_set_contains(s: &fst::Set<Vec<u8>>, word: &str) -> (r: bool)
    ensures
        r == fst_words(*s).contains(word@),
{
    s.contains(word.as_bytes())
}

/// Relies on `LevenshteinAutomatonBuilder::build_dfa` / `build_prefix_dfa`
/// and `fst::Set::search_with_state`: the automaton accepts the dictionary
/// words within `max_typos` edit operations of `word` (with `prefix`, the
/// words such a string prefixes), the stream yields them in dictionary
/// order, and `DFA::distance` reports the observed edit distance of each.
/// The outcome is a function of the dictionary contents and the request
/// alone. The automaton builder sizes its tables from the radius and does
/// not take large ones, so the radius is kept within the permitted typo
/// bounds.
#[verifier::external_body]
fn fst_fuzzy_derivations(s: &fst::Set<Vec<u8>>, word: &str, prefix: bool, max_typos: u8) -> (r:
    Vec<(String, u8)>)
    requires
        max_typos <= 2,
    ensures
        derivs_view(r@) == derive_of(fst_words(*s), word@, prefix, max_typos),
{
    let builder = LevenshteinAutomatonBuilder::new(max_typos, true);
    let dfa = if prefix { builder.build_prefix_dfa(word) } else { builder.build_dfa(word) };
    let mut stream = s.search_with_state(&dfa).into_stream();
    let mut out = Vec::new();
    while let Some((w, state)) = stream.next() {
        if let Ok(w) = std::str::from_utf8(w) {
            out.push((w.to_string(), dfa.distance(state).to_u8()));
        }
    }
    out
}

/// A copy of a derivation list.
fn clone_derivs(v: &Vec<(String, u8)>) -> (r: Vec<(String, u8)>)
    ensures
        r@ == v@,
{
    let mut out: Vec<(String, u8)> = Vec::new();
    let mut i: usize = 0;
    while i < v.len()
        invariant
            i <= v@.len(),
            out@.len() == i,
            forall|j: int| 0 <= j < i ==> #[trigger] out@[j] == v@[j],
        decreases v@.len() - i,
    {
        let e = &v[i];
        out.push((e.0.clone(), e.1));
        i += 1;
    }
    proof {
        assert(out@ =~= v@);
    }
    out
}

/// A memo of fuzzy/prefix expansions, scoped to one search.
///
/// Entries are keyed by `(word, prefix, max_typos)`; every entry holds
/// exactly the expansion of its key against the dictionary the cache was
/// created for, so a hit and a fresh walk are indistinguishable.
pub struct WordDerivationsCache {
    entries: Vec<((String, bool, u8), Vec<(String, u8)>)>,
    words: Ghost<Set<Seq<char>>>,
}

impl WordDerivationsCache {
    /// The dictionary contents this cache is bound to.
    pub closed spec fn dict(self) -> Set<Seq<char>> {
        self.words@
    }

    #[verifier::type_invariant]
    spec fn inv(self) -> bool {
        forall|i: int|
            0 <= i < self.entries@.len() ==> {
                let e = #[trigger] self.entries@[i];
                e.0.2 <= 2 && derivs_view(e.1@) == derive_of(self.words@, e.0.0@, e.0.1, e.0.2)
            }
    }

    /// A fresh cache bound to the dictionary of `ctx`.
    pub fn new_for<C: Context>(ctx: &C) -> (r: Self)
        ensures
            r.dict() == ctx.model().words,
    {
        WordDerivationsCache { entries: Vec::new(), words: Ghost(ctx.model().words) }
    }
}

/// The expansion of `(word, is_prefix, max_typo)` against the dictionary
/// of `ctx`, memoized in `cache`. A typo bound above 2 is clamped to 2.
///
/// The result is a function of the dictionary and the request alone:
/// repeated calls yield identical output regardless of cache warmth.
pub fn word_derivations<C: Context>(
    ctx: &C,
    word: &str,
    is_prefix: bool,
    max_typo: u8,
    cache: &mut WordDerivationsCache,
) -> (r: Vec<(String, u8)>)
    requires
        old(cache).dict() == ctx.model().words,
    ensures
        final(cache).dict() == old(cache).dict(),
        derivs_view(r@) == derive_of(ctx.model().words, word@, is_prefix, clamp_typos(max_typo)),
{
    let typo: u8 = if max_typo > 2 { 2 } else { max_typo };
    proof {
        use_type_invariant(&*cache);
    }
    let mut i: usize = 0;
    while i < cache.entries.len()
        invariant
            i <= cache.entries@.len(),
            *cache == *old(cache),
            cache.inv(),
            cache.words@ == ctx.model().words,
            typo == clamp_typos(max_typo),
        decreases cache.entries@.len() - i,
    {
        let e = &cache.entries[i];
        if str_eq(e.0.0.as_str(), word) && e.0.1 == is_prefix && e.0.2 == typo {
            proof {
                let ent = cache.entries@[i as int];
                assert(*e == ent);
                assert(ent.0.0@ == word@);
                assert(ent.0.1 == is_prefix && ent.0.2 == typo);
                assert(cache.words@ == ctx.model().words);
                assert(typo == clamp_typos(max_typo));
                assert(derivs_view(ent.1@) == derive_of(cache.words@, ent.0.0@, ent.0.1, ent.0.2));
                assert(derivs_view(ent.1@) == derive_of(
                    ctx.model().words,
                    word@,
                    is_prefix,
                    clamp_typos(max_typo),
                ));
            }
            return clone_derivs(&e.1);
        }
        i += 1;
    }
    let fresh = fst_fuzzy_derivations(ctx.words_fst(), word, is_prefix, typo);
    let result = clone_derivs(&fresh);
    let key = (word.to_owned(), is_prefix, typo);
    let mut entries: Vec<((String, bool, u8), Vec<(String, u8)>)> = Vec::new();
    core::mem::swap(&mut entries, &mut cache.entries);
    entries.push((key, fresh));
    core::mem::swap(&mut entries, &mut cache.entries);
    result
}

} // verus!
