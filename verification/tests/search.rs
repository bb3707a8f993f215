use milli::index::{Context, MemIndex};
use milli::derivations::{build_words_fst, word_derivations, WordDerivationsCache};
use milli::query_tree::{Operation, Query, QueryKind};
use milli::resolver::{resolve_query_tree, query_docids, query_pair_proximity_docids,
    all_word_pair_proximity_docids};
use milli::criteria::{Candidates, CriteriaBuilder, CriterionName, Fetcher, typo_bucket};
use milli::Error;
use roaring::RoaringBitmap;

fn bm(ids: &[u32]) -> RoaringBitmap {
    ids.iter().copied().collect()
}

fn s(w: &str) -> String {
    w.to_string()
}

fn exact(w: &str, prefix: bool) -> Query {
    Query { prefix, kind: QueryKind::Exact { word: s(w) } }
}

fn tolerant(w: &str, typo: u8, prefix: bool) -> Query {
    Query { prefix, kind: QueryKind::Tolerant { typo, word: s(w) } }
}

fn leaf(q: Query) -> Operation {
    Operation::Query(q)
}

fn hello() -> RoaringBitmap { bm(&[1, 2, 3, 4, 5]) }
fn hi() -> RoaringBitmap { bm(&[6, 7]) }
fn word() -> RoaringBitmap { bm(&[1, 8, 9]) }
fn world() -> RoaringBitmap { bm(&[2, 3, 12, 13]) }
fn is_docs() -> RoaringBitmap { bm(&[1, 2, 15, 16, 17, 18]) }
fn this() -> RoaringBitmap { bm(&[1, 2, 15, 16, 17]) }
fn good() -> RoaringBitmap { bm(&[20, 21, 22]) }
fn morning() -> RoaringBitmap { bm(&[21, 22, 23]) }

fn test_index() -> MemIndex {
    let words: Vec<String> = [
        "2020", "2021", "earth", "good", "hello", "hi", "is", "morning", "ngrams", "split",
        "this", "word", "world",
    ]
    .iter()
    .map(|w| s(w))
    .collect();
    let prefixes: Vec<String> = ["20", "h", "wor"].iter().map(|w| s(w)).collect();
    let word_docs = vec![
        (s("2020"), bm(&[16, 17])),
        (s("2021"), bm(&[15, 16])),
        (s("earth"), bm(&[14])),
        (s("good"), good()),
        (s("hello"), hello()),
        (s("hi"), hi()),
        (s("is"), is_docs()),
        (s("morning"), morning()),
        (s("ngrams"), bm(&[11])),
        (s("split"), bm(&[9, 10])),
        (s("this"), this()),
        (s("word"), word()),
        (s("world"), world()),
    ];
    let word_prefix_docs = vec![
        (s("h"), &hello() | &hi()),
        (s("wor"), &word() | &world()),
        (s("20"), bm(&[15, 16, 17])),
    ];
    let word_pair_proximity_docs = vec![
        ((s("good"), s("morning"), 1u8), &good() & &morning()),
        ((s("hello"), s("world"), 1u8), bm(&[2])),
        ((s("hello"), s("world"), 4u8), bm(&[3])),
        ((s("hello"), s("word"), 4u8), bm(&[1])),
        ((s("is"), s("2021"), 1u8), &(&this() & &is_docs()) & &bm(&[15, 16])),
    ];
    let word_prefix_pair_proximity_docs = vec![
        ((s("hello"), s("wor"), 1u8), bm(&[2])),
        ((s("hello"), s("wor"), 4u8), bm(&[1, 3])),
    ];
    MemIndex {
        documents: bm(&(1..=23).collect::<Vec<u32>>()),
        word_docs,
        word_prefix_docs,
        word_pair_proximity_docs,
        word_prefix_pair_proximity_docs,
        words_fst: build_words_fst(&words).unwrap(),
        words_prefixes_fst: build_words_fst(&prefixes).unwrap(),
        facet_docs: vec![(
            s("rank"),
            vec![(1i64, bm(&[1, 2])), (2i64, bm(&[3]))],
        )],
        docid_words_positions: vec![(21u32, vec![(s("good"), bm(&[0])), (s("morning"), bm(&[1]))])],
    }
}

fn resolve(idx: &MemIndex, tree: &Operation) -> RoaringBitmap {
    let mut cache = WordDerivationsCache::new_for(idx);
    resolve_query_tree(idx, tree, &mut cache).unwrap()
}

#[test]
fn exact_word_resolves_to_its_posting_list() {
    let idx = test_index();
    let r = resolve(&idx, &leaf(exact("hello", false)));
    assert_eq!(r, hello());
}

#[test]
fn cached_prefix_resolves_to_the_prefix_posting() {
    let idx = test_index();
    let r = resolve(&idx, &leaf(exact("h", true)));
    assert_eq!(r, &hello() | &hi());
}

#[test]
fn uncached_prefix_unions_its_derivations() {
    let idx = test_index();
    // "wo" is not in the prefix cache: expand to word, world.
    let r = resolve(&idx, &leaf(exact("wo", true)));
    assert_eq!(r, &word() | &world());
}

#[test]
fn missing_word_resolves_to_the_empty_set() {
    let idx = test_index();
    let r = resolve(&idx, &leaf(exact("zebra", false)));
    assert!(r.is_empty());
}

#[test]
fn and_intersects_and_consecutive_reads_the_pair_table() {
    let idx = test_index();
    let and = Operation::And(vec![leaf(exact("good", false)), leaf(exact("morning", false))]);
    let cons = Operation::Consecutive(vec![
        leaf(exact("good", false)),
        leaf(exact("morning", false)),
    ]);
    let a = resolve(&idx, &and);
    let c = resolve(&idx, &cons);
    assert_eq!(a, &good() & &morning());
    assert_eq!(c, a);
}

#[test]
fn proximity_pipeline_emits_buckets_in_distance_order() {
    let idx = test_index();
    let tree = Operation::Consecutive(vec![leaf(exact("hello", false)), leaf(exact("world", false))]);
    let mut cache = WordDerivationsCache::new_for(&idx);
    let builder = CriteriaBuilder::new(vec![CriterionName::Proximity]);
    let mut fetcher = builder.build(&idx, Some(tree), None);
    let b1 = fetcher.next(&idx, &mut cache).unwrap().unwrap();
    assert_eq!(b1.candidates.unwrap(), bm(&[2]));
    assert_eq!(b1.bucket_candidates, bm(&[2]));
    let b2 = fetcher.next(&idx, &mut cache).unwrap().unwrap();
    assert_eq!(b2.candidates.unwrap(), bm(&[3]));
    assert!(fetcher.next(&idx, &mut cache).unwrap().is_none());
}

#[test]
fn prefix_pair_uses_the_prefix_pair_table() {
    let idx = test_index();
    let mut cache = WordDerivationsCache::new_for(&idx);
    let r = query_pair_proximity_docids(
        &idx,
        &exact("hello", false),
        &exact("wor", true),
        4,
        &mut cache,
    );
    assert_eq!(r, bm(&[1, 3]));
}

#[test]
fn exact_pair_reads_the_pair_table() {
    let idx = test_index();
    let mut cache = WordDerivationsCache::new_for(&idx);
    let r = query_pair_proximity_docids(
        &idx,
        &exact("is", false),
        &exact("2021", false),
        1,
        &mut cache,
    );
    assert_eq!(r, bm(&[15, 16]));
}

#[test]
fn and_is_commutative() {
    let idx = test_index();
    let ab = Operation::And(vec![leaf(exact("good", false)), leaf(exact("morning", false))]);
    let ba = Operation::And(vec![leaf(exact("morning", false)), leaf(exact("good", false))]);
    assert_eq!(resolve(&idx, &ab), resolve(&idx, &ba));
}

#[test]
fn or_is_commutative_and_associative() {
    let idx = test_index();
    let ab = Operation::Or(false, vec![leaf(exact("hello", false)), leaf(exact("hi", false))]);
    let ba = Operation::Or(false, vec![leaf(exact("hi", false)), leaf(exact("hello", false))]);
    assert_eq!(resolve(&idx, &ab), resolve(&idx, &ba));
    let nested = Operation::Or(
        false,
        vec![
            Operation::Or(true, vec![leaf(exact("hello", false)), leaf(exact("hi", false))]),
            leaf(exact("word", false)),
        ],
    );
    let flat = Operation::Or(
        false,
        vec![
            leaf(exact("hello", false)),
            leaf(exact("hi", false)),
            leaf(exact("word", false)),
        ],
    );
    assert_eq!(resolve(&idx, &nested), resolve(&idx, &flat));
}

#[test]
fn derivations_do_not_depend_on_cache_warmth() {
    let idx = test_index();
    let mut cold = WordDerivationsCache::new_for(&idx);
    let first = word_derivations(&idx, "wird", false, 1, &mut cold);
    let second = word_derivations(&idx, "wird", false, 1, &mut cold);
    let mut fresh = WordDerivationsCache::new_for(&idx);
    let third = word_derivations(&idx, "wird", false, 1, &mut fresh);
    assert_eq!(first, second);
    assert_eq!(first, third);
    assert!(first.iter().any(|(w, t)| w == "word" && *t == 1));
}

#[test]
fn typo_bound_above_two_is_clamped() {
    let idx = test_index();
    let mut cache = WordDerivationsCache::new_for(&idx);
    let wide = word_derivations(&idx, "word", false, 200, &mut cache);
    let two = word_derivations(&idx, "word", false, 2, &mut cache);
    assert_eq!(wide, two);
}

#[test]
fn consecutive_of_two_leaves_equals_the_pair_at_distance_one() {
    let idx = test_index();
    let a = exact("hello", false);
    let b = exact("world", false);
    let cons = Operation::Consecutive(vec![
        leaf(exact("hello", false)),
        leaf(exact("world", false)),
    ]);
    let mut cache = WordDerivationsCache::new_for(&idx);
    let pair = query_pair_proximity_docids(&idx, &a, &b, 1, &mut cache);
    assert_eq!(resolve(&idx, &cons), pair);
}

#[test]
fn proximity_eight_collapses_to_intersection() {
    let idx = test_index();
    let a = exact("hello", false);
    let b = exact("world", false);
    let mut cache = WordDerivationsCache::new_for(&idx);
    let pair = query_pair_proximity_docids(&idx, &a, &b, 8, &mut cache);
    let left = resolve(&idx, &leaf(exact("hello", false)));
    let right = resolve(&idx, &leaf(exact("world", false)));
    assert_eq!(pair, &left & &right);
}

#[test]
fn tolerant_pair_unions_over_the_cartesian_product() {
    let idx = test_index();
    let left_words = vec![(s("hello"), 0u8)];
    let right_words = vec![(s("world"), 0u8), (s("word"), 1u8)];
    let r = all_word_pair_proximity_docids(&idx, &left_words, &right_words, 4);
    assert_eq!(r, bm(&[1, 3]));
}

#[test]
fn typo_pipeline_buckets_are_disjoint_and_ordered() {
    let idx = test_index();
    let tree = leaf(tolerant("hi", 2, false));
    let mut cache = WordDerivationsCache::new_for(&idx);
    let builder = CriteriaBuilder::new(vec![CriterionName::Typo]);
    let mut fetcher = builder.build(&idx, Some(tree), None);
    let b1 = fetcher.next(&idx, &mut cache).unwrap().unwrap();
    let first = b1.candidates.unwrap();
    assert_eq!(first, hi());
    let b2 = fetcher.next(&idx, &mut cache).unwrap().unwrap();
    let second = b2.candidates.unwrap();
    // Documents of a later typo level never repeat an earlier one.
    assert!((&first & &second).is_empty());
    assert_eq!(second, &(&is_docs() | &this()) - &hi());
    assert!(fetcher.next(&idx, &mut cache).unwrap().is_none());
}

#[test]
fn words_pipeline_degrades_from_all_terms_to_fewer() {
    let idx = test_index();
    let tree = Operation::And(vec![leaf(exact("good", false)), leaf(exact("morning", false))]);
    let mut cache = WordDerivationsCache::new_for(&idx);
    let builder = CriteriaBuilder::new(vec![CriterionName::Words]);
    let mut fetcher = builder.build(&idx, Some(tree), None);
    let b1 = fetcher.next(&idx, &mut cache).unwrap().unwrap().candidates.unwrap();
    assert_eq!(b1, &good() & &morning());
    let b2 = fetcher.next(&idx, &mut cache).unwrap().unwrap().candidates.unwrap();
    assert_eq!(b2, &good() - &morning());
    assert!(fetcher.next(&idx, &mut cache).unwrap().is_none());
}

#[test]
fn ascending_facet_emits_valueless_documents_last() {
    let idx = test_index();
    let mut cache = WordDerivationsCache::new_for(&idx);
    let builder = CriteriaBuilder::new(vec![CriterionName::Asc(s("rank"))]);
    let mut fetcher = builder.build(&idx, None, Some(bm(&[1, 2, 3, 14])));
    let b1 = fetcher.next(&idx, &mut cache).unwrap().unwrap().candidates.unwrap();
    assert_eq!(b1, bm(&[1, 2]));
    let b2 = fetcher.next(&idx, &mut cache).unwrap().unwrap().candidates.unwrap();
    assert_eq!(b2, bm(&[3]));
    let b3 = fetcher.next(&idx, &mut cache).unwrap().unwrap().candidates.unwrap();
    assert_eq!(b3, bm(&[14]));
    assert!(fetcher.next(&idx, &mut cache).unwrap().is_none());
}

#[test]
fn descending_facet_emits_valueless_documents_first() {
    let idx = test_index();
    let mut cache = WordDerivationsCache::new_for(&idx);
    let builder = CriteriaBuilder::new(vec![CriterionName::Desc(s("rank"))]);
    let mut fetcher = builder.build(&idx, None, Some(bm(&[1, 2, 3, 14])));
    let b1 = fetcher.next(&idx, &mut cache).unwrap().unwrap().candidates.unwrap();
    assert_eq!(b1, bm(&[14]));
    let b2 = fetcher.next(&idx, &mut cache).unwrap().unwrap().candidates.unwrap();
    assert_eq!(b2, bm(&[3]));
    let b3 = fetcher.next(&idx, &mut cache).unwrap().unwrap().candidates.unwrap();
    assert_eq!(b3, bm(&[1, 2]));
    assert!(fetcher.next(&idx, &mut cache).unwrap().is_none());
}

#[test]
fn nested_operation_inside_consecutive_is_a_structural_error() {
    let idx = test_index();
    let bad = Operation::Consecutive(vec![
        Operation::And(vec![leaf(exact("good", false))]),
        leaf(exact("morning", false)),
    ]);
    let mut cache = WordDerivationsCache::new_for(&idx);
    let r = resolve_query_tree(&idx, &bad, &mut cache);
    assert_eq!(r.unwrap_err(), Error::InvalidConsecutive);
    assert_eq!(Error::InvalidConsecutive.message(), "invalid consecutive query type");
}

#[test]
fn unknown_initial_criterion_is_skipped() {
    let idx = test_index();
    let mut cache = WordDerivationsCache::new_for(&idx);
    let builder = CriteriaBuilder::new(vec![CriterionName::Attribute]);
    let mut fetcher = builder.build(&idx, Some(leaf(exact("hello", false))), None);
    let b = fetcher.next(&idx, &mut cache).unwrap().unwrap().candidates.unwrap();
    assert_eq!(b, hello());
    assert!(fetcher.next(&idx, &mut cache).unwrap().is_none());
}

#[test]
fn unknown_wrapping_criterion_passes_the_parent_through() {
    let idx = test_index();
    let tree = leaf(tolerant("hi", 2, false));
    let mut cache = WordDerivationsCache::new_for(&idx);
    let builder = CriteriaBuilder::new(vec![CriterionName::Typo, CriterionName::Exactness]);
    let mut fetcher = builder.build(&idx, Some(tree), None);
    let b1 = fetcher.next(&idx, &mut cache).unwrap().unwrap().candidates.unwrap();
    assert_eq!(b1, hi());
}

#[test]
fn empty_pipeline_serves_the_seed_directly() {
    let idx = test_index();
    let mut cache = WordDerivationsCache::new_for(&idx);
    let mut fetcher = Fetcher::initial(Some(leaf(exact("earth", false))), None);
    let b = fetcher.next(&idx, &mut cache).unwrap().unwrap().candidates.unwrap();
    assert_eq!(b, bm(&[14]));
    assert!(fetcher.next(&idx, &mut cache).unwrap().is_none());
}

#[test]
fn unsorted_word_list_is_refused_by_the_dictionary_builder() {
    let words: Vec<String> = vec![s("zebra"), s("apple")];
    assert!(build_words_fst(&words).is_none());
}

#[test]
fn word_positions_of_a_document_come_back_keyed_by_word() {
    let idx = test_index();
    let positions = idx.docid_words_positions(21);
    assert_eq!(positions.len(), 2);
    assert_eq!(positions[0].0, "good");
    assert_eq!(positions[0].1, bm(&[0]));
    assert_eq!(positions[1].0, "morning");
    assert_eq!(positions[1].1, bm(&[1]));
    assert!(idx.docid_words_positions(99).is_empty());
}

#[test]
fn tolerant_leaf_unions_its_fuzzy_derivations() {
    let idx = test_index();
    let mut cache = WordDerivationsCache::new_for(&idx);
    // "wird" at one typo matches "word"; at zero typos nothing.
    let r = query_docids(&idx, &tolerant("wird", 1, false), &mut cache);
    assert_eq!(r, word());
    let r0 = query_docids(&idx, &tolerant("wird", 0, false), &mut cache);
    assert!(r0.is_empty());
}

#[test]
fn allowed_pool_restricts_and_shrinks_across_levels() {
    let idx = test_index();
    let mut cache = WordDerivationsCache::new_for(&idx);
    let tree = leaf(tolerant("hi", 2, false));
    let mut cands = Candidates::Allowed(bm(&[1, 2, 3, 6, 7]));
    let (_, level0) = typo_bucket(&idx, &tree, 0, &mut cands, &mut cache).unwrap();
    assert_eq!(level0, bm(&[6, 7]));
    let (_, level2) = typo_bucket(&idx, &tree, 2, &mut cands, &mut cache).unwrap();
    assert_eq!(level2, bm(&[1, 2]));
}

#[test]
fn forbidden_pool_excludes_its_documents() {
    let idx = test_index();
    let mut cache = WordDerivationsCache::new_for(&idx);
    let tree = leaf(tolerant("hi", 2, false));
    let mut cands = Candidates::Forbidden(bm(&[6]));
    let (_, level0) = typo_bucket(&idx, &tree, 0, &mut cands, &mut cache).unwrap();
    assert_eq!(level0, bm(&[7]));
}

#[test]
fn wrapping_criterion_forwards_the_parent_label() {
    let idx = test_index();
    let tree = leaf(tolerant("hi", 2, false));
    let mut cache = WordDerivationsCache::new_for(&idx);
    let builder = CriteriaBuilder::new(vec![CriterionName::Typo, CriterionName::Words]);
    let mut fetcher = builder.build(&idx, Some(tree), None);
    let b1 = fetcher.next(&idx, &mut cache).unwrap().unwrap();
    assert_eq!(b1.bucket_candidates, hi());
    assert_eq!(b1.candidates.unwrap(), hi());
    // A spent sub-iteration pulls the next parent bucket within the
    // same call: no empty bucket appears between the two.
    let b2 = fetcher.next(&idx, &mut cache).unwrap().unwrap();
    assert_eq!(b2.candidates.unwrap(), &(&is_docs() | &this()) - &hi());
    assert_eq!(b2.bucket_candidates, &(&is_docs() | &this()) - &hi());
    assert!(fetcher.next(&idx, &mut cache).unwrap().is_none());
    // End of stream is absorbing.
    assert!(fetcher.next(&idx, &mut cache).unwrap().is_none());
}
