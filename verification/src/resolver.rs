//! The query-tree resolver: from a tree to a candidate document set.
//!
//! Resolution is specified over the [`IndexModel`]: every executable
//! function's result is pinned to the spec functions below, which mirror
//! the resolution rules node by node. A missing posting list resolves to
//! the empty set; the only error a resolver can raise is structural (a
//! non-leaf child inside `Consecutive`).

use vstd::prelude::*;
use vstd::pervasive::arbitrary;
use vstd::seq_lib::group_to_multiset_ensures;
use vstd::multiset::Multiset;
use roaring::RoaringBitmap;
use crate::Error;
use crate::bitmap::{
    bitmap_set, bitmap_new, bitmap_clone, bitmap_is_empty, bitmap_len, bitmap_union_with,
    bitmap_intersect_with,
};
use crate::index::{Context, IndexModel};
use crate::query_tree::{Operation, Query, QueryKind, QueryView, QueryKindView, OpView};
use crate::query_tree::{clamp_typos, tree_wf, op_view, op_view_list, lemma_op_view_list};
use crate::derivations::{derive_of, derivs_view, WordDerivationsCache, word_derivations};

verus! {

/// The posting list of `w`; a missing word is the empty set.
pub open spec fn word_lookup(m: IndexModel, w: Seq<char>) -> Set<u32> {
    if m.word_docs.contains_key(w) {
        m.word_docs[w]
    } else {
        Set::empty()
    }
}

/// The precomputed prefix posting list of `w`; missing is empty.
pub open spec fn prefix_lookup(m: IndexModel, w: Seq<char>) -> Set<u32> {
    if m.prefix_docs.contains_key(w) {
        m.prefix_docs[w]
    } else {
        Set::empty()
    }
}

/// The pair posting list of `(l, r)` at proximity `p`; missing is empty.
pub open spec fn pair_lookup(m: IndexModel, l: Seq<char>, r: Seq<char>, p: u8) -> Set<u32> {
    if m.pair_docs.contains_key((l, r, p)) {
        m.pair_docs[(l, r, p)]
    } else {
        Set::empty()
    }
}

/// The prefix-pair posting list of `(l, r-prefix)` at `p`; missing is empty.
pub open spec fn prefix_pair_lookup(m: IndexModel, l: Seq<char>, r: Seq<char>, p: u8) -> Set<
    u32,
> {
    if m.prefix_pair_docs.contains_key((l, r, p)) {
        m.prefix_pair_docs[(l, r, p)]
    } else {
        Set::empty()
    }
}

/// Union of the posting lists of a derivation list.
pub open spec fn union_word_docids(m: IndexModel, ws: Seq<(Seq<char>, u8)>) -> Set<u32>
    decreases ws.len(),
{
    if ws.len() == 0 {
        Set::empty()
    } else {
        union_word_docids(m, ws.drop_last()).union(word_lookup(m, ws.last().0))
    }
}

/// What a leaf resolves to.
pub open spec fn spec_query_docids(m: IndexModel, q: QueryView) -> Set<u32> {
    match q.kind {
        QueryKindView::Exact { word } => {
            if q.prefix && m.prefix_cache.contains(word) {
                prefix_lookup(m, word)
            } else if q.prefix {
                union_word_docids(m, derive_of(m.words, word, true, 0))
            } else {
                word_lookup(m, word)
            }
        },
        QueryKindView::Tolerant { typo, word } => union_word_docids(
            m,
            derive_of(m.words, word, q.prefix, clamp_typos(typo)),
        ),
    }
}

/// Union of pair posting lists of one left word against a derivation list.
pub open spec fn pair_row(m: IndexModel, l: Seq<char>, rs: Seq<(Seq<char>, u8)>, p: u8) -> Set<
    u32,
>
    decreases rs.len(),
{
    if rs.len() == 0 {
        Set::empty()
    } else {
        pair_row(m, l, rs.drop_last(), p).union(pair_lookup(m, l, rs.last().0, p))
    }
}

/// Union of pair posting lists over the cartesian product of two
/// derivation lists.
pub open spec fn cartesian_pairs(
    m: IndexModel,
    ls: Seq<(Seq<char>, u8)>,
    rs: Seq<(Seq<char>, u8)>,
    p: u8,
) -> Set<u32>
    decreases ls.len(),
{
    if ls.len() == 0 {
        Set::empty()
    } else {
        cartesian_pairs(m, ls.drop_last(), rs, p).union(pair_row(m, ls.last().0, rs, p))
    }
}

/// Union of prefix-pair posting lists of a derivation list against one
/// cached right prefix.
pub open spec fn prefix_pair_col(
    m: IndexModel,
    ls: Seq<(Seq<char>, u8)>,
    r: Seq<char>,
    p: u8,
) -> Set<u32>
    decreases ls.len(),
{
    if ls.len() == 0 {
        Set::empty()
    } else {
        prefix_pair_col(m, ls.drop_last(), r, p).union(prefix_pair_lookup(m, ls.last().0, r, p))
    }
}

/// What a two-leaf proximity constraint resolves to.
///
/// At `p >= 8` the stored pair tables end and the constraint collapses to
/// plain co-occurrence: the intersection of the two leaf resolutions.
pub open spec fn spec_pair_docids(m: IndexModel, left: QueryView, right: QueryView, p: u8) -> Set<
    u32,
> {
    if p >= 8 {
        spec_query_docids(m, left).intersect(spec_query_docids(m, right))
    } else {
        match (left.kind, right.kind) {
            (QueryKindView::Exact { word: lw }, QueryKindView::Exact { word: rw }) => {
                if right.prefix && m.prefix_cache.contains(rw) {
                    prefix_pair_lookup(m, lw, rw, p)
                } else if right.prefix {
                    cartesian_pairs(m, seq![(lw, 0u8)], derive_of(m.words, rw, true, 0), p)
                } else {
                    pair_lookup(m, lw, rw, p)
                }
            },
            (QueryKindView::Tolerant { typo, word: lw }, QueryKindView::Exact { word: rw }) => {
                let ls = derive_of(m.words, lw, false, clamp_typos(typo));
                if right.prefix && m.prefix_cache.contains(rw) {
                    prefix_pair_col(m, ls, rw, p)
                } else if right.prefix {
                    cartesian_pairs(m, ls, derive_of(m.words, rw, true, 0), p)
                } else {
                    cartesian_pairs(m, ls, seq![(rw, 0u8)], p)
                }
            },
            (QueryKindView::Exact { word: lw }, QueryKindView::Tolerant { typo, word: rw }) => {
                cartesian_pairs(
                    m,
                    seq![(lw, 0u8)],
                    derive_of(m.words, rw, right.prefix, clamp_typos(typo)),
                    p,
                )
            },
            (
                QueryKindView::Tolerant { typo: lt, word: lw },
                QueryKindView::Tolerant { typo: rt, word: rw },
            ) => {
                cartesian_pairs(
                    m,
                    derive_of(m.words, lw, false, clamp_typos(lt)),
                    derive_of(m.words, rw, right.prefix, clamp_typos(rt)),
                    p,
                )
            },
        }
    }
}

/// The leaf inside an `OpView::Query` node.
pub open spec fn leaf_of(t: OpView) -> QueryView {
    match t {
        OpView::Query(q) => q,
        _ => arbitrary(),
    }
}

/// Intersection of a list of sets; the empty list intersects to nothing.
pub open spec fn inter_seq(sets: Seq<Set<u32>>) -> Set<u32> {
    Set::new(
        |x: u32|
            sets.len() > 0 && forall|i: int| 0 <= i < sets.len() ==> #[trigger] sets[i].contains(x),
    )
}

/// What each child of a node resolves to.
pub open spec fn resolve_list(m: IndexModel, ops: Seq<OpView>) -> Seq<Set<u32>>
    decreases ops,
{
    if ops.len() == 0 {
        Seq::empty()
    } else {
        seq![spec_resolve(m, ops[0])] + resolve_list(m, ops.drop_first())
    }
}

/// What the adjacent leaf pairs of a `Consecutive` node resolve to at
/// proximity `p`.
pub open spec fn pair_sets(m: IndexModel, ops: Seq<OpView>, p: u8) -> Seq<Set<u32>>
    decreases ops,
{
    if ops.len() < 2 {
        Seq::empty()
    } else {
        seq![spec_pair_docids(m, leaf_of(ops[0]), leaf_of(ops[1]), p)] + pair_sets(
            m,
            ops.drop_first(),
            p,
        )
    }
}

/// Union of the resolutions of a list of children.
pub open spec fn union_list(m: IndexModel, ops: Seq<OpView>) -> Set<u32>
    decreases ops,
{
    if ops.len() == 0 {
        Set::empty()
    } else {
        union_list(m, ops.drop_last()).union(spec_resolve(m, ops.last()))
    }
}

/// What a tree resolves to.
///
/// `And` intersects its children (an empty `And` is empty); `Or` unions
/// them; `Consecutive` intersects the pair resolutions of its adjacent
/// leaves at proximity 1 (fewer than two children resolve to nothing);
/// a leaf dispatches to [`spec_query_docids`].
pub open spec fn spec_resolve(m: IndexModel, t: OpView) -> Set<u32>
    decreases t,
{
    match t {
        OpView::And(ops) => inter_seq(resolve_list(m, ops)),
        OpView::Consecutive(ops) => inter_seq(pair_sets(m, ops, 1)),
        OpView::Or(_, ops) => union_list(m, ops),
        OpView::Query(q) => spec_query_docids(m, q),
    }
}

/// `resolve_list` is the pointwise resolution.
pub proof fn lemma_resolve_list(m: IndexModel, ops: Seq<OpView>)
    ensures
        resolve_list(m, ops).len() == ops.len(),
        forall|i: int|
            0 <= i < ops.len() ==> resolve_list(m, ops)[i] == spec_resolve(m, #[trigger] ops[i]),
    decreases ops,
{
    if ops.len() > 0 {
        lemma_resolve_list(m, ops.drop_first());
        assert forall|i: int|
            0 <= i < ops.len() implies resolve_list(m, ops)[i] == spec_resolve(
            m,
            #[trigger] ops[i],
        ) by {
            if i > 0 {
                assert(ops.drop_first()[i - 1] == ops[i]);
            }
        }
    }
}

/// `pair_sets` is the pointwise pair resolution of adjacent leaves.
pub proof fn lemma_pair_sets(m: IndexModel, ops: Seq<OpView>, p: u8)
    requires
        ops.len() >= 2,
    ensures
        pair_sets(m, ops, p).len() == ops.len() - 1,
        forall|i: int|
            0 <= i < ops.len() - 1 ==> pair_sets(m, ops, p)[i] == spec_pair_docids(
                m,
                leaf_of(#[trigger] ops[i]),
                leaf_of(ops[i + 1]),
                p,
            ),
    decreases ops,
{
    if ops.len() == 2 {
        assert(pair_sets(m, ops.drop_first(), p).len() == 0);
    } else {
        lemma_pair_sets(m, ops.drop_first(), p);
        assert forall|i: int|
            0 <= i < ops.len() - 1 implies pair_sets(m, ops, p)[i] == spec_pair_docids(
            m,
            leaf_of(#[trigger] ops[i]),
            leaf_of(ops[i + 1]),
            p,
        ) by {
            if i > 0 {
                assert(ops.drop_first()[i - 1] == ops[i]);
                assert(ops.drop_first()[i] == ops[i + 1]);
            }
        }
    }
}

/// The height of a tree view, as a termination measure.
pub open spec fn op_height(t: OpView) -> nat
    decreases t,
{
    match t {
        OpView::And(ops) => 1 + heights_sum(ops),
        OpView::Consecutive(ops) => 1 + heights_sum(ops),
        OpView::Or(_, ops) => 1 + heights_sum(ops),
        OpView::Query(_) => 0,
    }
}

/// Sum of the heights of a list of tree views.
pub open spec fn heights_sum(ops: Seq<OpView>) -> nat
    decreases ops,
{
    if ops.len() == 0 {
        0
    } else {
        op_height(ops[0]) + heights_sum(ops.drop_first())
    }
}

/// Each child's height is bounded by the list sum.
pub proof fn lemma_height_le(ops: Seq<OpView>, i: int)
    requires
        0 <= i < ops.len(),
    ensures
        op_height(ops[i]) <= heights_sum(ops),
    decreases ops,
{
    if i > 0 {
        lemma_height_le(ops.drop_first(), i - 1);
        assert(ops.drop_first()[i - 1] == ops[i]);
    }
}

/// Union of the posting lists of a derivation list, computed in place.
fn union_word_docids_exec<C: Context>(ctx: &C, words: &Vec<(String, u8)>) -> (r: RoaringBitmap)
    ensures
        bitmap_set(r) == union_word_docids(ctx.model(), derivs_view(words@)),
{
    let ghost ws = derivs_view(words@);
    let mut acc = bitmap_new();
    let mut i: usize = 0;
    while i < words.len()
        invariant
            i <= words@.len(),
            ws == derivs_view(words@),
            bitmap_set(acc) == union_word_docids(ctx.model(), ws.take(i as int)),
        decreases words@.len() - i,
    {
        let current = match ctx.word_docids(words[i].0.as_str()) {
            Some(b) => b,
            None => bitmap_new(),
        };
        proof {
            assert(ws[i as int].0 == words@[i as int].0@);
            assert(bitmap_set(current) == word_lookup(ctx.model(), ws[i as int].0));
            assert(ws.take(i + 1).drop_last() =~= ws.take(i as int));
            assert(ws.take(i + 1).last() == ws[i as int]);
        }
        bitmap_union_with(&mut acc, &current);
        i += 1;
    }
    proof {
        assert(ws.take(i as int) =~= ws);
    }
    acc
}

/// The candidate documents of one leaf.
///
/// An exact term is a direct posting-list lookup; a prefixed exact term
/// uses the precomputed prefix posting list when the prefix is cached and
/// otherwise unions the posting lists of its exact prefix derivations; a
/// tolerant term unions the posting lists of its fuzzy derivations.
pub fn query_docids<C: Context>(
    ctx: &C,
    query: &Query,
    wdcache: &mut WordDerivationsCache,
) -> (r: RoaringBitmap)
    requires
        old(wdcache).dict() == ctx.model().words,
    ensures
        final(wdcache).dict() == old(wdcache).dict(),
        bitmap_set(r) == spec_query_docids(ctx.model(), query@),
{
    match &query.kind {
        QueryKind::Exact { word } => {
            if query.prefix && ctx.in_prefix_cache(word.as_str()) {
                match ctx.word_prefix_docids(word.as_str()) {
                    Some(b) => b,
                    None => bitmap_new(),
                }
            } else if query.prefix {
                let words = word_derivations(ctx, word.as_str(), true, 0, wdcache);
                union_word_docids_exec(ctx, &words)
            } else {
                match ctx.word_docids(word.as_str()) {
                    Some(b) => b,
                    None => bitmap_new(),
                }
            }
        },
        QueryKind::Tolerant { typo, word } => {
            let words = word_derivations(ctx, word.as_str(), query.prefix, *typo, wdcache);
            union_word_docids_exec(ctx, &words)
        },
    }
}

/// Union of pair posting lists over the cartesian product of two
/// derivation lists: for each `(lw, rw)` pair, the `(lw, rw, proximity)`
/// posting list (empty if missing).
pub fn all_word_pair_proximity_docids<C: Context>(
    ctx: &C,
    left_words: &Vec<(String, u8)>,
    right_words: &Vec<(String, u8)>,
    proximity: u8,
) -> (r: RoaringBitmap)
    ensures
        bitmap_set(r) == cartesian_pairs(
            ctx.model(),
            derivs_view(left_words@),
            derivs_view(right_words@),
            proximity,
        ),
{
    let ghost ls = derivs_view(left_words@);
    let ghost rs = derivs_view(right_words@);
    let mut docids = bitmap_new();
    let mut i: usize = 0;
    while i < left_words.len()
        invariant
            i <= left_words@.len(),
            ls == derivs_view(left_words@),
            rs == derivs_view(right_words@),
            bitmap_set(docids) == cartesian_pairs(ctx.model(), ls.take(i as int), rs, proximity),
        decreases left_words@.len() - i,
    {
        let mut row = bitmap_new();
        let mut j: usize = 0;
        while j < right_words.len()
            invariant
                j <= right_words@.len(),
                i < left_words@.len(),
                ls == derivs_view(left_words@),
                rs == derivs_view(right_words@),
                bitmap_set(row) == pair_row(
                    ctx.model(),
                    ls[i as int].0,
                    rs.take(j as int),
                    proximity,
                ),
            decreases right_words@.len() - j,
        {
            let current = match ctx.word_pair_proximity_docids(
                left_words[i].0.as_str(),
                right_words[j].0.as_str(),
                proximity,
            ) {
                Some(b) => b,
                None => bitmap_new(),
            };
            proof {
                assert(ls[i as int].0 == left_words@[i as int].0@);
                assert(rs[j as int].0 == right_words@[j as int].0@);
                assert(rs.take(j + 1).drop_last() =~= rs.take(j as int));
                assert(rs.take(j + 1).last() == rs[j as int]);
            }
            bitmap_union_with(&mut row, &current);
            j += 1;
        }
        proof {
            assert(rs.take(j as int) =~= rs);
            assert(ls.take(i + 1).drop_last() =~= ls.take(i as int));
            assert(ls.take(i + 1).last() == ls[i as int]);
        }
        bitmap_union_with(&mut docids, &row);
        i += 1;
    }
    proof {
        assert(ls.take(i as int) =~= ls);
    }
    docids
}

/// Union of prefix-pair posting lists of each left derivation against one
/// cached right prefix.
fn prefix_pair_col_exec<C: Context>(
    ctx: &C,
    left_words: &Vec<(String, u8)>,
    right: &str,
    proximity: u8,
) -> (r: RoaringBitmap)
    ensures
        bitmap_set(r) == prefix_pair_col(
            ctx.model(),
            derivs_view(left_words@),
            right@,
            proximity,
        ),
{
    let ghost ls = derivs_view(left_words@);
    let mut docids = bitmap_new();
    let mut i: usize = 0;
    while i < left_words.len()
        invariant
            i <= left_words@.len(),
            ls == derivs_view(left_words@),
            bitmap_set(docids) == prefix_pair_col(
                ctx.model(),
                ls.take(i as int),
                right@,
                proximity,
            ),
        decreases left_words@.len() - i,
    {
        let current = match ctx.word_prefix_pair_proximity_docids(
            left_words[i].0.as_str(),
            right,
            proximity,
        ) {
            Some(b) => b,
            None => bitmap_new(),
        };
        proof {
            assert(ls[i as int].0 == left_words@[i as int].0@);
            assert(ls.take(i + 1).drop_last() =~= ls.take(i as int));
            assert(ls.take(i + 1).last() == ls[i as int]);
        }
        bitmap_union_with(&mut docids, &current);
        i += 1;
    }
    proof {
        assert(ls.take(i as int) =~= ls);
    }
    docids
}

/// A one-entry derivation list holding the word itself at zero typos.
fn single_derivation(word: &String) -> (r: Vec<(String, u8)>)
    ensures
        derivs_view(r@) == seq![(word@, 0u8)],
{
    let mut out: Vec<(String, u8)> = Vec::new();
    out.push((word.clone(), 0u8));
    proof {
        assert(derivs_view(out@) =~= seq![(word@, 0u8)]);
    }
    out
}

/// The candidate documents of a two-leaf proximity constraint, honouring
/// prefix attributes and typo tolerance.
///
/// At `proximity >= 8` the constraint collapses to the intersection of
/// the two leaf resolutions. Below that, an exact pair is a direct pair
/// posting lookup; a cached right prefix uses the prefix-pair table; and
/// tolerant or uncached-prefix leaves expand to derivations whose pair
/// posting lists are union-accumulated over the cartesian product.
pub fn query_pair_proximity_docids<C: Context>(
    ctx: &C,
    left: &Query,
    right: &Query,
    proximity: u8,
    wdcache: &mut WordDerivationsCache,
) -> (r: RoaringBitmap)
    requires
        old(wdcache).dict() == ctx.model().words,
    ensures
        final(wdcache).dict() == old(wdcache).dict(),
        bitmap_set(r) == spec_pair_docids(ctx.model(), left@, right@, proximity),
{
    if proximity >= 8 {
        let mut candidates = query_docids(ctx, left, wdcache);
        let right_candidates = query_docids(ctx, right, wdcache);
        bitmap_intersect_with(&mut candidates, &right_candidates);
        return candidates;
    }
    let prefix = right.prefix;
    match (&left.kind, &right.kind) {
        (QueryKind::Exact { word: left_word }, QueryKind::Exact { word: right_word }) => {
            if prefix && ctx.in_prefix_cache(right_word.as_str()) {
                match ctx.word_prefix_pair_proximity_docids(
                    left_word.as_str(),
                    right_word.as_str(),
                    proximity,
                ) {
                    Some(b) => b,
                    None => bitmap_new(),
                }
            } else if prefix {
                let r_words = word_derivations(ctx, right_word.as_str(), true, 0, wdcache);
                let l_words = single_derivation(left_word);
                all_word_pair_proximity_docids(ctx, &l_words, &r_words, proximity)
            } else {
                match ctx.word_pair_proximity_docids(
                    left_word.as_str(),
                    right_word.as_str(),
                    proximity,
                ) {
                    Some(b) => b,
                    None => bitmap_new(),
                }
            }
        },
        (QueryKind::Tolerant { typo, word: left_word }, QueryKind::Exact { word: right_word }) => {
            let l_words = word_derivations(ctx, left_word.as_str(), false, *typo, wdcache);
            if prefix && ctx.in_prefix_cache(right_word.as_str()) {
                prefix_pair_col_exec(ctx, &l_words, right_word.as_str(), proximity)
            } else if prefix {
                let r_words = word_derivations(ctx, right_word.as_str(), true, 0, wdcache);
                all_word_pair_proximity_docids(ctx, &l_words, &r_words, proximity)
            } else {
                let r_words = single_derivation(right_word);
                all_word_pair_proximity_docids(ctx, &l_words, &r_words, proximity)
            }
        },
        (QueryKind::Exact { word: left_word }, QueryKind::Tolerant { typo, word: right_word }) => {
            let r_words = word_derivations(ctx, right_word.as_str(), prefix, *typo, wdcache);
            let l_words = single_derivation(left_word);
            all_word_pair_proximity_docids(ctx, &l_words, &r_words, proximity)
        },
        (
            QueryKind::Tolerant { typo: l_typo, word: left_word },
            QueryKind::Tolerant { typo: r_typo, word: right_word },
        ) => {
            let l_words = word_derivations(ctx, left_word.as_str(), false, *l_typo, wdcache);
            let r_words = word_derivations(ctx, right_word.as_str(), prefix, *r_typo, wdcache);
            all_word_pair_proximity_docids(ctx, &l_words, &r_words, proximity)
        },
    }
}

/// Union of the pair posting lists of two leaves at every distance up
/// to `p`: the "at most `p`" reading of a pair constraint.
pub open spec fn pair_up_to(m: IndexModel, a: QueryView, b: QueryView, p: u8) -> Set<u32>
    decreases p,
{
    if p == 0 {
        spec_pair_docids(m, a, b, 0)
    } else {
        pair_up_to(m, a, b, (p - 1) as u8).union(spec_pair_docids(m, a, b, p))
    }
}

/// What the adjacent leaf pairs of a `Consecutive` node resolve to when
/// each pair constraint demands at most `p` distance.
pub open spec fn up_to_sets(m: IndexModel, ops: Seq<OpView>, p: u8) -> Seq<Set<u32>>
    decreases ops,
{
    if ops.len() < 2 {
        Seq::empty()
    } else {
        seq![pair_up_to(m, leaf_of(ops[0]), leaf_of(ops[1]), p)] + up_to_sets(
            m,
            ops.drop_first(),
            p,
        )
    }
}

/// `up_to_sets` is the pointwise at-most-`p` pair resolution.
pub proof fn lemma_up_to_sets(m: IndexModel, ops: Seq<OpView>, p: u8)
    requires
        ops.len() >= 2,
    ensures
        up_to_sets(m, ops, p).len() == ops.len() - 1,
        forall|i: int|
            0 <= i < ops.len() - 1 ==> up_to_sets(m, ops, p)[i] == pair_up_to(
                m,
                leaf_of(#[trigger] ops[i]),
                leaf_of(ops[i + 1]),
                p,
            ),
    decreases ops,
{
    if ops.len() == 2 {
        assert(up_to_sets(m, ops.drop_first(), p).len() == 0);
    } else {
        lemma_up_to_sets(m, ops.drop_first(), p);
        assert forall|i: int|
            0 <= i < ops.len() - 1 implies up_to_sets(m, ops, p)[i] == pair_up_to(
            m,
            leaf_of(#[trigger] ops[i]),
            leaf_of(ops[i + 1]),
            p,
        ) by {
            if i > 0 {
                assert(ops.drop_first()[i - 1] == ops[i]);
                assert(ops.drop_first()[i] == ops[i + 1]);
            }
        }
    }
}

/// Every child of the list is a leaf query.
pub open spec fn all_leaves(ops: Seq<OpView>) -> bool {
    forall|i: int| 0 <= i < ops.len() ==> (#[trigger] ops[i]) is Query
}

/// The candidate documents of a two-leaf constraint at every distance up
/// to `p`: the union of the per-distance pair resolutions.
pub fn query_pair_up_to<C: Context>(
    ctx: &C,
    left: &Query,
    right: &Query,
    p: u8,
    wdcache: &mut WordDerivationsCache,
) -> (r: RoaringBitmap)
    requires
        old(wdcache).dict() == ctx.model().words,
    ensures
        final(wdcache).dict() == old(wdcache).dict(),
        bitmap_set(r) == pair_up_to(ctx.model(), left@, right@, p),
{
    let mut acc = query_pair_proximity_docids(ctx, left, right, 0, wdcache);
    let mut d: u8 = 0;
    while d < p
        invariant
            d <= p,
            old(wdcache).dict() == ctx.model().words,
            wdcache.dict() == old(wdcache).dict(),
            bitmap_set(acc) == pair_up_to(ctx.model(), left@, right@, d),
        decreases p - d,
    {
        d = d + 1;
        let current = query_pair_proximity_docids(ctx, left, right, d, wdcache);
        bitmap_union_with(&mut acc, &current);
    }
    acc
}

/// Intersection of the adjacent-leaf pair resolutions of a `Consecutive`
/// node's children: each window at exactly `p` or, with `up_to`, at every
/// distance up to `p`. Errs exactly when some child is not a leaf; fewer
/// than two children intersect to nothing.
pub fn resolve_consecutive<C: Context>(
    ctx: &C,
    ops: &Vec<Operation>,
    p: u8,
    up_to: bool,
    wdcache: &mut WordDerivationsCache,
) -> (r: Result<RoaringBitmap, Error>)
    requires
        old(wdcache).dict() == ctx.model().words,
    ensures
        final(wdcache).dict() == old(wdcache).dict(),
        match r {
            Ok(b) => all_leaves(op_view_list(ops@)) && bitmap_set(b) == inter_seq(
                if up_to {
                    up_to_sets(ctx.model(), op_view_list(ops@), p)
                } else {
                    pair_sets(ctx.model(), op_view_list(ops@), p)
                },
            ),
            Err(e) => !all_leaves(op_view_list(ops@)) && e == Error::InvalidConsecutive,
        },
{
    let ghost m = ctx.model();
    let ghost vs = op_view_list(ops@);
    proof {
        lemma_op_view_list(ops@);
    }
    let mut i: usize = 0;
    while i < ops.len()
        invariant
            i <= ops@.len(),
            vs == op_view_list(ops@),
            vs.len() == ops@.len(),
            forall|j: int| 0 <= j < ops@.len() ==> vs[j] == op_view(#[trigger] ops@[j]),
            forall|j: int| 0 <= j < i ==> (#[trigger] vs[j]) is Query,
        decreases ops@.len() - i,
    {
        match &ops[i] {
            Operation::Query(_) => {},
            _ => {
                proof {
                    assert(vs[i as int] == op_view(ops@[i as int]));
                    assert(!(vs[i as int] is Query));
                }
                return Err(Error::InvalidConsecutive);
            },
        }
        i += 1;
    }
    proof {
        assert(all_leaves(vs));
    }
    if ops.len() < 2 {
        let empty = bitmap_new();
        proof {
            assert(inter_seq(up_to_sets(m, vs, p)) =~= Set::<u32>::empty());
            assert(inter_seq(pair_sets(m, vs, p)) =~= Set::<u32>::empty());
        }
        return Ok(empty);
    }
    proof {
        lemma_pair_sets(m, vs, p);
        lemma_up_to_sets(m, vs, p);
    }
    let ghost ws = if up_to {
        up_to_sets(m, vs, p)
    } else {
        pair_sets(m, vs, p)
    };
    let mut candidates = bitmap_new();
    let mut first_loop = true;
    let mut k: usize = 0;
    let n = ops.len() - 1;
    while k < n
        invariant
            k <= n,
            n == ops@.len() - 1,
            ops@.len() >= 2,
            old(wdcache).dict() == ctx.model().words,
            wdcache.dict() == old(wdcache).dict(),
            m == ctx.model(),
            vs == op_view_list(ops@),
            vs.len() == ops@.len(),
            forall|j: int| 0 <= j < ops@.len() ==> vs[j] == op_view(#[trigger] ops@[j]),
            forall|j: int| 0 <= j < ops@.len() ==> (#[trigger] vs[j]) is Query,
            ws == (if up_to {
                up_to_sets(m, vs, p)
            } else {
                pair_sets(m, vs, p)
            }),
            ws.len() == n,
            forall|j: int|
                0 <= j < n ==> ws[j] == (if up_to {
                    pair_up_to(m, leaf_of(#[trigger] vs[j]), leaf_of(vs[j + 1]), p)
                } else {
                    spec_pair_docids(m, leaf_of(vs[j]), leaf_of(vs[j + 1]), p)
                }),
            first_loop <==> k == 0,
            !first_loop ==> bitmap_set(candidates) == inter_seq(ws.take(k as int)),
        decreases n - k,
    {
        let left = match &ops[k] {
            Operation::Query(q) => q,
            _ => {
                proof {
                    assert(vs[k as int] == op_view(ops@[k as int]));
                    assert(false);
                }
                return Err(Error::InvalidConsecutive);
            },
        };
        let right = match &ops[k + 1] {
            Operation::Query(q) => q,
            _ => {
                proof {
                    assert(vs[k + 1] == op_view(ops@[k + 1]));
                    assert(false);
                }
                return Err(Error::InvalidConsecutive);
            },
        };
        let pair_docids = if up_to {
            query_pair_up_to(ctx, left, right, p, wdcache)
        } else {
            query_pair_proximity_docids(ctx, left, right, p, wdcache)
        };
        proof {
            assert(vs[k as int] == op_view(ops@[k as int]));
            assert(leaf_of(vs[k as int]) == left@);
            assert(leaf_of(vs[k + 1]) == right@);
            assert(bitmap_set(pair_docids) == ws[k as int]);
        }
        if bitmap_is_empty(&pair_docids) {
            let empty = bitmap_new();
            proof {
                assert forall|x: u32| !inter_seq(ws).contains(x) by {
                    if inter_seq(ws).contains(x) {
                        assert(ws[k as int].contains(x));
                    }
                }
                assert(inter_seq(ws) =~= Set::<u32>::empty());
            }
            return Ok(empty);
        }
        if first_loop {
            candidates = pair_docids;
            first_loop = false;
            proof {
                assert forall|x: u32|
                    bitmap_set(candidates).contains(x) <==> inter_seq(ws.take(1)).contains(
                        x,
                    ) by {
                    assert(ws.take(1)[0] == ws[0]);
                }
                assert(bitmap_set(candidates) =~= inter_seq(ws.take(1)));
            }
        } else {
            bitmap_intersect_with(&mut candidates, &pair_docids);
            proof {
                assert forall|x: u32|
                    bitmap_set(candidates).contains(x) <==> inter_seq(
                        ws.take(k + 1),
                    ).contains(x) by {
                    if bitmap_set(candidates).contains(x) {
                        assert forall|i2: int|
                            0 <= i2 < k + 1 implies #[trigger] ws.take(k + 1)[i2].contains(
                            x,
                        ) by {
                            if i2 < k {
                                assert(ws.take(k as int)[i2].contains(x));
                            }
                        }
                    } else {
                        if inter_seq(ws.take(k + 1)).contains(x) {
                            assert forall|i2: int|
                                0 <= i2 < k implies #[trigger] ws.take(k as int)[i2].contains(
                                x,
                            ) by {
                                assert(ws.take(k + 1)[i2].contains(x));
                            }
                            assert(ws.take(k + 1)[k as int].contains(x));
                        }
                    }
                }
                assert(bitmap_set(candidates) =~= inter_seq(ws.take(k + 1)));
            }
        }
        k += 1;
    }
    proof {
        assert(ws.take(k as int) =~= ws);
    }
    Ok(candidates)
}

/// A bitmap list over the sets it holds.
pub open spec fn sets_of(v: Seq<RoaringBitmap>) -> Seq<Set<u32>> {
    v.map_values(|b: RoaringBitmap| bitmap_set(b))
}

/// Reordering a bitmap list does not change what it intersects to.
proof fn lemma_inter_seq_permutation(a: Seq<RoaringBitmap>, b: Seq<RoaringBitmap>)
    requires
        a.to_multiset() == b.to_multiset(),
    ensures
        inter_seq(sets_of(a)) == inter_seq(sets_of(b)),
{
    a.to_multiset_ensures();
    b.to_multiset_ensures();
    assert(a.len() == b.len());
    assert forall|x: u32|
        inter_seq(sets_of(a)).contains(x) implies inter_seq(sets_of(b)).contains(x) by {
        assert forall|j: int| 0 <= j < sets_of(b).len() implies #[trigger] sets_of(b)[j].contains(
            x,
        ) by {
            assert(b.contains(b[j]));
            assert(b.to_multiset().count(b[j]) > 0);
            assert(a.to_multiset().count(b[j]) > 0);
            assert(a.contains(b[j]));
            let i = choose|i: int| 0 <= i < a.len() && a[i] == b[j];
            assert(sets_of(a)[i].contains(x));
        }
    }
    assert forall|x: u32|
        inter_seq(sets_of(b)).contains(x) implies inter_seq(sets_of(a)).contains(x) by {
        assert forall|i: int| 0 <= i < sets_of(a).len() implies #[trigger] sets_of(a)[i].contains(
            x,
        ) by {
            assert(a.contains(a[i]));
            assert(a.to_multiset().count(a[i]) > 0);
            assert(b.to_multiset().count(a[i]) > 0);
            assert(b.contains(a[i]));
            let j = choose|j: int| 0 <= j < b.len() && b[j] == a[i];
            assert(sets_of(b)[j].contains(x));
        }
    }
    assert(inter_seq(sets_of(a)) =~= inter_seq(sets_of(b)));
}

/// Reorders a bitmap list by ascending cardinality, so the intersection
/// fold starts from the smallest set and keeps intermediates small. Any
/// permutation intersects to the same set, which is all the contract
/// needs to say.
fn order_by_len(v: Vec<RoaringBitmap>) -> (r: Vec<RoaringBitmap>)
    ensures
        r@.to_multiset() == v@.to_multiset(),
{
    let mut rest = v;
    let mut out: Vec<RoaringBitmap> = Vec::new();
    proof {
        broadcast use {group_to_multiset_ensures, vstd::multiset::group_multiset_axioms};

        assert(out@.to_multiset().add(rest@.to_multiset()) =~= rest@.to_multiset());
    }
    while rest.len() > 0
        invariant
            out@.to_multiset().add(rest@.to_multiset()) == v@.to_multiset(),
        decreases rest@.len(),
    {
        let mut k: usize = 0;
        let mut best = bitmap_len(&rest[0]);
        let mut j: usize = 1;
        while j < rest.len()
            invariant
                rest@.len() > 0,
                k < rest@.len(),
                j <= rest@.len(),
            decreases rest@.len() - j,
        {
            let lj = bitmap_len(&rest[j]);
            if lj < best {
                best = lj;
                k = j;
            }
            j += 1;
        }
        let ghost old_rest = rest@;
        let ghost old_out = out@;
        let b = rest.remove(k);
        out.push(b);
        proof {
            broadcast use {group_to_multiset_ensures, vstd::multiset::group_multiset_axioms};

            assert(old_rest.contains(old_rest[k as int]));
            assert(rest@.to_multiset() =~= old_rest.to_multiset().remove(old_rest[k as int]));
            assert(out@.to_multiset() =~= old_out.to_multiset().insert(old_rest[k as int]));
            assert(out@.to_multiset().add(rest@.to_multiset()) =~= old_out.to_multiset().add(
                old_rest.to_multiset(),
            ));
        }
    }
    proof {
        broadcast use {group_to_multiset_ensures, vstd::multiset::group_multiset_axioms};

        assert(rest@.to_multiset().len() == 0);
        assert(rest@.to_multiset() =~= Multiset::empty());
        assert(out@.to_multiset() =~= v@.to_multiset());
    }
    out
}

/// The resolution of one tree node against the index.
fn resolve_operation<C: Context>(
    ctx: &C,
    query_tree: &Operation,
    wdcache: &mut WordDerivationsCache,
) -> (r: Result<RoaringBitmap, Error>)
    requires
        old(wdcache).dict() == ctx.model().words,
    ensures
        final(wdcache).dict() == old(wdcache).dict(),
        match r {
            Ok(b) => tree_wf(query_tree@) && bitmap_set(b) == spec_resolve(
                ctx.model(),
                query_tree@,
            ),
            Err(e) => !tree_wf(query_tree@) && e == Error::InvalidConsecutive,
        },
    decreases op_height(query_tree@),
{
    let ghost m = ctx.model();
    match query_tree {
        Operation::And(ops) => {
            let ghost vs = op_view_list(ops@);
            proof {
                lemma_op_view_list(ops@);
                lemma_resolve_list(m, vs);
            }
            let mut sets: Vec<RoaringBitmap> = Vec::new();
            let mut i: usize = 0;
            while i < ops.len()
                invariant
                    i <= ops@.len(),
                    old(wdcache).dict() == ctx.model().words,
                    wdcache.dict() == old(wdcache).dict(),
                    m == ctx.model(),
                    vs == op_view_list(ops@),
                    query_tree@ == OpView::And(vs),
                    vs.len() == ops@.len(),
                    forall|j: int| 0 <= j < ops@.len() ==> vs[j] == op_view(#[trigger] ops@[j]),
                    forall|j: int|
                        0 <= j < ops@.len() ==> resolve_list(m, vs)[j] == spec_resolve(
                            m,
                            #[trigger] vs[j],
                        ),
                    sets@.len() == i,
                    forall|j: int| 0 <= j < i ==> tree_wf(#[trigger] vs[j]),
                    forall|j: int|
                        0 <= j < i ==> bitmap_set(#[trigger] sets@[j]) == spec_resolve(m, vs[j]),
                decreases ops@.len() - i,
            {
                proof {
                    assert(vs[i as int] == op_view(ops@[i as int]));
                    assert(query_tree@ == OpView::And(vs));
                    lemma_height_le(vs, i as int);
                }
                match resolve_operation(ctx, &ops[i], wdcache) {
                    Ok(b) => {
                        sets.push(b);
                    },
                    Err(e) => {
                        proof {
                            if tree_wf(query_tree@) {
                                assert(tree_wf(vs[i as int]));
                            }
                        }
                        return Err(e);
                    },
                }
                i += 1;
            }
            let sorted = order_by_len(sets);
            proof {
                lemma_inter_seq_permutation(sorted@, sets@);
                assert(sets_of(sets@) =~= resolve_list(m, vs));
                assert(query_tree@ == OpView::And(vs));
                assert(tree_wf(query_tree@));
            }
            let ghost ss = sets_of(sorted@);
            let n = sorted.len();
            if n == 0 {
                let empty = bitmap_new();
                proof {
                    assert(inter_seq(ss) =~= Set::<u32>::empty());
                }
                return Ok(empty);
            }
            let mut candidates = bitmap_clone(&sorted[0]);
            proof {
                assert forall|x: u32|
                    bitmap_set(candidates).contains(x) <==> inter_seq(
                        ss.take(1),
                    ).contains(x) by {
                    assert(ss.take(1)[0] == ss[0]);
                }
                assert(bitmap_set(candidates) =~= inter_seq(ss.take(1)));
            }
            let mut j: usize = 1;
            while j < n
                invariant
                    1 <= j <= n,
                    n == sorted@.len(),
                    ss == sets_of(sorted@),
                    bitmap_set(candidates) == inter_seq(ss.take(j as int)),
                decreases n - j,
            {
                bitmap_intersect_with(&mut candidates, &sorted[j]);
                proof {
                    assert forall|x: u32|
                        bitmap_set(candidates).contains(x) <==> inter_seq(
                            ss.take(j + 1),
                        ).contains(x) by {
                        if bitmap_set(candidates).contains(x) {
                            assert forall|i2: int|
                                0 <= i2 < j + 1 implies #[trigger] ss.take(j + 1)[i2].contains(
                                x,
                            ) by {
                                if i2 < j {
                                    assert(ss.take(j as int)[i2].contains(x));
                                }
                            }
                        } else {
                            if inter_seq(ss.take(j + 1)).contains(x) {
                                assert forall|i2: int|
                                    0 <= i2 < j implies #[trigger] ss.take(j as int)[i2].contains(
                                    x,
                                ) by {
                                    assert(ss.take(j + 1)[i2].contains(x));
                                }
                                assert(ss.take(j + 1)[j as int].contains(x));
                            }
                        }
                    }
                    assert(bitmap_set(candidates) =~= inter_seq(ss.take(j + 1)));
                }
                j += 1;
            }
            proof {
                assert(ss.take(j as int) =~= ss);
            }
            Ok(candidates)
        },
        Operation::Consecutive(ops) => {
            let ghost vs = op_view_list(ops@);
            proof {
                lemma_op_view_list(ops@);
            }
            match resolve_consecutive(ctx, ops, 1, false, wdcache) {
                Ok(b) => {
                    proof {
                        assert(query_tree@ == OpView::Consecutive(vs));
                        assert(tree_wf(query_tree@));
                    }
                    Ok(b)
                },
                Err(e) => {
                    proof {
                        assert(query_tree@ == OpView::Consecutive(vs));
                        if tree_wf(query_tree@) {
                            assert forall|j: int|
                                0 <= j < vs.len() implies (#[trigger] vs[j]) is Query by {}
                            assert(all_leaves(vs));
                        }
                    }
                    Err(e)
                },
            }
        },
        Operation::Or(dedup, ops) => {
            let ghost vs = op_view_list(ops@);
            proof {
                lemma_op_view_list(ops@);
            }
            let mut candidates = bitmap_new();
            let mut i: usize = 0;
            while i < ops.len()
                invariant
                    i <= ops@.len(),
                    old(wdcache).dict() == ctx.model().words,
                    wdcache.dict() == old(wdcache).dict(),
                    m == ctx.model(),
                    vs == op_view_list(ops@),
                    query_tree@ == OpView::Or(*dedup, vs),
                    vs.len() == ops@.len(),
                    forall|j: int| 0 <= j < ops@.len() ==> vs[j] == op_view(#[trigger] ops@[j]),
                    forall|j: int| 0 <= j < i ==> tree_wf(#[trigger] vs[j]),
                    bitmap_set(candidates) == union_list(m, vs.take(i as int)),
                decreases ops@.len() - i,
            {
                proof {
                    assert(vs[i as int] == op_view(ops@[i as int]));
                    assert(query_tree@ == OpView::Or(*dedup, vs));
                    lemma_height_le(vs, i as int);
                }
                match resolve_operation(ctx, &ops[i], wdcache) {
                    Ok(docids) => {
                        proof {
                            assert(vs.take(i + 1).drop_last() =~= vs.take(i as int));
                            assert(vs.take(i + 1).last() == vs[i as int]);
                        }
                        bitmap_union_with(&mut candidates, &docids);
                    },
                    Err(e) => {
                        proof {
                            if tree_wf(query_tree@) {
                                assert(tree_wf(vs[i as int]));
                            }
                        }
                        return Err(e);
                    },
                }
                i += 1;
            }
            proof {
                assert(vs.take(i as int) =~= vs);
                assert(query_tree@ == OpView::Or(*dedup, vs));
                assert(tree_wf(query_tree@));
            }
            Ok(candidates)
        },
        Operation::Query(q) => Ok(query_docids(ctx, q, wdcache)),
    }
}

/// The candidate documents of a whole query tree.
///
/// Returns `Err` exactly when the tree is malformed: some `Consecutive`
/// node holds a child that is not a leaf. Missing posting lists are
/// empty sets, never errors.
pub fn resolve_query_tree<C: Context>(
    ctx: &C,
    query_tree: &Operation,
    wdcache: &mut WordDerivationsCache,
) -> (r: Result<RoaringBitmap, Error>)
    requires
        old(wdcache).dict() == ctx.model().words,
    ensures
        final(wdcache).dict() == old(wdcache).dict(),
        match r {
            Ok(b) => tree_wf(query_tree@) && bitmap_set(b) == spec_resolve(
                ctx.model(),
                query_tree@,
            ),
            Err(e) => !tree_wf(query_tree@) && e == Error::InvalidConsecutive,
        },
{
    resolve_operation(ctx, query_tree, wdcache)
}

/// Membership in the union of a children list: some child resolves to it.
proof fn lemma_union_list_contains(m: IndexModel, ops: Seq<OpView>, x: u32)
    ensures
        union_list(m, ops).contains(x) <==> exists|i: int|
            0 <= i < ops.len() && spec_resolve(m, #[trigger] ops[i]).contains(x),
    decreases ops,
{
    if ops.len() > 0 {
        lemma_union_list_contains(m, ops.drop_last(), x);
        assert(forall|i: int| 0 <= i < ops.len() - 1 ==> ops.drop_last()[i] == #[trigger] ops[i]);
        if union_list(m, ops).contains(x) {
            if union_list(m, ops.drop_last()).contains(x) {
                let i = choose|i: int|
                    0 <= i < ops.drop_last().len() && spec_resolve(
                        m,
                        #[trigger] ops.drop_last()[i],
                    ).contains(x);
                assert(spec_resolve(m, ops[i]).contains(x));
            } else {
                assert(spec_resolve(m, ops[ops.len() - 1]).contains(x));
            }
        }
        if exists|i: int| 0 <= i < ops.len() && spec_resolve(m, #[trigger] ops[i]).contains(x) {
            let i = choose|i: int|
                0 <= i < ops.len() && spec_resolve(m, #[trigger] ops[i]).contains(x);
            if i < ops.len() - 1 {
                assert(spec_resolve(m, ops.drop_last()[i]).contains(x));
                assert(union_list(m, ops.drop_last()).contains(x));
            } else {
                assert(spec_resolve(m, ops.last()).contains(x));
            }
        }
    }
}

/// Disjunction does not depend on the order of its children: `Or` nodes
/// whose children lists are permutations of one another resolve to the
/// same set, whatever their dedup flags.
pub proof fn lemma_or_permutation(
    m: IndexModel,
    f1: bool,
    f2: bool,
    ops1: Seq<OpView>,
    ops2: Seq<OpView>,
)
    requires
        ops1.to_multiset() == ops2.to_multiset(),
    ensures
        spec_resolve(m, OpView::Or(f1, ops1)) == spec_resolve(m, OpView::Or(f2, ops2)),
{
    ops1.to_multiset_ensures();
    ops2.to_multiset_ensures();
    assert forall|x: u32|
        union_list(m, ops1).contains(x) <==> union_list(m, ops2).contains(x) by {
        lemma_union_list_contains(m, ops1, x);
        lemma_union_list_contains(m, ops2, x);
        if union_list(m, ops1).contains(x) {
            let i = choose|i: int|
                0 <= i < ops1.len() && spec_resolve(m, #[trigger] ops1[i]).contains(x);
            assert(ops1.contains(ops1[i]));
            assert(ops1.to_multiset().count(ops1[i]) > 0);
            assert(ops2.to_multiset().count(ops1[i]) > 0);
            assert(ops2.contains(ops1[i]));
            let j = choose|j: int| 0 <= j < ops2.len() && ops2[j] == ops1[i];
            assert(spec_resolve(m, ops2[j]).contains(x));
        }
        if union_list(m, ops2).contains(x) {
            let j = choose|j: int|
                0 <= j < ops2.len() && spec_resolve(m, #[trigger] ops2[j]).contains(x);
            assert(ops2.contains(ops2[j]));
            assert(ops2.to_multiset().count(ops2[j]) > 0);
            assert(ops1.to_multiset().count(ops2[j]) > 0);
            assert(ops1.contains(ops2[j]));
            let i = choose|i: int| 0 <= i < ops1.len() && ops1[i] == ops2[j];
            assert(spec_resolve(m, ops1[i]).contains(x));
        }
    }
    assert(union_list(m, ops1) =~= union_list(m, ops2));
}

/// `resolve(Or[a, b]) == resolve(Or[b, a])`.
pub proof fn lemma_or_commutative(m: IndexModel, f1: bool, f2: bool, a: OpView, b: OpView)
    ensures
        spec_resolve(m, OpView::Or(f1, seq![a, b])) == spec_resolve(
            m,
            OpView::Or(f2, seq![b, a]),
        ),
{
    let e = Seq::<OpView>::empty();
    e.to_multiset_ensures();
    e.push(a).to_multiset_ensures();
    e.push(b).to_multiset_ensures();
    assert(seq![a, b] =~= e.push(a).push(b));
    assert(seq![b, a] =~= e.push(b).push(a));
    assert(seq![a, b].to_multiset() =~= seq![b, a].to_multiset());
    lemma_or_permutation(m, f1, f2, seq![a, b], seq![b, a]);
}

/// Disjunction over a concatenation is the union of the disjunctions.
proof fn lemma_union_list_concat(m: IndexModel, s1: Seq<OpView>, s2: Seq<OpView>)
    ensures
        union_list(m, s1 + s2) == union_list(m, s1).union(union_list(m, s2)),
    decreases s2,
{
    if s2.len() == 0 {
        assert(s1 + s2 =~= s1);
        assert(union_list(m, s1 + s2) =~= union_list(m, s1).union(union_list(m, s2)));
    } else {
        lemma_union_list_concat(m, s1, s2.drop_last());
        assert((s1 + s2).drop_last() =~= s1 + s2.drop_last());
        assert((s1 + s2).last() == s2.last());
        assert(union_list(m, s1 + s2) =~= union_list(m, s1).union(union_list(m, s2)));
    }
}

/// Disjunction is associative: nesting an `Or` inside an `Or` resolves
/// as the flat disjunction of all the leaves, whatever the dedup flags.
pub proof fn lemma_or_associative(
    m: IndexModel,
    f1: bool,
    f2: bool,
    f3: bool,
    a: OpView,
    b: OpView,
    c: OpView,
)
    ensures
        spec_resolve(m, OpView::Or(f1, seq![OpView::Or(f2, seq![a, b]), c])) == spec_resolve(
            m,
            OpView::Or(f3, seq![a, b, c]),
        ),
{
    let nested = OpView::Or(f2, seq![a, b]);
    let ea = spec_resolve(m, a);
    let eb = spec_resolve(m, b);
    let ec = spec_resolve(m, c);
    assert(seq![nested, c] =~= seq![nested] + seq![c]);
    lemma_union_list_concat(m, seq![nested], seq![c]);
    assert(seq![nested].drop_last() =~= Seq::<OpView>::empty());
    assert(seq![c].drop_last() =~= Seq::<OpView>::empty());
    assert(seq![a, b].drop_last() =~= seq![a]);
    assert(seq![a].drop_last() =~= Seq::<OpView>::empty());
    assert(seq![a, b, c].drop_last() =~= seq![a, b]);
    assert(union_list(m, Seq::<OpView>::empty()) =~= Set::<u32>::empty());
    assert(union_list(m, seq![a]) =~= ea);
    assert(union_list(m, seq![c]) =~= ec);
    assert(union_list(m, seq![a, b]) =~= ea.union(eb));
    assert(union_list(m, seq![a, b, c]) =~= ea.union(eb).union(ec));
    assert(union_list(m, seq![nested]) =~= spec_resolve(m, nested));
    assert(union_list(m, seq![nested, c]) =~= union_list(m, seq![a, b, c]));
}

/// Conjunction does not depend on the order of its children: `And` nodes
/// whose children lists are permutations of one another resolve to the
/// same set.
pub proof fn lemma_and_permutation(m: IndexModel, ops1: Seq<OpView>, ops2: Seq<OpView>)
    requires
        ops1.to_multiset() == ops2.to_multiset(),
    ensures
        spec_resolve(m, OpView::And(ops1)) == spec_resolve(m, OpView::And(ops2)),
{
    ops1.to_multiset_ensures();
    ops2.to_multiset_ensures();
    assert(ops1.len() == ops2.len());
    lemma_resolve_list(m, ops1);
    lemma_resolve_list(m, ops2);
    let r1 = resolve_list(m, ops1);
    let r2 = resolve_list(m, ops2);
    assert forall|x: u32| inter_seq(r1).contains(x) implies inter_seq(r2).contains(x) by {
        assert forall|j: int| 0 <= j < r2.len() implies #[trigger] r2[j].contains(x) by {
            assert(ops2.contains(ops2[j]));
            assert(ops2.to_multiset().count(ops2[j]) > 0);
            assert(ops1.to_multiset().count(ops2[j]) > 0);
            assert(ops1.contains(ops2[j]));
            let i = choose|i: int| 0 <= i < ops1.len() && ops1[i] == ops2[j];
            assert(r1[i].contains(x));
        }
    }
    assert forall|x: u32| inter_seq(r2).contains(x) implies inter_seq(r1).contains(x) by {
        assert forall|i: int| 0 <= i < r1.len() implies #[trigger] r1[i].contains(x) by {
            assert(ops1.contains(ops1[i]));
            assert(ops1.to_multiset().count(ops1[i]) > 0);
            assert(ops2.to_multiset().count(ops1[i]) > 0);
            assert(ops2.contains(ops1[i]));
            let j = choose|j: int| 0 <= j < ops2.len() && ops2[j] == ops1[i];
            assert(r2[j].contains(x));
        }
    }
    assert(inter_seq(r1) =~= inter_seq(r2));
}

/// `resolve(And[a, b]) == resolve(And[b, a])`.
pub proof fn lemma_and_commutative(m: IndexModel, a: OpView, b: OpView)
    ensures
        spec_resolve(m, OpView::And(seq![a, b])) == spec_resolve(m, OpView::And(seq![b, a])),
{
    let e = Seq::<OpView>::empty();
    e.to_multiset_ensures();
    e.push(a).to_multiset_ensures();
    e.push(b).to_multiset_ensures();
    assert(seq![a, b] =~= e.push(a).push(b));
    assert(seq![b, a] =~= e.push(b).push(a));
    assert(seq![a, b].to_multiset() =~= seq![b, a].to_multiset());
    lemma_and_permutation(m, seq![a, b], seq![b, a]);
}

/// A two-leaf `Consecutive` resolves exactly as the pair constraint of
/// its leaves at proximity 1.
pub proof fn lemma_consecutive_is_pair(m: IndexModel, a: QueryView, b: QueryView)
    ensures
        spec_resolve(m, OpView::Consecutive(seq![OpView::Query(a), OpView::Query(b)]))
            == spec_pair_docids(m, a, b, 1),
{
    let s = seq![OpView::Query(a), OpView::Query(b)];
    assert(s.drop_first() =~= seq![OpView::Query(b)]);
    assert(pair_sets(m, s.drop_first(), 1) =~= Seq::<Set<u32>>::empty());
    assert(pair_sets(m, s, 1) =~= seq![spec_pair_docids(m, a, b, 1)]);
    assert forall|x: u32|
        inter_seq(pair_sets(m, s, 1)).contains(x) <==> spec_pair_docids(m, a, b, 1).contains(
            x,
        ) by {
        assert(pair_sets(m, s, 1)[0] == spec_pair_docids(m, a, b, 1));
    }
    assert(inter_seq(pair_sets(m, s, 1)) =~= spec_pair_docids(m, a, b, 1));
}

/// Beyond the stored pair-table depth the constraint degrades to
/// co-occurrence: at `p >= 8` a pair resolves to the intersection of its
/// two leaf resolutions.
pub proof fn lemma_proximity_collapse(m: IndexModel, left: QueryView, right: QueryView, p: u8)
    requires
        p >= 8,
    ensures
        spec_pair_docids(m, left, right, p) == spec_query_docids(m, left).intersect(
            spec_query_docids(m, right),
        ),
{
}

} // verus!
