//! The ranking criteria and their bucketed pipeline.
//!
//! Each criterion partitions its input into buckets: at every level it
//! draws the level's resolution from a remaining pool, which then loses
//! those documents. The per-level draw is a verified function with an
//! exact contract; the spec-level lemmas below state the bucket laws the
//! design guarantees: buckets are pairwise disjoint, a bucket never meets
//! an earlier level's constraint set, and the final level's share of the
//! pool is fully emitted.

use vstd::prelude::*;
use roaring::RoaringBitmap;
use crate::Error;
use crate::bitmap::{
    bitmap_set, bitmap_new, bitmap_clone, bitmap_is_empty, bitmap_union_with,
    bitmap_intersect_with, bitmap_difference_with,
};
use crate::index::{Context, IndexModel};
use crate::query_tree::{Operation, Query, QueryKind, QueryView, QueryKindView, OpView};
use crate::query_tree::{tree_wf, op_view, op_view_list, lemma_op_view_list};
use crate::derivations::WordDerivationsCache;
use crate::resolver::{
    spec_resolve, spec_query_docids, spec_pair_docids, resolve_list, pair_sets, up_to_sets,
    union_list, inter_seq, leaf_of, all_leaves, resolve_query_tree, resolve_consecutive,
    lemma_resolve_list, lemma_pair_sets,
};

verus! {

/// The bucket envelope a criterion emits.
pub struct CriterionResult {
    /// The narrowed tree downstream criteria must use; `None` means no
    /// textual constraint remains and downstream must rely on
    /// `candidates`.
    pub query_tree: Option<Operation>,
    /// The subset downstream criteria may emit from; `None` lets the
    /// child compute its own from `query_tree`.
    pub candidates: Option<RoaringBitmap>,
    /// The label from the current bucket of the initial criterion.
    pub bucket_candidates: RoaringBitmap,
}

/// Either the documents a criterion may still emit, or the documents it
/// must never emit again.
#[derive(Debug)]
pub enum Candidates {
    Allowed(RoaringBitmap),
    Forbidden(RoaringBitmap),
}

/// The documents a candidates policy still permits.
pub open spec fn avail_of(c: Candidates) -> Set<u32> {
    match c {
        Candidates::Allowed(pool) => bitmap_set(pool),
        Candidates::Forbidden(forb) => Set::new(|x: u32| !bitmap_set(forb).contains(x)),
    }
}

impl Candidates {
    /// The bitmap inside, whichever policy holds it.
    pub open spec fn inner(self) -> RoaringBitmap {
        match self {
            Candidates::Allowed(b) => b,
            Candidates::Forbidden(b) => b,
        }
    }

    /// Takes the bitmap out.
    pub fn into_inner(self) -> (r: RoaringBitmap)
        ensures
            r == self.inner(),
    {
        match self {
            Candidates::Allowed(inner) => inner,
            Candidates::Forbidden(inner) => inner,
        }
    }

    /// Draws `resolved ∩ available` and removes it from the pool.
    pub fn draw(&mut self, resolved: RoaringBitmap) -> (r: RoaringBitmap)
        ensures
            bitmap_set(r) == bitmap_set(resolved).intersect(avail_of(*old(self))),
            avail_of(*final(self)) == avail_of(*old(self)).difference(bitmap_set(r)),
    {
        match self {
            Candidates::Allowed(pool) => {
                let mut docids = resolved;
                bitmap_intersect_with(&mut docids, pool);
                bitmap_difference_with(pool, &docids);
                proof {
                    assert(bitmap_set(docids) =~= bitmap_set(resolved).intersect(
                        avail_of(*old(self)),
                    ));
                    assert(avail_of(*self) =~= avail_of(*old(self)).difference(
                        bitmap_set(docids),
                    ));
                }
                docids
            },
            Candidates::Forbidden(forb) => {
                let mut docids = resolved;
                bitmap_difference_with(&mut docids, forb);
                bitmap_union_with(forb, &docids);
                proof {
                    assert(bitmap_set(docids) =~= bitmap_set(resolved).intersect(
                        avail_of(*old(self)),
                    ));
                    assert(avail_of(*self) =~= avail_of(*old(self)).difference(
                        bitmap_set(docids),
                    ));
                }
                docids
            },
        }
    }
}

impl Default for Candidates {
    /// The default policy is `Forbidden` of the empty set: it forbids
    /// nothing, so every document is admitted.
    fn default() -> (r: Self)
        ensures
            r is Forbidden,
            bitmap_set(r.inner()) == Set::<u32>::empty(),
            avail_of(r) == Set::new(|x: u32| true),
    {
        let r = Candidates::Forbidden(bitmap_new());
        proof {
            assert(avail_of(r) =~= Set::new(|x: u32| true));
        }
        r
    }
}

/// A leaf narrowed to accept at most `k` typos.
pub open spec fn narrow_leaf(q: QueryView, k: u8) -> QueryView {
    match q.kind {
        QueryKindView::Exact { .. } => q,
        QueryKindView::Tolerant { typo, word } => QueryView {
            prefix: q.prefix,
            kind: QueryKindView::Tolerant {
                typo: if typo > k {
                    k
                } else {
                    typo
                },
                word,
            },
        },
    }
}

/// A tree narrowed to accept at most `k` typos at every leaf.
pub open spec fn narrow_view(t: OpView, k: u8) -> OpView
    decreases t,
{
    match t {
        OpView::And(ops) => OpView::And(narrow_view_list(ops, k)),
        OpView::Consecutive(ops) => OpView::Consecutive(narrow_view_list(ops, k)),
        OpView::Or(f, ops) => OpView::Or(f, narrow_view_list(ops, k)),
        OpView::Query(q) => OpView::Query(narrow_leaf(q, k)),
    }
}

/// A list of trees, each narrowed.
pub open spec fn narrow_view_list(ops: Seq<OpView>, k: u8) -> Seq<OpView>
    decreases ops,
{
    if ops.len() == 0 {
        Seq::empty()
    } else {
        seq![narrow_view(ops[0], k)] + narrow_view_list(ops.drop_first(), k)
    }
}

/// The narrowed list is the pointwise narrowing.
pub proof fn lemma_narrow_view_list(ops: Seq<OpView>, k: u8)
    ensures
        narrow_view_list(ops, k).len() == ops.len(),
        forall|i: int|
            0 <= i < ops.len() ==> narrow_view_list(ops, k)[i] == narrow_view(
                #[trigger] ops[i],
                k,
            ),
    decreases ops,
{
    if ops.len() > 0 {
        lemma_narrow_view_list(ops.drop_first(), k);
        assert forall|i: int|
            0 <= i < ops.len() implies narrow_view_list(ops, k)[i] == narrow_view(
            #[trigger] ops[i],
            k,
        ) by {
            if i > 0 {
                assert(ops.drop_first()[i - 1] == ops[i]);
            }
        }
    }
}

/// Narrowing keeps the shape of the tree, so a well-formed tree stays
/// well formed.
pub proof fn lemma_narrow_wf(t: OpView, k: u8)
    ensures
        tree_wf(t) ==> tree_wf(narrow_view(t, k)),
    decreases t,
{
    match t {
        OpView::And(ops) => {
            let nops = narrow_view_list(ops, k);
            lemma_narrow_view_list(ops, k);
            if tree_wf(t) {
                assert forall|i: int| 0 <= i < nops.len() implies tree_wf(
                    #[trigger] nops[i],
                ) by {
                    assert(tree_wf(ops[i]));
                    lemma_narrow_wf(ops[i], k);
                }
                assert(tree_wf(OpView::And(nops)));
            }
        },
        OpView::Consecutive(ops) => {
            let nops = narrow_view_list(ops, k);
            lemma_narrow_view_list(ops, k);
            if tree_wf(t) {
                assert forall|i: int| 0 <= i < nops.len() implies (#[trigger] nops[i]) is Query by {
                    assert((ops[i]) is Query);
                    assert(nops[i] == narrow_view(ops[i], k));
                }
                assert(tree_wf(OpView::Consecutive(nops)));
            }
        },
        OpView::Or(_, ops) => {
            let nops = narrow_view_list(ops, k);
            lemma_narrow_view_list(ops, k);
            if tree_wf(t) {
                assert forall|i: int| 0 <= i < nops.len() implies tree_wf(
                    #[trigger] nops[i],
                ) by {
                    assert(tree_wf(ops[i]));
                    lemma_narrow_wf(ops[i], k);
                }
                assert(tree_wf(OpView::Or(t->Or_0, nops)));
            }
        },
        OpView::Query(_) => {},
    }
}

/// Narrowing to two typos does not change what a leaf resolves to: the
/// permitted typo count is clamped to 2 anyway.
proof fn lemma_narrow_leaf_full(m: IndexModel, q: QueryView)
    ensures
        spec_query_docids(m, narrow_leaf(q, 2)) == spec_query_docids(m, q),
{
}

/// Nor what a pair of leaves resolves to.
proof fn lemma_narrow_pair_full(m: IndexModel, a: QueryView, b: QueryView, p: u8)
    ensures
        spec_pair_docids(m, narrow_leaf(a, 2), narrow_leaf(b, 2), p) == spec_pair_docids(
            m,
            a,
            b,
            p,
        ),
{
    lemma_narrow_leaf_full(m, a);
    lemma_narrow_leaf_full(m, b);
}

/// Narrowing a tree to two typos does not change what it resolves to.
pub proof fn lemma_narrow_resolve_full(m: IndexModel, t: OpView)
    ensures
        spec_resolve(m, narrow_view(t, 2)) == spec_resolve(m, t),
    decreases t,
{
    match t {
        OpView::And(ops) => {
            let nops = narrow_view_list(ops, 2);
            lemma_narrow_view_list(ops, 2);
            lemma_resolve_list(m, ops);
            lemma_resolve_list(m, nops);
            assert forall|i: int| 0 <= i < ops.len() implies resolve_list(m, nops)[i]
                == resolve_list(m, ops)[i] by {
                lemma_narrow_resolve_full(m, ops[i]);
            }
            assert(resolve_list(m, nops) =~= resolve_list(m, ops));
        },
        OpView::Consecutive(ops) => {
            let nops = narrow_view_list(ops, 2);
            lemma_narrow_view_list(ops, 2);
            if ops.len() < 2 {
                assert(pair_sets(m, nops, 1) =~= pair_sets(m, ops, 1));
            } else {
                lemma_pair_sets(m, ops, 1);
                lemma_pair_sets(m, nops, 1);
                assert forall|i: int| 0 <= i < ops.len() - 1 implies pair_sets(m, nops, 1)[i]
                    == pair_sets(m, ops, 1)[i] by {
                    assert(leaf_of(narrow_view(ops[i], 2)) == narrow_leaf(leaf_of(ops[i]), 2)
                        || !((ops[i]) is Query));
                    if (ops[i]) is Query && (ops[i + 1]) is Query {
                        lemma_narrow_pair_full(m, leaf_of(ops[i]), leaf_of(ops[i + 1]), 1);
                    } else {
                        if !((ops[i]) is Query) {
                            assert(leaf_of(narrow_view(ops[i], 2)) == leaf_of(ops[i]));
                        }
                        if !((ops[i + 1]) is Query) {
                            assert(leaf_of(narrow_view(ops[i + 1], 2)) == leaf_of(ops[i + 1]));
                        }
                        if (ops[i]) is Query {
                            assert(leaf_of(narrow_view(ops[i], 2)) == narrow_leaf(
                                leaf_of(ops[i]),
                                2,
                            ));
                            lemma_narrow_leaf_full(m, leaf_of(ops[i]));
                        }
                        if (ops[i + 1]) is Query {
                            lemma_narrow_leaf_full(m, leaf_of(ops[i + 1]));
                        }
                        lemma_narrow_pair_full(m, leaf_of(ops[i]), leaf_of(ops[i + 1]), 1);
                    }
                }
                assert(pair_sets(m, nops, 1) =~= pair_sets(m, ops, 1));
            }
        },
        OpView::Or(_, ops) => {
            let nops = narrow_view_list(ops, 2);
            lemma_narrow_view_list(ops, 2);
            lemma_union_list_pointwise(m, nops, ops);
        },
        OpView::Query(q) => {
            lemma_narrow_leaf_full(m, q);
        },
    }
}

/// Children lists whose members resolve pointwise equal union equal.
proof fn lemma_union_list_pointwise(m: IndexModel, s1: Seq<OpView>, s2: Seq<OpView>)
    requires
        s1.len() == s2.len(),
        forall|i: int|
            0 <= i < s1.len() ==> s1[i] == narrow_view(#[trigger] s2[i], 2),
    ensures
        union_list(m, s1) == union_list(m, s2),
    decreases s2,
{
    if s2.len() > 0 {
        assert(forall|i: int|
            0 <= i < s1.len() - 1 ==> #[trigger] s1.drop_last()[i] == s1[i]);
        assert(forall|i: int|
            0 <= i < s2.len() - 1 ==> #[trigger] s2.drop_last()[i] == s2[i]);
        lemma_union_list_pointwise(m, s1.drop_last(), s2.drop_last());
        lemma_narrow_resolve_full(m, s2.last());
        assert(s1.last() == narrow_view(s2.last(), 2));
    }
}

/// The pool that remains after the first `k` buckets of a level family.
pub open spec fn avail_after(sets: spec_fn(int) -> Set<u32>, avail0: Set<u32>, k: int) -> Set<
    u32,
>
    decreases k, 0int,
{
    if k <= 0 {
        avail0
    } else {
        avail_after(sets, avail0, k - 1).difference(bucket_at(sets, avail0, k - 1))
    }
}

/// The bucket a criterion emits at level `k`: the level's constraint set
/// drawn from what remains of the pool.
pub open spec fn bucket_at(sets: spec_fn(int) -> Set<u32>, avail0: Set<u32>, k: int) -> Set<u32>
    decreases k, 1int,
{
    sets(k).intersect(avail_after(sets, avail0, k))
}

/// Pools only shrink from level to level.
pub proof fn lemma_avail_monotone(
    sets: spec_fn(int) -> Set<u32>,
    avail0: Set<u32>,
    k1: int,
    k2: int,
)
    requires
        0 <= k1 <= k2,
    ensures
        avail_after(sets, avail0, k2).subset_of(avail_after(sets, avail0, k1)),
    decreases k2 - k1,
{
    if k1 < k2 {
        lemma_avail_monotone(sets, avail0, k1, k2 - 1);
    }
}

/// Disjointness: no document appears in two buckets of one criterion
/// drain.
pub proof fn lemma_buckets_disjoint(
    sets: spec_fn(int) -> Set<u32>,
    avail0: Set<u32>,
    k1: int,
    k2: int,
)
    requires
        0 <= k1 < k2,
    ensures
        bucket_at(sets, avail0, k1).disjoint(bucket_at(sets, avail0, k2)),
{
    lemma_avail_monotone(sets, avail0, k1 + 1, k2);
    assert forall|x: u32|
        bucket_at(sets, avail0, k2).contains(x) implies !bucket_at(sets, avail0, k1).contains(
        x,
    ) by {
        assert(avail_after(sets, avail0, k2).contains(x));
        assert(avail_after(sets, avail0, k1 + 1).contains(x));
    }
}

/// Monotonicity: a document emitted at level `k2` meets no earlier
/// level's constraint set, so it was first satisfiable at its own level.
pub proof fn lemma_bucket_not_earlier(
    sets: spec_fn(int) -> Set<u32>,
    avail0: Set<u32>,
    k1: int,
    k2: int,
)
    requires
        0 <= k1 < k2,
    ensures
        bucket_at(sets, avail0, k2).disjoint(sets(k1)),
{
    lemma_avail_monotone(sets, avail0, k1 + 1, k2);
    assert forall|x: u32| bucket_at(sets, avail0, k2).contains(x) implies !sets(k1).contains(
        x,
    ) by {
        assert(avail_after(sets, avail0, k1 + 1).contains(x));
        assert(avail_after(sets, avail0, k1).contains(x));
        if sets(k1).contains(x) {
            assert(bucket_at(sets, avail0, k1).contains(x));
        }
    }
}

/// Exhaustiveness: by the end of level `n`, everything of the pool that
/// level `n`'s constraint set covers has been emitted.
pub proof fn lemma_buckets_complete(sets: spec_fn(int) -> Set<u32>, avail0: Set<u32>, n: int)
    requires
        n >= 0,
    ensures
        sets(n).intersect(avail0).subset_of(avail0.difference(avail_after(sets, avail0, n + 1))),
{
    lemma_avail_monotone(sets, avail0, 0, n);
    let lhs = sets(n).intersect(avail0);
    let rhs = avail0.difference(avail_after(sets, avail0, n + 1));
    assert forall|x: u32| lhs.contains(x) implies rhs.contains(x) by {
        if avail_after(sets, avail0, n + 1).contains(x) {
            assert(avail_after(sets, avail0, n).contains(x));
            assert(bucket_at(sets, avail0, n).contains(x));
        }
    }
}

/// Every bucket is drawn from the pool and meets its own level's set.
pub proof fn lemma_bucket_in_pool(sets: spec_fn(int) -> Set<u32>, avail0: Set<u32>, k: int)
    requires
        k >= 0,
    ensures
        bucket_at(sets, avail0, k).subset_of(avail0.intersect(sets(k))),
{
    lemma_avail_monotone(sets, avail0, 0, k);
}

/// The tree with every leaf narrowed to at most `level` typos.
pub fn narrow_typos(t: &Operation, level: u8) -> (r: Operation)
    ensures
        r@ == narrow_view(t@, level),
    decreases *t,
{
    match t {
        Operation::And(ops) => {
            let v = narrow_typos_list(ops, level);
            Operation::And(v)
        },
        Operation::Consecutive(ops) => {
            let v = narrow_typos_list(ops, level);
            Operation::Consecutive(v)
        },
        Operation::Or(flag, ops) => {
            let v = narrow_typos_list(ops, level);
            Operation::Or(*flag, v)
        },
        Operation::Query(q) => {
            let nq = match &q.kind {
                QueryKind::Exact { word } => Query {
                    prefix: q.prefix,
                    kind: QueryKind::Exact { word: word.clone() },
                },
                QueryKind::Tolerant { typo, word } => Query {
                    prefix: q.prefix,
                    kind: QueryKind::Tolerant {
                        typo: if *typo > level {
                            level
                        } else {
                            *typo
                        },
                        word: word.clone(),
                    },
                },
            };
            Operation::Query(nq)
        },
    }
}

/// A list of trees, each with its leaves narrowed.
fn narrow_typos_list(ops: &Vec<Operation>, level: u8) -> (r: Vec<Operation>)
    ensures
        op_view_list(r@) == narrow_view_list(op_view_list(ops@), level),
    decreases ops@,
{
    let mut out: Vec<Operation> = Vec::new();
    let mut i: usize = 0;
    while i < ops.len()
        invariant
            i <= ops@.len(),
            out@.len() == i,
            forall|j: int|
                0 <= j < i ==> op_view(#[trigger] out@[j]) == narrow_view(op_view(ops@[j]), level),
        decreases ops@.len() - i,
    {
        proof {
            assert(decreases_to!(ops@ => ops@[i as int]));
        }
        out.push(narrow_typos(&ops[i], level));
        i += 1;
    }
    proof {
        lemma_op_view_list(out@);
        lemma_op_view_list(ops@);
        lemma_narrow_view_list(op_view_list(ops@), level);
        assert forall|j: int|
            0 <= j < ops@.len() implies op_view_list(out@)[j] == narrow_view_list(
            op_view_list(ops@),
            level,
        )[j] by {
            assert(op_view(out@[j]) == narrow_view(op_view(ops@[j]), level));
            assert(op_view_list(ops@)[j] == op_view(ops@[j]));
        }
        assert(op_view_list(out@) =~= narrow_view_list(op_view_list(ops@), level));
    }
    out
}

/// One typo level of a criterion drain: the narrowed tree's resolution,
/// drawn from what the pool still permits; the pool then loses the
/// drawn documents, so later levels can never repeat them.
pub fn typo_bucket<C: Context>(
    ctx: &C,
    tree: &Operation,
    level: u8,
    candidates: &mut Candidates,
    wdcache: &mut WordDerivationsCache,
) -> (r: Result<(Operation, RoaringBitmap), Error>)
    requires
        old(wdcache).dict() == ctx.model().words,
    ensures
        final(wdcache).dict() == old(wdcache).dict(),
        match r {
            Ok(p) => p.0@ == narrow_view(tree@, level) && bitmap_set(p.1) == spec_resolve(
                ctx.model(),
                narrow_view(tree@, level),
            ).intersect(avail_of(*old(candidates))) && avail_of(*final(candidates)) == avail_of(
                *old(candidates),
            ).difference(bitmap_set(p.1)),
            Err(e) => !tree_wf(tree@) && e == Error::InvalidConsecutive && *final(candidates)
                == *old(candidates),
        },
{
    let narrowed = narrow_typos(tree, level);
    let resolved = match resolve_query_tree(ctx, &narrowed, wdcache) {
        Ok(b) => b,
        Err(e) => {
            proof {
                lemma_narrow_wf(tree@, level);
            }
            return Err(e);
        },
    };
    let docids = candidates.draw(resolved);
    Ok((narrowed, docids))
}

/// The tree narrowed to its first `k` top-level conjunct branches.
pub open spec fn words_narrow(t: OpView, k: int) -> OpView {
    match t {
        OpView::And(ops) => if 0 < k < ops.len() {
            OpView::And(ops.take(k))
        } else {
            t
        },
        _ => t,
    }
}

/// A well-formed tree stays well formed when trailing conjunct branches
/// are dropped.
pub proof fn lemma_words_narrow_wf(t: OpView, k: int)
    ensures
        tree_wf(t) ==> tree_wf(words_narrow(t, k)),
{
    match t {
        OpView::And(ops) => {
            if tree_wf(t) && 0 < k < ops.len() {
                assert forall|i: int| 0 <= i < ops.take(k).len() implies tree_wf(
                    #[trigger] ops.take(k)[i],
                ) by {
                    assert(ops.take(k)[i] == ops[i]);
                    assert(tree_wf(ops[i]));
                }
                assert(tree_wf(OpView::And(ops.take(k))));
            }
        },
        _ => {},
    }
}

/// One word-count step: the tree cut to its first `k` conjunct branches,
/// resolved and drawn from the remaining pool.
pub fn words_bucket<C: Context>(
    ctx: &C,
    tree: &Operation,
    k: usize,
    candidates: &mut Candidates,
    wdcache: &mut WordDerivationsCache,
) -> (r: Result<(Operation, RoaringBitmap), Error>)
    requires
        old(wdcache).dict() == ctx.model().words,
    ensures
        final(wdcache).dict() == old(wdcache).dict(),
        match r {
            Ok(p) => p.0@ == words_narrow(tree@, k as int) && bitmap_set(p.1) == spec_resolve(
                ctx.model(),
                words_narrow(tree@, k as int),
            ).intersect(avail_of(*old(candidates))) && avail_of(*final(candidates)) == avail_of(
                *old(candidates),
            ).difference(bitmap_set(p.1)),
            Err(e) => !tree_wf(tree@) && e == Error::InvalidConsecutive && *final(candidates)
                == *old(candidates),
        },
{
    let narrowed = match tree {
        Operation::And(ops) => {
            if 0 < k && k < ops.len() {
                let mut out: Vec<Operation> = Vec::new();
                let mut i: usize = 0;
                while i < k
                    invariant
                        k < ops@.len(),
                        i <= k,
                        out@.len() == i,
                        forall|j: int|
                            0 <= j < i ==> op_view(#[trigger] out@[j]) == op_view(ops@[j]),
                    decreases k - i,
                {
                    out.push(ops[i].duplicate());
                    i += 1;
                }
                proof {
                    lemma_op_view_list(out@);
                    lemma_op_view_list(ops@);
                    lemma_op_view_list(ops@.take(k as int));
                    assert forall|j: int|
                        0 <= j < k implies op_view_list(out@)[j] == op_view_list(
                        ops@.take(k as int),
                    )[j] by {
                        assert(ops@.take(k as int)[j] == ops@[j]);
                        assert(op_view(out@[j]) == op_view(ops@[j]));
                    }
                    assert(op_view_list(out@) =~= op_view_list(ops@.take(k as int)));
                    lemma_op_view_list_take(ops@, k as int);
                }
                Operation::And(out)
            } else {
                proof {
                    lemma_op_view_list(ops@);
                }
                tree.duplicate()
            }
        },
        _ => tree.duplicate(),
    };
    let resolved = match resolve_query_tree(ctx, &narrowed, wdcache) {
        Ok(b) => b,
        Err(e) => {
            proof {
                lemma_words_narrow_wf(tree@, k as int);
            }
            return Err(e);
        },
    };
    let docids = candidates.draw(resolved);
    Ok((narrowed, docids))
}

/// The view of a list prefix is the prefix of the list's view.
proof fn lemma_op_view_list_take(ops: Seq<Operation>, k: int)
    requires
        0 <= k <= ops.len(),
    ensures
        op_view_list(ops.take(k)) == op_view_list(ops).take(k),
{
    lemma_op_view_list(ops);
    lemma_op_view_list(ops.take(k));
    assert forall|j: int|
        0 <= j < k implies op_view_list(ops.take(k))[j] == op_view_list(ops).take(k)[j] by {
        assert(ops.take(k)[j] == ops[j]);
    }
    assert(op_view_list(ops.take(k)) =~= op_view_list(ops).take(k));
}

/// The documents matching the tree with every adjacent-leaf constraint
/// relaxed to distance at most `p`: each window is the union of its pair
/// resolutions at every distance up to `p`. A tree without positional
/// constraints matches only at `p == 0`, where it resolves as usual.
pub open spec fn prox_resolve_at(m: IndexModel, t: OpView, p: u8) -> Set<u32> {
    match t {
        OpView::Consecutive(ops) => inter_seq(up_to_sets(m, ops, p)),
        _ => if p == 0 {
            spec_resolve(m, t)
        } else {
            Set::empty()
        },
    }
}

/// Resolves the tree with its adjacent-leaf constraints relaxed to
/// distance at most `p`.
pub fn resolve_at_proximity<C: Context>(
    ctx: &C,
    tree: &Operation,
    p: u8,
    wdcache: &mut WordDerivationsCache,
) -> (r: Result<RoaringBitmap, Error>)
    requires
        old(wdcache).dict() == ctx.model().words,
    ensures
        final(wdcache).dict() == old(wdcache).dict(),
        match r {
            Ok(b) => bitmap_set(b) == prox_resolve_at(ctx.model(), tree@, p),
            Err(e) => !tree_wf(tree@) && e == Error::InvalidConsecutive,
        },
{
    match tree {
        Operation::Consecutive(ops) => {
            let ghost vs = op_view_list(ops@);
            proof {
                lemma_op_view_list(ops@);
            }
            match resolve_consecutive(ctx, ops, p, true, wdcache) {
                Ok(b) => {
                    proof {
                        assert(tree@ == OpView::Consecutive(vs));
                    }
                    Ok(b)
                },
                Err(e) => {
                    proof {
                        assert(tree@ == OpView::Consecutive(vs));
                        if tree_wf(tree@) {
                            assert forall|j: int|
                                0 <= j < vs.len() implies (#[trigger] vs[j]) is Query by {}
                            assert(all_leaves(vs));
                        }
                    }
                    Err(e)
                },
            }
        },
        _ => {
            if p == 0 {
                resolve_query_tree(ctx, tree, wdcache)
            } else {
                let empty = bitmap_new();
                Ok(empty)
            }
        },
    }
}

/// One proximity step: the documents whose adjacent-leaf constraints
/// hold at distance at most `p`, drawn from the remaining pool, which
/// by then has already lost everything that held at smaller distances.
pub fn proximity_bucket<C: Context>(
    ctx: &C,
    tree: &Operation,
    p: u8,
    candidates: &mut Candidates,
    wdcache: &mut WordDerivationsCache,
) -> (r: Result<RoaringBitmap, Error>)
    requires
        old(wdcache).dict() == ctx.model().words,
    ensures
        final(wdcache).dict() == old(wdcache).dict(),
        match r {
            Ok(b) => bitmap_set(b) == prox_resolve_at(ctx.model(), tree@, p).intersect(
                avail_of(*old(candidates)),
            ) && avail_of(*final(candidates)) == avail_of(*old(candidates)).difference(
                bitmap_set(b),
            ),
            Err(e) => !tree_wf(tree@) && e == Error::InvalidConsecutive && *final(candidates)
                == *old(candidates),
        },
{
    let resolved = match resolve_at_proximity(ctx, tree, p, wdcache) {
        Ok(b) => b,
        Err(e) => {
            return Err(e);
        },
    };
    let docids = candidates.draw(resolved);
    Ok(docids)
}

/// A ranking rule name from the index configuration.
#[derive(Debug)]
pub enum CriterionName {
    Typo,
    Words,
    Proximity,
    Attribute,
    WordsPosition,
    Exactness,
    Asc(String),
    Desc(String),
}

/// The typo criterion: buckets by increasing permitted typo count.
pub struct TypoCriterion {
    parent: Option<Box<CriterionStack>>,
    state: Option<TypoState>,
    bucket: RoaringBitmap,
    drained: bool,
}

struct TypoState {
    tree: Option<Operation>,
    candidates: Candidates,
    level: u8,
    avail0: Ghost<Set<u32>>,
}

/// The word-count criterion: buckets from all conjunct branches
/// satisfied down to only the first one.
pub struct WordsCriterion {
    parent: Option<Box<CriterionStack>>,
    state: Option<WordsState>,
    bucket: RoaringBitmap,
    drained: bool,
}

struct WordsState {
    tree: Option<Operation>,
    candidates: Candidates,
    k: usize,
}

/// The proximity criterion: buckets by increasing adjacent-leaf
/// distance, up to the stored pair-table depth.
pub struct ProximityCriterion {
    parent: Option<Box<CriterionStack>>,
    state: Option<ProximityState>,
    bucket: RoaringBitmap,
    drained: bool,
}

struct ProximityState {
    tree: Option<Operation>,
    candidates: Candidates,
    p: u8,
    avail0: Ghost<Set<u32>>,
}

/// The facet-order criterion: one bucket per distinct numeric value of
/// a field, ascending or descending. Documents without a value for the
/// field are emitted after all valued documents when ascending and
/// before them when descending.
pub struct AscDescCriterion {
    parent: Option<Box<CriterionStack>>,
    state: Option<AscDescState>,
    bucket: RoaringBitmap,
    drained: bool,
    field: String,
    ascending: bool,
}

struct AscDescState {
    tree: Option<Operation>,
    candidates: Candidates,
    values: Vec<(i64, RoaringBitmap)>,
    stage: usize,
    extra_done: bool,
}

/// The criterion pipeline: a tagged union of criterion states, each
/// wrapping its parent. Ownership is linear, from the top of the stack
/// down to the initial criterion.
pub enum CriterionStack {
    Typo(TypoCriterion),
    Words(WordsCriterion),
    Proximity(ProximityCriterion),
    AscDesc(AscDescCriterion),
}

/// How many criteria the chain under a stack holds.
pub closed spec fn stack_height(s: CriterionStack) -> nat
    decreases s,
{
    match s {
        CriterionStack::Typo(c) => 1 + parent_height(c.parent),
        CriterionStack::Words(c) => 1 + parent_height(c.parent),
        CriterionStack::Proximity(c) => 1 + parent_height(c.parent),
        CriterionStack::AscDesc(c) => 1 + parent_height(c.parent),
    }
}

/// The chain length under an optional parent.
pub closed spec fn parent_height(p: Option<Box<CriterionStack>>) -> nat
    decreases p,
{
    match p {
        Some(b) => stack_height(*b),
        None => 0,
    }
}

/// A ranking criterion: each `next` yields the following bucket, or the
/// end of the stream. End is absorbing, a returned bucket always carries
/// a materialized candidate set, and an initial criterion (one without a
/// parent) labels each bucket with its own non-empty candidate set.
pub trait Criterion: Sized {
    /// Whether this criterion's stream has ended.
    spec fn ended(&self) -> bool;

    /// Whether this criterion is the initial one: it has no parent and
    /// owns the seed tree and candidate pool.
    spec fn is_initial(&self) -> bool;

    /// The following bucket.
    fn next<C: Context>(
        &mut self,
        ctx: &C,
        wdcache: &mut WordDerivationsCache,
    ) -> (r: Result<Option<CriterionResult>, Error>)
        requires
            old(wdcache).dict() == ctx.model().words,
        ensures
            final(wdcache).dict() == old(wdcache).dict(),
            old(self).ended() ==> (r matches Ok(None)) && *final(self) == *old(self),
            (r matches Ok(None)) ==> final(self).ended(),
            match r {
                Ok(Some(res)) => res.candidates is Some && (old(self).is_initial() ==> (
                res.candidates matches Some(d) && bitmap_set(res.bucket_candidates) == bitmap_set(
                    d,
                ) && bitmap_set(d) != Set::<u32>::empty())),
                _ => true,
            },
    ;
}

impl Criterion for CriterionStack {
    open spec fn ended(&self) -> bool {
        match self {
            CriterionStack::Typo(c) => c.ended(),
            CriterionStack::Words(c) => c.ended(),
            CriterionStack::Proximity(c) => c.ended(),
            CriterionStack::AscDesc(c) => c.ended(),
        }
    }

    open spec fn is_initial(&self) -> bool {
        match self {
            CriterionStack::Typo(c) => !c.has_parent(),
            CriterionStack::Words(c) => !c.has_parent(),
            CriterionStack::Proximity(c) => !c.has_parent(),
            CriterionStack::AscDesc(c) => !c.has_parent(),
        }
    }

    fn next<C: Context>(
        &mut self,
        ctx: &C,
        wdcache: &mut WordDerivationsCache,
    ) -> (r: Result<Option<CriterionResult>, Error>)
        ensures
            (*old(self)) matches CriterionStack::Typo(c0)
                ==> c0.inv(ctx.model())
                ==> ((*final(self)) matches CriterionStack::Typo(c1) && c1.inv(ctx.model()) && ((!c0.has_parent()
                && !c0.ended() && c0.live_tree()) ==> (match r {
                Ok(Some(res)) => c1.live_tree() && c1.tree_view() == c0.tree_view() && c1.pool0()
                    == c0.pool0() && c0.level_of() < c1.level_of() <= 3 && (
                res.candidates matches Some(d) && bitmap_set(d) == bucket_at(
                    typo_sets(ctx.model(), c0.tree_view()),
                    c0.pool0(),
                    c1.level_of() - 1,
                )) && (forall|k: int|
                    c0.level_of() <= k < c1.level_of() - 1 ==> bucket_at(
                        typo_sets(ctx.model(), c0.tree_view()),
                        c0.pool0(),
                        k,
                    ) == Set::<u32>::empty()),
                Ok(None) => forall|k: int|
                    c0.level_of() <= k < 3 ==> bucket_at(
                        typo_sets(ctx.model(), c0.tree_view()),
                        c0.pool0(),
                        k,
                    ) == Set::<u32>::empty(),
                Err(_) => true,
            }))),
            (*old(self)) matches CriterionStack::Proximity(c0)
                ==> c0.inv(ctx.model())
                ==> ((*final(self)) matches CriterionStack::Proximity(c1) && c1.inv(ctx.model())
                && ((!c0.has_parent() && !c0.ended() && c0.live_tree()) ==> (match r {
                Ok(Some(res)) => c1.live_tree() && c1.tree_view() == c0.tree_view() && c1.pool0()
                    == c0.pool0() && c0.level_of() < c1.level_of() <= 8 && (
                res.candidates matches Some(d) && bitmap_set(d) == bucket_at(
                    prox_sets(ctx.model(), c0.tree_view()),
                    c0.pool0(),
                    c1.level_of() - 1,
                )) && (forall|k: int|
                    c0.level_of() <= k < c1.level_of() - 1 ==> bucket_at(
                        prox_sets(ctx.model(), c0.tree_view()),
                        c0.pool0(),
                        k,
                    ) == Set::<u32>::empty()),
                Ok(None) => forall|k: int|
                    c0.level_of() <= k < 8 ==> bucket_at(
                        prox_sets(ctx.model(), c0.tree_view()),
                        c0.pool0(),
                        k,
                    ) == Set::<u32>::empty(),
                Err(_) => true,
            }))),
        decreases stack_height(*self), 0int,
    {
        match self {
            CriterionStack::Typo(c) => typo_next(c, ctx, wdcache),
            CriterionStack::Words(c) => words_next(c, ctx, wdcache),
            CriterionStack::Proximity(c) => proximity_next(c, ctx, wdcache),
            CriterionStack::AscDesc(c) => asc_desc_next(c, ctx, wdcache),
        }
    }
}

/// Pulls one bucket from the parent and seeds a fresh iteration state,
/// accumulating the parent's bucket label.
fn pull_parent<C: Context>(
    parent: &mut Box<CriterionStack>,
    bucket: &mut RoaringBitmap,
    ctx: &C,
    wdcache: &mut WordDerivationsCache,
) -> (r: Result<Option<(Option<Operation>, Candidates)>, Error>)
    requires
        old(wdcache).dict() == ctx.model().words,
    ensures
        final(wdcache).dict() == old(wdcache).dict(),
    decreases stack_height(**old(parent)), 1int,
{
    match CriterionStack::next(&mut **parent, ctx, wdcache) {
        Ok(Some(res)) => {
            bitmap_union_with(bucket, &res.bucket_candidates);
            let cands = match res.candidates {
                Some(cb) => Candidates::Allowed(cb),
                None => Candidates::Forbidden(bitmap_new()),
            };
            Ok(Some((res.query_tree, cands)))
        },
        Ok(None) => Ok(None),
        Err(e) => Err(e),
    }
}

/// Takes the pending bucket label, or stands for the emitted documents
/// themselves at the initial criterion.
fn take_label(
    has_parent: bool,
    bucket: &mut RoaringBitmap,
    docids: &RoaringBitmap,
) -> (r: RoaringBitmap)
    ensures
        !has_parent ==> bitmap_set(r) == bitmap_set(*docids),
{
    if has_parent {
        let mut taken = bitmap_new();
        core::mem::swap(&mut taken, bucket);
        taken
    } else {
        bitmap_clone(docids)
    }
}

/// The whole remaining pool, for a state without a textual constraint.
fn remaining_pool<C: Context>(ctx: &C, candidates: Candidates) -> (r: RoaringBitmap)
    ensures
        bitmap_set(r) == (match candidates {
            Candidates::Allowed(pool) => bitmap_set(pool),
            Candidates::Forbidden(forb) => ctx.model().documents.difference(bitmap_set(forb)),
        }),
{
    match candidates {
        Candidates::Allowed(pool) => pool,
        Candidates::Forbidden(forb) => {
            let mut all = ctx.documents_ids();
            bitmap_difference_with(&mut all, &forb);
            all
        },
    }
}

/// Drains one iteration state to its next non-empty bucket. Returns the
/// surviving state (if any) and the emitted bucket; no bucket means the
/// state is spent. When the state satisfies the drain invariant, the
/// emitted bucket is exactly `bucket_at` of the typo level family, every
/// skipped level's bucket is empty, and the surviving state keeps the
/// invariant.
fn typo_iterate<C: Context>(
    ctx: &C,
    has_parent: bool,
    bucket: &mut RoaringBitmap,
    st: TypoState,
    wdcache: &mut WordDerivationsCache,
) -> (r: Result<(Option<TypoState>, Option<CriterionResult>), Error>)
    requires
        old(wdcache).dict() == ctx.model().words,
    ensures
        final(wdcache).dict() == old(wdcache).dict(),
        match r {
            Ok(p) => (p.1 is None ==> p.0 is None) && (st.tree is None ==> p.0 is None) && (
            match p.1 {
                Some(res) => res.candidates is Some && (!has_parent ==> (
                res.candidates matches Some(d) && bitmap_set(res.bucket_candidates) == bitmap_set(
                    d,
                ) && bitmap_set(d) != Set::<u32>::empty())),
                None => true,
            }),
            _ => true,
        },
        (match st.tree {
            Some(t) => st.level <= 3 && avail_of(st.candidates) == avail_after(
                typo_sets(ctx.model(), t@),
                st.avail0@,
                st.level as int,
            ),
            None => false,
        }) ==> (match r {
            Ok(p) => match p.1 {
                Some(res) => p.0 matches Some(st2) && st2.tree == st.tree && st2.avail0
                    == st.avail0 && st.level < st2.level <= 3 && avail_of(st2.candidates)
                    == avail_after(
                    typo_sets(ctx.model(), st.tree->0@),
                    st.avail0@,
                    st2.level as int,
                ) && (res.candidates matches Some(d) && bitmap_set(d) == bucket_at(
                    typo_sets(ctx.model(), st.tree->0@),
                    st.avail0@,
                    st2.level - 1,
                )) && (forall|k: int|
                    st.level <= k < st2.level - 1 ==> bucket_at(
                        typo_sets(ctx.model(), st.tree->0@),
                        st.avail0@,
                        k,
                    ) == Set::<u32>::empty()),
                None => forall|k: int|
                    st.level <= k < 3 ==> bucket_at(
                        typo_sets(ctx.model(), st.tree->0@),
                        st.avail0@,
                        k,
                    ) == Set::<u32>::empty(),
            },
            _ => true,
        }),
{
    let ghost st0 = st;
    let ghost m = ctx.model();
    let mut cur = st;
    match cur.tree.take() {
        Some(tree) => {
            let ghost sets = typo_sets(m, tree@);
            let ghost a0 = st0.avail0@;
            let ghost entry_level = st0.level;
            let ghost ok = st0.level <= 3 && avail_of(st0.candidates) == avail_after(
                sets,
                a0,
                st0.level as int,
            );
            while cur.level < 3
                invariant
                    old(wdcache).dict() == ctx.model().words,
                    wdcache.dict() == old(wdcache).dict(),
                    m == ctx.model(),
                    st0 == st,
                    st0.tree == Some(tree),
                    sets == typo_sets(m, tree@),
                    a0 == st0.avail0@,
                    entry_level == st0.level,
                    cur.tree is None,
                    cur.avail0 == st0.avail0,
                    entry_level <= cur.level,
                    ok == (st0.level <= 3 && avail_of(st0.candidates) == avail_after(
                        sets,
                        a0,
                        st0.level as int,
                    )),
                    ok ==> cur.level <= 3 && avail_of(cur.candidates) == avail_after(
                        sets,
                        a0,
                        cur.level as int,
                    ) && (forall|k: int|
                        entry_level <= k < cur.level ==> bucket_at(sets, a0, k)
                            == Set::<u32>::empty()),
                decreases 3 - cur.level,
            {
                let level = cur.level;
                cur.level = level + 1;
                match typo_bucket(ctx, &tree, level, &mut cur.candidates, wdcache) {
                    Ok((narrowed, docids)) => {
                        proof {
                            if ok {
                                assert(sets(level as int) == spec_resolve(
                                    m,
                                    narrow_view(tree@, level),
                                ));
                                assert(bucket_at(sets, a0, level as int) == sets(
                                    level as int,
                                ).intersect(avail_after(sets, a0, level as int)));
                                assert(bitmap_set(docids) =~= bucket_at(sets, a0, level as int));
                                assert(avail_after(sets, a0, level + 1) == avail_after(
                                    sets,
                                    a0,
                                    level as int,
                                ).difference(bucket_at(sets, a0, level as int)));
                                assert(avail_of(cur.candidates) =~= avail_after(
                                    sets,
                                    a0,
                                    level + 1,
                                ));
                            }
                        }
                        if !bitmap_is_empty(&docids) {
                            let label = take_label(has_parent, bucket, &docids);
                            cur.tree = Some(tree);
                            return Ok(
                                (
                                    Some(cur),
                                    Some(
                                        CriterionResult {
                                            query_tree: Some(narrowed),
                                            candidates: Some(docids),
                                            bucket_candidates: label,
                                        },
                                    ),
                                ),
                            );
                        }
                        proof {
                            if ok {
                                assert(bucket_at(sets, a0, level as int) =~= Set::<u32>::empty());
                            }
                        }
                    },
                    Err(e) => {
                        return Err(e);
                    },
                }
            }
            Ok((None, None))
        },
        None => {
            let docids = remaining_pool(ctx, cur.candidates);
            if bitmap_is_empty(&docids) {
                return Ok((None, None));
            }
            let label = take_label(has_parent, bucket, &docids);
            Ok(
                (
                    None,
                    Some(
                        CriterionResult {
                            query_tree: None,
                            candidates: Some(docids),
                            bucket_candidates: label,
                        },
                    ),
                ),
            )
        },
    }
}

fn typo_next<C: Context>(
    c: &mut TypoCriterion,
    ctx: &C,
    wdcache: &mut WordDerivationsCache,
) -> (r: Result<Option<CriterionResult>, Error>)
    requires
        old(wdcache).dict() == ctx.model().words,
    ensures
        final(wdcache).dict() == old(wdcache).dict(),
        old(c).ended() ==> (r matches Ok(None)) && *final(c) == *old(c),
        (r matches Ok(None)) ==> final(c).ended(),
        match r {
            Ok(Some(res)) => res.candidates is Some && (!old(c).has_parent() ==> (
            res.candidates matches Some(d) && bitmap_set(res.bucket_candidates) == bitmap_set(d)
                && bitmap_set(d) != Set::<u32>::empty())),
            _ => true,
        },
        old(c).inv(ctx.model()) ==> final(c).inv(ctx.model()),
        old(c).inv(ctx.model()) && !old(c).has_parent() && !old(c).ended() && old(c).live_tree()
            ==> (match r {
            Ok(Some(res)) => final(c).live_tree() && final(c).tree_view() == old(c).tree_view()
                && final(c).pool0() == old(c).pool0() && old(c).level_of() < final(c).level_of()
                <= 3 && (res.candidates matches Some(d) && bitmap_set(d) == bucket_at(
                typo_sets(ctx.model(), old(c).tree_view()),
                old(c).pool0(),
                final(c).level_of() - 1,
            )) && (forall|k: int|
                old(c).level_of() <= k < final(c).level_of() - 1 ==> bucket_at(
                    typo_sets(ctx.model(), old(c).tree_view()),
                    old(c).pool0(),
                    k,
                ) == Set::<u32>::empty()),
            Ok(None) => forall|k: int|
                old(c).level_of() <= k < 3 ==> bucket_at(
                    typo_sets(ctx.model(), old(c).tree_view()),
                    old(c).pool0(),
                    k,
                ) == Set::<u32>::empty(),
            Err(_) => true,
        }),
    decreases parent_height(c.parent), 2int,
{
    if c.drained {
        return Ok(None);
    }
    match c.state.take() {
        Some(st) => {
            match typo_iterate(ctx, c.parent.is_some(), &mut c.bucket, st, wdcache) {
                Ok((new_state, Some(res))) => {
                    c.state = new_state;
                    return Ok(Some(res));
                },
                Ok((_, None)) => {},
                Err(e) => {
                    return Err(e);
                },
            }
        },
        None => {},
    }
    match &mut c.parent {
        None => {
            c.drained = true;
            Ok(None)
        },
        Some(parent) => {
            match pull_parent(parent, &mut c.bucket, ctx, wdcache) {
                Ok(Some((tree, cands))) => {
                    let ghost a0 = avail_of(cands);
                    let st = TypoState { tree, candidates: cands, level: 0, avail0: Ghost(a0) };
                    proof {
                        assert(forall|f: spec_fn(int) -> Set<u32>| #[trigger] avail_after(
                            f,
                            a0,
                            0,
                        ) == a0);
                    }
                    match typo_iterate(ctx, true, &mut c.bucket, st, wdcache) {
                        Ok((new_state, Some(res))) => {
                            c.state = new_state;
                            Ok(Some(res))
                        },
                        Ok((_, None)) => {
                            let empty = bitmap_new();
                            let label = take_label(true, &mut c.bucket, &empty);
                            Ok(Some(CriterionResult {
                                query_tree: None,
                                candidates: Some(empty),
                                bucket_candidates: label,
                            }))
                        },
                        Err(e) => Err(e),
                    }
                },
                Ok(None) => {
                    c.drained = true;
                    Ok(None)
                },
                Err(e) => Err(e),
            }
        },
    }
}

/// Drains one word-count state to its next non-empty bucket.
fn words_iterate<C: Context>(
    ctx: &C,
    has_parent: bool,
    bucket: &mut RoaringBitmap,
    st: WordsState,
    wdcache: &mut WordDerivationsCache,
) -> (r: Result<(Option<WordsState>, Option<CriterionResult>), Error>)
    requires
        old(wdcache).dict() == ctx.model().words,
    ensures
        final(wdcache).dict() == old(wdcache).dict(),
        match r {
            Ok(p) => (p.1 is None ==> p.0 is None) && (match p.1 {
                Some(res) => res.candidates is Some && (!has_parent ==> (
                res.candidates matches Some(d) && bitmap_set(res.bucket_candidates) == bitmap_set(
                    d,
                ) && bitmap_set(d) != Set::<u32>::empty())),
                None => true,
            }),
            _ => true,
        },
{
    let mut st = st;
    match st.tree.take() {
        Some(tree) => {
            while st.k > 0
                invariant
                    old(wdcache).dict() == ctx.model().words,
                    wdcache.dict() == old(wdcache).dict(),
                decreases st.k,
            {
                let k = st.k;
                st.k = k - 1;
                match words_bucket(ctx, &tree, k, &mut st.candidates, wdcache) {
                    Ok((narrowed, docids)) => {
                        if !bitmap_is_empty(&docids) {
                            let label = take_label(has_parent, bucket, &docids);
                            st.tree = Some(tree);
                            return Ok(
                                (
                                    Some(st),
                                    Some(
                                        CriterionResult {
                                            query_tree: Some(narrowed),
                                            candidates: Some(docids),
                                            bucket_candidates: label,
                                        },
                                    ),
                                ),
                            );
                        }
                    },
                    Err(e) => {
                        return Err(e);
                    },
                }
            }
            Ok((None, None))
        },
        None => {
            let docids = remaining_pool(ctx, st.candidates);
            if bitmap_is_empty(&docids) {
                return Ok((None, None));
            }
            let label = take_label(has_parent, bucket, &docids);
            Ok(
                (
                    None,
                    Some(
                        CriterionResult {
                            query_tree: None,
                            candidates: Some(docids),
                            bucket_candidates: label,
                        },
                    ),
                ),
            )
        },
    }
}

fn words_next<C: Context>(
    c: &mut WordsCriterion,
    ctx: &C,
    wdcache: &mut WordDerivationsCache,
) -> (r: Result<Option<CriterionResult>, Error>)
    requires
        old(wdcache).dict() == ctx.model().words,
    ensures
        final(wdcache).dict() == old(wdcache).dict(),
        old(c).ended() ==> (r matches Ok(None)) && *final(c) == *old(c),
        (r matches Ok(None)) ==> final(c).ended(),
        match r {
            Ok(Some(res)) => res.candidates is Some && (!old(c).has_parent() ==> (
            res.candidates matches Some(d) && bitmap_set(res.bucket_candidates) == bitmap_set(d)
                && bitmap_set(d) != Set::<u32>::empty())),
            _ => true,
        },
    decreases parent_height(c.parent), 2int,
{
    if c.drained {
        return Ok(None);
    }
    match c.state.take() {
        Some(st) => {
            match words_iterate(ctx, c.parent.is_some(), &mut c.bucket, st, wdcache) {
                Ok((new_state, Some(res))) => {
                    c.state = new_state;
                    return Ok(Some(res));
                },
                Ok((_, None)) => {},
                Err(e) => {
                    return Err(e);
                },
            }
        },
        None => {},
    }
    match &mut c.parent {
        None => {
            c.drained = true;
            Ok(None)
        },
        Some(parent) => {
            match pull_parent(parent, &mut c.bucket, ctx, wdcache) {
                Ok(Some((tree, cands))) => {
                    let k = match &tree {
                        Some(Operation::And(ops)) => ops.len(),
                        _ => 1,
                    };
                    let st = WordsState { tree, candidates: cands, k };
                    match words_iterate(ctx, true, &mut c.bucket, st, wdcache) {
                        Ok((new_state, Some(res))) => {
                            c.state = new_state;
                            Ok(Some(res))
                        },
                        Ok((_, None)) => {
                            let empty = bitmap_new();
                            let label = take_label(true, &mut c.bucket, &empty);
                            Ok(Some(CriterionResult {
                                query_tree: None,
                                candidates: Some(empty),
                                bucket_candidates: label,
                            }))
                        },
                        Err(e) => Err(e),
                    }
                },
                Ok(None) => {
                    c.drained = true;
                    Ok(None)
                },
                Err(e) => Err(e),
            }
        },
    }
}

/// Drains one proximity state to its next non-empty bucket. When the
/// state satisfies the drain invariant, the emitted bucket is exactly
/// `bucket_at` of the proximity level family, every skipped distance's
/// bucket is empty, and the surviving state keeps the invariant.
fn proximity_iterate<C: Context>(
    ctx: &C,
    has_parent: bool,
    bucket: &mut RoaringBitmap,
    st: ProximityState,
    wdcache: &mut WordDerivationsCache,
) -> (r: Result<(Option<ProximityState>, Option<CriterionResult>), Error>)
    requires
        old(wdcache).dict() == ctx.model().words,
    ensures
        final(wdcache).dict() == old(wdcache).dict(),
        match r {
            Ok(p) => (p.1 is None ==> p.0 is None) && (st.tree is None ==> p.0 is None) && (
            match p.1 {
                Some(res) => res.candidates is Some && (!has_parent ==> (
                res.candidates matches Some(d) && bitmap_set(res.bucket_candidates) == bitmap_set(
                    d,
                ) && bitmap_set(d) != Set::<u32>::empty())),
                None => true,
            }),
            _ => true,
        },
        (match st.tree {
            Some(t) => st.p <= 8 && avail_of(st.candidates) == avail_after(
                prox_sets(ctx.model(), t@),
                st.avail0@,
                st.p as int,
            ),
            None => false,
        }) ==> (match r {
            Ok(pr) => match pr.1 {
                Some(res) => pr.0 matches Some(st2) && st2.tree == st.tree && st2.avail0
                    == st.avail0 && st.p < st2.p <= 8 && avail_of(st2.candidates) == avail_after(
                    prox_sets(ctx.model(), st.tree->0@),
                    st.avail0@,
                    st2.p as int,
                ) && (res.candidates matches Some(d) && bitmap_set(d) == bucket_at(
                    prox_sets(ctx.model(), st.tree->0@),
                    st.avail0@,
                    st2.p - 1,
                )) && (forall|k: int|
                    st.p <= k < st2.p - 1 ==> bucket_at(
                        prox_sets(ctx.model(), st.tree->0@),
                        st.avail0@,
                        k,
                    ) == Set::<u32>::empty()),
                None => forall|k: int|
                    st.p <= k < 8 ==> bucket_at(
                        prox_sets(ctx.model(), st.tree->0@),
                        st.avail0@,
                        k,
                    ) == Set::<u32>::empty(),
            },
            _ => true,
        }),
{
    let ghost st0 = st;
    let ghost m = ctx.model();
    let mut cur = st;
    match cur.tree.take() {
        Some(tree) => {
            let ghost sets = prox_sets(m, tree@);
            let ghost a0 = st0.avail0@;
            let ghost entry_level = st0.p;
            let ghost ok = st0.p <= 8 && avail_of(st0.candidates) == avail_after(
                sets,
                a0,
                st0.p as int,
            );
            while cur.p < 8
                invariant
                    old(wdcache).dict() == ctx.model().words,
                    wdcache.dict() == old(wdcache).dict(),
                    m == ctx.model(),
                    st0 == st,
                    st0.tree == Some(tree),
                    sets == prox_sets(m, tree@),
                    a0 == st0.avail0@,
                    entry_level == st0.p,
                    cur.tree is None,
                    cur.avail0 == st0.avail0,
                    entry_level <= cur.p,
                    ok == (st0.p <= 8 && avail_of(st0.candidates) == avail_after(
                        sets,
                        a0,
                        st0.p as int,
                    )),
                    ok ==> cur.p <= 8 && avail_of(cur.candidates) == avail_after(
                        sets,
                        a0,
                        cur.p as int,
                    ) && (forall|k: int|
                        entry_level <= k < cur.p ==> bucket_at(sets, a0, k)
                            == Set::<u32>::empty()),
                decreases 8 - cur.p,
            {
                let p = cur.p;
                cur.p = p + 1;
                match proximity_bucket(ctx, &tree, p, &mut cur.candidates, wdcache) {
                    Ok(docids) => {
                        proof {
                            if ok {
                                assert(sets(p as int) == prox_resolve_at(m, tree@, p));
                                assert(bucket_at(sets, a0, p as int) == sets(
                                    p as int,
                                ).intersect(avail_after(sets, a0, p as int)));
                                assert(bitmap_set(docids) =~= bucket_at(sets, a0, p as int));
                                assert(avail_after(sets, a0, p + 1) == avail_after(
                                    sets,
                                    a0,
                                    p as int,
                                ).difference(bucket_at(sets, a0, p as int)));
                                assert(avail_of(cur.candidates) =~= avail_after(sets, a0, p + 1));
                            }
                        }
                        if !bitmap_is_empty(&docids) {
                            let label = take_label(has_parent, bucket, &docids);
                            let narrowed = tree.duplicate();
                            cur.tree = Some(tree);
                            return Ok(
                                (
                                    Some(cur),
                                    Some(
                                        CriterionResult {
                                            query_tree: Some(narrowed),
                                            candidates: Some(docids),
                                            bucket_candidates: label,
                                        },
                                    ),
                                ),
                            );
                        }
                        proof {
                            if ok {
                                assert(bucket_at(sets, a0, p as int) =~= Set::<u32>::empty());
                            }
                        }
                    },
                    Err(e) => {
                        return Err(e);
                    },
                }
            }
            Ok((None, None))
        },
        None => {
            let docids = remaining_pool(ctx, cur.candidates);
            if bitmap_is_empty(&docids) {
                return Ok((None, None));
            }
            let label = take_label(has_parent, bucket, &docids);
            Ok(
                (
                    None,
                    Some(
                        CriterionResult {
                            query_tree: None,
                            candidates: Some(docids),
                            bucket_candidates: label,
                        },
                    ),
                ),
            )
        },
    }
}

fn proximity_next<C: Context>(
    c: &mut ProximityCriterion,
    ctx: &C,
    wdcache: &mut WordDerivationsCache,
) -> (r: Result<Option<CriterionResult>, Error>)
    requires
        old(wdcache).dict() == ctx.model().words,
    ensures
        final(wdcache).dict() == old(wdcache).dict(),
        old(c).ended() ==> (r matches Ok(None)) && *final(c) == *old(c),
        (r matches Ok(None)) ==> final(c).ended(),
        match r {
            Ok(Some(res)) => res.candidates is Some && (!old(c).has_parent() ==> (
            res.candidates matches Some(d) && bitmap_set(res.bucket_candidates) == bitmap_set(d)
                && bitmap_set(d) != Set::<u32>::empty())),
            _ => true,
        },
        old(c).inv(ctx.model()) ==> final(c).inv(ctx.model()),
        old(c).inv(ctx.model()) && !old(c).has_parent() && !old(c).ended() && old(c).live_tree()
            ==> (match r {
            Ok(Some(res)) => final(c).live_tree() && final(c).tree_view() == old(c).tree_view()
                && final(c).pool0() == old(c).pool0() && old(c).level_of() < final(c).level_of()
                <= 8 && (res.candidates matches Some(d) && bitmap_set(d) == bucket_at(
                prox_sets(ctx.model(), old(c).tree_view()),
                old(c).pool0(),
                final(c).level_of() - 1,
            )) && (forall|k: int|
                old(c).level_of() <= k < final(c).level_of() - 1 ==> bucket_at(
                    prox_sets(ctx.model(), old(c).tree_view()),
                    old(c).pool0(),
                    k,
                ) == Set::<u32>::empty()),
            Ok(None) => forall|k: int|
                old(c).level_of() <= k < 8 ==> bucket_at(
                    prox_sets(ctx.model(), old(c).tree_view()),
                    old(c).pool0(),
                    k,
                ) == Set::<u32>::empty(),
            Err(_) => true,
        }),
    decreases parent_height(c.parent), 2int,
{
    if c.drained {
        return Ok(None);
    }
    match c.state.take() {
        Some(st) => {
            match proximity_iterate(ctx, c.parent.is_some(), &mut c.bucket, st, wdcache) {
                Ok((new_state, Some(res))) => {
                    c.state = new_state;
                    return Ok(Some(res));
                },
                Ok((_, None)) => {},
                Err(e) => {
                    return Err(e);
                },
            }
        },
        None => {},
    }
    match &mut c.parent {
        None => {
            c.drained = true;
            Ok(None)
        },
        Some(parent) => {
            match pull_parent(parent, &mut c.bucket, ctx, wdcache) {
                Ok(Some((tree, cands))) => {
                    let ghost a0 = avail_of(cands);
                    let st = ProximityState { tree, candidates: cands, p: 0, avail0: Ghost(a0) };
                    proof {
                        assert(forall|f: spec_fn(int) -> Set<u32>| #[trigger] avail_after(
                            f,
                            a0,
                            0,
                        ) == a0);
                    }
                    match proximity_iterate(ctx, true, &mut c.bucket, st, wdcache) {
                        Ok((new_state, Some(res))) => {
                            c.state = new_state;
                            Ok(Some(res))
                        },
                        Ok((_, None)) => {
                            let empty = bitmap_new();
                            let label = take_label(true, &mut c.bucket, &empty);
                            Ok(Some(CriterionResult {
                                query_tree: None,
                                candidates: Some(empty),
                                bucket_candidates: label,
                            }))
                        },
                        Err(e) => Err(e),
                    }
                },
                Ok(None) => {
                    c.drained = true;
                    Ok(None)
                },
                Err(e) => Err(e),
            }
        },
    }
}

/// Drains one facet-order state to its next non-empty bucket.
fn asc_desc_iterate<C: Context>(
    ctx: &C,
    has_parent: bool,
    ascending: bool,
    bucket: &mut RoaringBitmap,
    st: AscDescState,
    wdcache: &mut WordDerivationsCache,
) -> (r: Result<(Option<AscDescState>, Option<CriterionResult>), Error>)
    requires
        old(wdcache).dict() == ctx.model().words,
    ensures
        final(wdcache).dict() == old(wdcache).dict(),
        match r {
            Ok(p) => (p.1 is None ==> p.0 is None) && (match p.1 {
                Some(res) => res.candidates is Some && (!has_parent ==> (
                res.candidates matches Some(d) && bitmap_set(res.bucket_candidates) == bitmap_set(
                    d,
                ) && bitmap_set(d) != Set::<u32>::empty())),
                None => true,
            }),
            _ => true,
        },
{
    let mut st = st;
    if !ascending && !st.extra_done {
        st.extra_done = true;
        let mut all = ctx.documents_ids();
        let mut faceted = bitmap_new();
        let mut i: usize = 0;
        while i < st.values.len()
            invariant
                wdcache.dict() == old(wdcache).dict(),
            decreases st.values@.len() - i,
        {
            bitmap_union_with(&mut faceted, &st.values[i].1);
            i += 1;
        }
        bitmap_difference_with(&mut all, &faceted);
        let docids = st.candidates.draw(all);
        if !bitmap_is_empty(&docids) {
            return Ok(emit_facet_bucket(has_parent, bucket, st, docids));
        }
    }
    while st.stage < st.values.len()
        invariant
            old(wdcache).dict() == ctx.model().words,
            wdcache.dict() == old(wdcache).dict(),
        decreases st.values@.len() - st.stage,
    {
        let idx = if ascending {
            st.stage
        } else {
            st.values.len() - 1 - st.stage
        };
        st.stage = st.stage + 1;
        let resolved = bitmap_clone(&st.values[idx].1);
        let docids = st.candidates.draw(resolved);
        if !bitmap_is_empty(&docids) {
            return Ok(emit_facet_bucket(has_parent, bucket, st, docids));
        }
    }
    if ascending && !st.extra_done {
        st.extra_done = true;
        let docids = st.candidates.draw(ctx.documents_ids());
        if !bitmap_is_empty(&docids) {
            return Ok(emit_facet_bucket(has_parent, bucket, st, docids));
        }
    }
    Ok((None, None))
}

/// Wraps one non-empty facet bucket with its label and surviving state.
fn emit_facet_bucket(
    has_parent: bool,
    bucket: &mut RoaringBitmap,
    st: AscDescState,
    docids: RoaringBitmap,
) -> (r: (Option<AscDescState>, Option<CriterionResult>))
    requires
        bitmap_set(docids) != Set::<u32>::empty(),
    ensures
        r.1 is Some,
        match r.1 {
            Some(res) => res.candidates is Some && (!has_parent ==> (
            res.candidates matches Some(d) && bitmap_set(res.bucket_candidates) == bitmap_set(d)
                && bitmap_set(d) != Set::<u32>::empty())),
            None => true,
        },
{
    let label = take_label(has_parent, bucket, &docids);
    let narrowed = match &st.tree {
        Some(t) => Some(t.duplicate()),
        None => None,
    };
    (
        Some(st),
        Some(
            CriterionResult {
                query_tree: narrowed,
                candidates: Some(docids),
                bucket_candidates: label,
            },
        ),
    )
}

fn asc_desc_next<C: Context>(
    c: &mut AscDescCriterion,
    ctx: &C,
    wdcache: &mut WordDerivationsCache,
) -> (r: Result<Option<CriterionResult>, Error>)
    requires
        old(wdcache).dict() == ctx.model().words,
    ensures
        final(wdcache).dict() == old(wdcache).dict(),
        old(c).ended() ==> (r matches Ok(None)) && *final(c) == *old(c),
        (r matches Ok(None)) ==> final(c).ended(),
        match r {
            Ok(Some(res)) => res.candidates is Some && (!old(c).has_parent() ==> (
            res.candidates matches Some(d) && bitmap_set(res.bucket_candidates) == bitmap_set(d)
                && bitmap_set(d) != Set::<u32>::empty())),
            _ => true,
        },
    decreases parent_height(c.parent), 2int,
{
    if c.drained {
        return Ok(None);
    }
    match c.state.take() {
        Some(st) => {
            match asc_desc_iterate(
                ctx,
                c.parent.is_some(),
                c.ascending,
                &mut c.bucket,
                st,
                wdcache,
            ) {
                Ok((new_state, Some(res))) => {
                    c.state = new_state;
                    return Ok(Some(res));
                },
                Ok((_, None)) => {},
                Err(e) => {
                    return Err(e);
                },
            }
        },
        None => {},
    }
    match &mut c.parent {
        None => {
            c.drained = true;
            Ok(None)
        },
        Some(parent) => {
            match pull_parent(parent, &mut c.bucket, ctx, wdcache) {
                Ok(Some((tree, cands))) => {
                    let values = ctx.facet_number_values(c.field.as_str());
                    let st = AscDescState {
                        tree,
                        candidates: cands,
                        values,
                        stage: 0,
                        extra_done: false,
                    };
                    match asc_desc_iterate(
                        ctx,
                        true,
                        c.ascending,
                        &mut c.bucket,
                        st,
                        wdcache,
                    ) {
                        Ok((new_state, Some(res))) => {
                            c.state = new_state;
                            Ok(Some(res))
                        },
                        Ok((_, None)) => {
                            let empty = bitmap_new();
                            let label = take_label(true, &mut c.bucket, &empty);
                            Ok(Some(CriterionResult {
                                query_tree: None,
                                candidates: Some(empty),
                                bucket_candidates: label,
                            }))
                        },
                        Err(e) => Err(e),
                    }
                },
                Ok(None) => {
                    c.drained = true;
                    Ok(None)
                },
                Err(e) => Err(e),
            }
        },
    }
}

impl TypoCriterion {
    /// Whether this criterion's stream has ended.
    pub closed spec fn ended(self) -> bool {
        self.drained
    }

    /// Whether a state with a textual constraint is in hand.
    pub closed spec fn live_tree(self) -> bool {
        self.state is Some && self.state->0.tree is Some
    }

    /// The tree of the state in hand.
    pub closed spec fn tree_view(self) -> OpView
        recommends
            self.live_tree(),
    {
        self.state->0.tree->0@
    }

    /// The next typo level the state in hand will try.
    pub closed spec fn level_of(self) -> int
        recommends
            self.live_tree(),
    {
        self.state->0.level as int
    }

    /// The pool the state in hand started from.
    pub closed spec fn pool0(self) -> Set<u32>
        recommends
            self.live_tree(),
    {
        self.state->0.avail0@
    }

    /// The drain invariant: what the state still admits is exactly what
    /// remains of its starting pool after the levels already tried, so
    /// each emitted bucket is a `bucket_at` of the typo level family.
    pub closed spec fn inv(self, m: IndexModel) -> bool {
        match self.state {
            Some(st) => match st.tree {
                Some(t) => st.level <= 3 && avail_of(st.candidates) == avail_after(
                    typo_sets(m, t@),
                    st.avail0@,
                    st.level as int,
                ),
                None => true,
            },
            None => true,
        }
    }

    /// Whether this criterion wraps a parent.
    pub closed spec fn has_parent(self) -> bool {
        self.parent is Some
    }

    /// The wrapped parent.
    pub closed spec fn parent_of(self) -> CriterionStack
        recommends
            self.has_parent(),
    {
        *self.parent->0
    }

    /// The seed tree held by a fresh initial criterion.
    pub closed spec fn seed_tree(self) -> Option<OpView> {
        match self.state {
            Some(st) => match st.tree {
                Some(t) => Some(t@),
                None => None,
            },
            None => None,
        }
    }

    /// The documents a fresh initial criterion may emit.
    pub closed spec fn seed_avail(self) -> Set<u32> {
        avail_of(self.state->0.candidates)
    }

    /// Wraps a parent criterion.
    pub fn new(parent: Box<CriterionStack>) -> (r: Self)
        ensures
            !r.ended(),
            r.has_parent(),
            r.parent_of() == *parent,
            forall|m: IndexModel| #[trigger] r.inv(m),
    {
        TypoCriterion { parent: Some(parent), state: None, bucket: bitmap_new(), drained: false }
    }

    /// The initial criterion, seeded with the query tree and pool.
    pub fn initial(
        query_tree: Option<Operation>,
        facet_candidates: Option<RoaringBitmap>,
    ) -> (r: Self)
        ensures
            !r.ended(),
            !r.has_parent(),
            r.seed_tree() == (match query_tree {
                Some(t) => Some(t@),
                None => None::<OpView>,
            }),
            r.seed_avail() == (match facet_candidates {
                Some(cb) => bitmap_set(cb),
                None => Set::new(|x: u32| true),
            }),
            r.live_tree() <==> query_tree is Some,
            r.live_tree() ==> r.tree_view() == query_tree->0@,
            r.level_of() == 0,
            r.pool0() == r.seed_avail(),
            forall|m: IndexModel| #[trigger] r.inv(m),
    {
        let candidates = match facet_candidates {
            Some(cb) => Candidates::Allowed(cb),
            None => Candidates::Forbidden(bitmap_new()),
        };
        proof {
            assert(avail_of(candidates) =~= (match facet_candidates {
                Some(cb) => bitmap_set(cb),
                None => Set::new(|x: u32| true),
            }));
        }
        let ghost a0 = avail_of(candidates);
        TypoCriterion {
            parent: None,
            state: Some(TypoState { tree: query_tree, candidates, level: 0, avail0: Ghost(a0) }),
            bucket: bitmap_new(),
            drained: false,
        }
    }
}

impl WordsCriterion {
    /// Whether this criterion's stream has ended.
    pub closed spec fn ended(self) -> bool {
        self.drained
    }

    /// Whether this criterion wraps a parent.
    pub closed spec fn has_parent(self) -> bool {
        self.parent is Some
    }

    /// The wrapped parent.
    pub closed spec fn parent_of(self) -> CriterionStack
        recommends
            self.has_parent(),
    {
        *self.parent->0
    }

    /// The seed tree held by a fresh initial criterion.
    pub closed spec fn seed_tree(self) -> Option<OpView> {
        match self.state {
            Some(st) => match st.tree {
                Some(t) => Some(t@),
                None => None,
            },
            None => None,
        }
    }

    /// The documents a fresh initial criterion may emit.
    pub closed spec fn seed_avail(self) -> Set<u32> {
        avail_of(self.state->0.candidates)
    }

    /// Wraps a parent criterion.
    pub fn new(parent: Box<CriterionStack>) -> (r: Self)
        ensures
            !r.ended(),
            r.has_parent(),
            r.parent_of() == *parent,
    {
        WordsCriterion { parent: Some(parent), state: None, bucket: bitmap_new(), drained: false }
    }

    /// The initial criterion, seeded with the query tree and pool.
    pub fn initial(
        query_tree: Option<Operation>,
        facet_candidates: Option<RoaringBitmap>,
    ) -> (r: Self)
        ensures
            !r.ended(),
            !r.has_parent(),
            r.seed_tree() == (match query_tree {
                Some(t) => Some(t@),
                None => None::<OpView>,
            }),
            r.seed_avail() == (match facet_candidates {
                Some(cb) => bitmap_set(cb),
                None => Set::new(|x: u32| true),
            }),
    {
        let candidates = match facet_candidates {
            Some(cb) => Candidates::Allowed(cb),
            None => Candidates::Forbidden(bitmap_new()),
        };
        proof {
            assert(avail_of(candidates) =~= (match facet_candidates {
                Some(cb) => bitmap_set(cb),
                None => Set::new(|x: u32| true),
            }));
        }
        let k = match &query_tree {
            Some(Operation::And(ops)) => ops.len(),
            _ => 1,
        };
        WordsCriterion {
            parent: None,
            state: Some(WordsState { tree: query_tree, candidates, k }),
            bucket: bitmap_new(),
            drained: false,
        }
    }
}

impl ProximityCriterion {
    /// Whether this criterion's stream has ended.
    pub closed spec fn ended(self) -> bool {
        self.drained
    }

    /// Whether a state with a textual constraint is in hand.
    pub closed spec fn live_tree(self) -> bool {
        self.state is Some && self.state->0.tree is Some
    }

    /// The tree of the state in hand.
    pub closed spec fn tree_view(self) -> OpView
        recommends
            self.live_tree(),
    {
        self.state->0.tree->0@
    }

    /// The next distance the state in hand will try.
    pub closed spec fn level_of(self) -> int
        recommends
            self.live_tree(),
    {
        self.state->0.p as int
    }

    /// The pool the state in hand started from.
    pub closed spec fn pool0(self) -> Set<u32>
        recommends
            self.live_tree(),
    {
        self.state->0.avail0@
    }

    /// The drain invariant: what the state still admits is exactly what
    /// remains of its starting pool after the distances already tried,
    /// so each emitted bucket is a `bucket_at` of the proximity family.
    pub closed spec fn inv(self, m: IndexModel) -> bool {
        match self.state {
            Some(st) => match st.tree {
                Some(t) => st.p <= 8 && avail_of(st.candidates) == avail_after(
                    prox_sets(m, t@),
                    st.avail0@,
                    st.p as int,
                ),
                None => true,
            },
            None => true,
        }
    }

    /// Whether this criterion wraps a parent.
    pub closed spec fn has_parent(self) -> bool {
        self.parent is Some
    }

    /// The wrapped parent.
    pub closed spec fn parent_of(self) -> CriterionStack
        recommends
            self.has_parent(),
    {
        *self.parent->0
    }

    /// The seed tree held by a fresh initial criterion.
    pub closed spec fn seed_tree(self) -> Option<OpView> {
        match self.state {
            Some(st) => match st.tree {
                Some(t) => Some(t@),
                None => None,
            },
            None => None,
        }
    }

    /// The documents a fresh initial criterion may emit.
    pub closed spec fn seed_avail(self) -> Set<u32> {
        avail_of(self.state->0.candidates)
    }

    /// Wraps a parent criterion.
    pub fn new(parent: Box<CriterionStack>) -> (r: Self)
        ensures
            !r.ended(),
            r.has_parent(),
            r.parent_of() == *parent,
            forall|m: IndexModel| #[trigger] r.inv(m),
    {
        ProximityCriterion {
            parent: Some(parent),
            state: None,
            bucket: bitmap_new(),
            drained: false,
        }
    }

    /// The initial criterion, seeded with the query tree and pool.
    pub fn initial(
        query_tree: Option<Operation>,
        facet_candidates: Option<RoaringBitmap>,
    ) -> (r: Self)
        ensures
            !r.ended(),
            !r.has_parent(),
            r.seed_tree() == (match query_tree {
                Some(t) => Some(t@),
                None => None::<OpView>,
            }),
            r.seed_avail() == (match facet_candidates {
                Some(cb) => bitmap_set(cb),
                None => Set::new(|x: u32| true),
            }),
            r.live_tree() <==> query_tree is Some,
            r.live_tree() ==> r.tree_view() == query_tree->0@,
            r.level_of() == 0,
            r.pool0() == r.seed_avail(),
            forall|m: IndexModel| #[trigger] r.inv(m),
    {
        let candidates = match facet_candidates {
            Some(cb) => Candidates::Allowed(cb),
            None => Candidates::Forbidden(bitmap_new()),
        };
        proof {
            assert(avail_of(candidates) =~= (match facet_candidates {
                Some(cb) => bitmap_set(cb),
                None => Set::new(|x: u32| true),
            }));
        }
        let ghost a0 = avail_of(candidates);
        ProximityCriterion {
            parent: None,
            state: Some(
                ProximityState { tree: query_tree, candidates, p: 0, avail0: Ghost(a0) },
            ),
            bucket: bitmap_new(),
            drained: false,
        }
    }
}

impl AscDescCriterion {
    /// Whether this criterion's stream has ended.
    pub closed spec fn ended(self) -> bool {
        self.drained
    }

    /// Whether this criterion wraps a parent.
    pub closed spec fn has_parent(self) -> bool {
        self.parent is Some
    }

    /// The wrapped parent.
    pub closed spec fn parent_of(self) -> CriterionStack
        recommends
            self.has_parent(),
    {
        *self.parent->0
    }

    /// The facet field this criterion orders by.
    pub closed spec fn field_name(self) -> Seq<char> {
        self.field@
    }

    /// Whether the order is ascending.
    pub closed spec fn is_ascending(self) -> bool {
        self.ascending
    }

    /// The seed tree held by a fresh initial criterion.
    pub closed spec fn seed_tree(self) -> Option<OpView> {
        match self.state {
            Some(st) => match st.tree {
                Some(t) => Some(t@),
                None => None,
            },
            None => None,
        }
    }

    /// The documents a fresh initial criterion may emit.
    pub closed spec fn seed_avail(self) -> Set<u32> {
        avail_of(self.state->0.candidates)
    }

    /// Wraps a parent criterion, ascending on `field`.
    pub fn asc(parent: Box<CriterionStack>, field: String) -> (r: Self)
        ensures
            !r.ended(),
            r.has_parent(),
            r.parent_of() == *parent,
            r.field_name() == field@,
            r.is_ascending(),
    {
        AscDescCriterion {
            parent: Some(parent),
            state: None,
            bucket: bitmap_new(),
            drained: false,
            field,
            ascending: true,
        }
    }

    /// Wraps a parent criterion, descending on `field`.
    pub fn desc(parent: Box<CriterionStack>, field: String) -> (r: Self)
        ensures
            !r.ended(),
            r.has_parent(),
            r.parent_of() == *parent,
            r.field_name() == field@,
            !r.is_ascending(),
    {
        AscDescCriterion {
            parent: Some(parent),
            state: None,
            bucket: bitmap_new(),
            drained: false,
            field,
            ascending: false,
        }
    }

    /// The initial ascending criterion, seeded with the query tree and
    /// pool; the facet table is read from `ctx` at construction.
    pub fn initial_asc<C: Context>(
        ctx: &C,
        query_tree: Option<Operation>,
        facet_candidates: Option<RoaringBitmap>,
        field: String,
    ) -> (r: Self)
        ensures
            !r.ended(),
            !r.has_parent(),
            r.field_name() == field@,
            r.is_ascending(),
            r.seed_tree() == (match query_tree {
                Some(t) => Some(t@),
                None => None::<OpView>,
            }),
            r.seed_avail() == (match facet_candidates {
                Some(cb) => bitmap_set(cb),
                None => Set::new(|x: u32| true),
            }),
    {
        Self::initial_with(ctx, query_tree, facet_candidates, field, true)
    }

    /// The initial descending criterion.
    pub fn initial_desc<C: Context>(
        ctx: &C,
        query_tree: Option<Operation>,
        facet_candidates: Option<RoaringBitmap>,
        field: String,
    ) -> (r: Self)
        ensures
            !r.ended(),
            !r.has_parent(),
            r.field_name() == field@,
            !r.is_ascending(),
            r.seed_tree() == (match query_tree {
                Some(t) => Some(t@),
                None => None::<OpView>,
            }),
            r.seed_avail() == (match facet_candidates {
                Some(cb) => bitmap_set(cb),
                None => Set::new(|x: u32| true),
            }),
    {
        Self::initial_with(ctx, query_tree, facet_candidates, field, false)
    }

    fn initial_with<C: Context>(
        ctx: &C,
        query_tree: Option<Operation>,
        facet_candidates: Option<RoaringBitmap>,
        field: String,
        ascending: bool,
    ) -> (r: Self)
        ensures
            !r.ended(),
            !r.has_parent(),
            r.field_name() == field@,
            r.is_ascending() == ascending,
            r.seed_tree() == (match query_tree {
                Some(t) => Some(t@),
                None => None::<OpView>,
            }),
            r.seed_avail() == (match facet_candidates {
                Some(cb) => bitmap_set(cb),
                None => Set::new(|x: u32| true),
            }),
    {
        let candidates = match facet_candidates {
            Some(cb) => Candidates::Allowed(cb),
            None => Candidates::Forbidden(bitmap_new()),
        };
        proof {
            assert(avail_of(candidates) =~= (match facet_candidates {
                Some(cb) => bitmap_set(cb),
                None => Set::new(|x: u32| true),
            }));
        }
        let values = ctx.facet_number_values(field.as_str());
        AscDescCriterion {
            parent: None,
            state: Some(
                AscDescState { tree: query_tree, candidates, values, stage: 0, extra_done: false },
            ),
            bucket: bitmap_new(),
            drained: false,
            field,
            ascending,
        }
    }
}

/// Drains the topmost criterion and hands each bucket on, computing the
/// bucket's candidate documents when the criterion left them implicit.
/// End of stream is absorbing.
pub struct Fetcher {
    criterion: Option<CriterionStack>,
    query_tree: Option<Operation>,
    candidates: Option<RoaringBitmap>,
    done: bool,
}

impl Fetcher {
    /// Whether the stream has ended.
    pub closed spec fn ended(self) -> bool {
        self.done
    }

    /// Whether a criterion pipeline stands behind this fetcher.
    pub closed spec fn has_criterion(self) -> bool {
        self.criterion is Some
    }

    /// The pipeline behind this fetcher.
    pub closed spec fn criterion_of(self) -> CriterionStack {
        self.criterion->0
    }

    /// The seed tree of a fetcher without a criterion.
    pub closed spec fn seed_tree(self) -> Option<OpView> {
        match self.query_tree {
            Some(t) => Some(t@),
            None => None,
        }
    }

    /// The seed candidates of a fetcher without a criterion.
    pub closed spec fn seed_candidates(self) -> Option<Set<u32>> {
        match self.candidates {
            Some(b) => Some(bitmap_set(b)),
            None => None,
        }
    }

    /// A fetcher over a built pipeline.
    pub fn new(criterion: CriterionStack) -> (r: Fetcher)
        ensures
            !r.ended(),
            r.has_criterion(),
            r.criterion_of() == criterion,
    {
        Fetcher { criterion: Some(criterion), query_tree: None, candidates: None, done: false }
    }

    /// A fetcher with no criterion at all: one bucket holding the whole
    /// resolution of the seed.
    pub fn initial(
        query_tree: Option<Operation>,
        candidates: Option<RoaringBitmap>,
    ) -> (r: Fetcher)
        ensures
            !r.ended(),
            !r.has_criterion(),
            r.seed_tree() == (match query_tree {
                Some(t) => Some(t@),
                None => None::<OpView>,
            }),
            r.seed_candidates() == (match candidates {
                Some(b) => Some(bitmap_set(b)),
                None => None::<Set<u32>>,
            }),
    {
        Fetcher { criterion: None, query_tree, candidates, done: false }
    }

    /// The following bucket of the ranked stream. A returned bucket's
    /// candidate set is always materialized. Without a criterion, the
    /// single bucket holds the seed candidates, or the seed tree's
    /// resolution, or every document, and errs exactly when the seed
    /// tree must be resolved and is malformed.
    pub fn next<C: Context>(
        &mut self,
        ctx: &C,
        wdcache: &mut WordDerivationsCache,
    ) -> (r: Result<Option<CriterionResult>, Error>)
        requires
            old(wdcache).dict() == ctx.model().words,
        ensures
            final(wdcache).dict() == old(wdcache).dict(),
            old(self).ended() ==> (r matches Ok(None)) && *final(self) == *old(self),
            (r matches Ok(None)) ==> final(self).ended(),
            match r {
                Ok(Some(res)) => res.candidates is Some,
                _ => true,
            },
            (*old(self)).has_criterion() ==> (old(self).criterion_of() matches
                CriterionStack::Typo(c0) ==> (c0.inv(ctx.model()) && !old(self).ended() ==> (
            final(self).criterion_of() matches CriterionStack::Typo(c1)
                && final(self).has_criterion() && c1.inv(ctx.model()) && ((!c0.has_parent()
                && !c0.ended() && c0.live_tree()) ==> (match r {
                Ok(Some(res)) => c1.live_tree() && c1.tree_view() == c0.tree_view() && c1.pool0()
                    == c0.pool0() && c0.level_of() < c1.level_of() <= 3 && (
                res.candidates matches Some(d) && bitmap_set(d) == bucket_at(
                    typo_sets(ctx.model(), c0.tree_view()),
                    c0.pool0(),
                    c1.level_of() - 1,
                )) && (forall|k: int|
                    c0.level_of() <= k < c1.level_of() - 1 ==> bucket_at(
                        typo_sets(ctx.model(), c0.tree_view()),
                        c0.pool0(),
                        k,
                    ) == Set::<u32>::empty()),
                Ok(None) => forall|k: int|
                    c0.level_of() <= k < 3 ==> bucket_at(
                        typo_sets(ctx.model(), c0.tree_view()),
                        c0.pool0(),
                        k,
                    ) == Set::<u32>::empty(),
                Err(_) => true,
            }))))),
            (*old(self)).has_criterion() ==> (old(self).criterion_of() matches
                CriterionStack::Proximity(c0) ==> (c0.inv(ctx.model()) && !old(self).ended()
                ==> (final(self).criterion_of() matches CriterionStack::Proximity(c1)
                && final(self).has_criterion() && c1.inv(ctx.model()) && ((!c0.has_parent()
                && !c0.ended() && c0.live_tree()) ==> (match r {
                Ok(Some(res)) => c1.live_tree() && c1.tree_view() == c0.tree_view() && c1.pool0()
                    == c0.pool0() && c0.level_of() < c1.level_of() <= 8 && (
                res.candidates matches Some(d) && bitmap_set(d) == bucket_at(
                    prox_sets(ctx.model(), c0.tree_view()),
                    c0.pool0(),
                    c1.level_of() - 1,
                )) && (forall|k: int|
                    c0.level_of() <= k < c1.level_of() - 1 ==> bucket_at(
                        prox_sets(ctx.model(), c0.tree_view()),
                        c0.pool0(),
                        k,
                    ) == Set::<u32>::empty()),
                Ok(None) => forall|k: int|
                    c0.level_of() <= k < 8 ==> bucket_at(
                        prox_sets(ctx.model(), c0.tree_view()),
                        c0.pool0(),
                        k,
                    ) == Set::<u32>::empty(),
                Err(_) => true,
            }))))),
            !old(self).has_criterion() && !old(self).ended() ==> match r {
                Ok(Some(res)) => final(self).ended() && (match res.candidates {
                    Some(d) => bitmap_set(d) == (match old(self).seed_candidates() {
                        Some(cs) => cs,
                        None => match old(self).seed_tree() {
                            Some(t) => spec_resolve(ctx.model(), t),
                            None => ctx.model().documents,
                        },
                    }) && bitmap_set(res.bucket_candidates) == bitmap_set(d),
                    None => false,
                }),
                Ok(None) => false,
                Err(e) => old(self).seed_candidates() is None && (match old(
                    self,
                ).seed_tree() {
                    Some(t) => !tree_wf(t),
                    None => false,
                }) && e == Error::InvalidConsecutive,
            },
    {
        if self.done {
            return Ok(None);
        }
        match &mut self.criterion {
            Some(c) => {
                match Criterion::next(c, ctx, wdcache) {
                    Ok(Some(res)) => {
                        let mut res = res;
                        if res.candidates.is_none() {
                            let docids = match &res.query_tree {
                                Some(t) => match resolve_query_tree(ctx, t, wdcache) {
                                    Ok(b) => b,
                                    Err(e) => {
                                        return Err(e);
                                    },
                                },
                                None => ctx.documents_ids(),
                            };
                            res.candidates = Some(docids);
                        }
                        Ok(Some(res))
                    },
                    Ok(None) => {
                        self.done = true;
                        Ok(None)
                    },
                    Err(e) => Err(e),
                }
            },
            None => {
                self.done = true;
                let qt = self.query_tree.take();
                let docids = match self.candidates.take() {
                    Some(cb) => cb,
                    None => match &qt {
                        Some(t) => match resolve_query_tree(ctx, t, wdcache) {
                            Ok(b) => b,
                            Err(e) => {
                                return Err(e);
                            },
                        },
                        None => ctx.documents_ids(),
                    },
                };
                let label = bitmap_clone(&docids);
                Ok(Some(CriterionResult {
                    query_tree: qt,
                    candidates: Some(docids),
                    bucket_candidates: label,
                }))
            },
        }
    }
}

/// A recognized ranking rule, as the chain structure records it.
#[verifier::ext_equal]
pub enum RuleKind {
    Typo,
    Words,
    Proximity,
    Asc(Seq<char>),
    Desc(Seq<char>),
}

/// Whether the builder recognizes a configured name.
pub open spec fn recognized(name: CriterionName) -> bool {
    match name {
        CriterionName::Typo => true,
        CriterionName::Words => true,
        CriterionName::Proximity => true,
        CriterionName::Asc(_) => true,
        CriterionName::Desc(_) => true,
        _ => false,
    }
}

/// The rule a recognized name stands for.
pub open spec fn kind_of(name: CriterionName) -> RuleKind
    recommends
        recognized(name),
{
    match name {
        CriterionName::Typo => RuleKind::Typo,
        CriterionName::Words => RuleKind::Words,
        CriterionName::Proximity => RuleKind::Proximity,
        CriterionName::Asc(f) => RuleKind::Asc(f@),
        CriterionName::Desc(f) => RuleKind::Desc(f@),
        _ => RuleKind::Typo,
    }
}

/// The recognized rules of a name list, in configured order.
pub open spec fn recognized_kinds(names: Seq<CriterionName>) -> Seq<RuleKind>
    decreases names,
{
    if names.len() == 0 {
        Seq::empty()
    } else {
        (if recognized(names[0]) {
            seq![kind_of(names[0])]
        } else {
            Seq::empty()
        }) + recognized_kinds(names.drop_first())
    }
}

/// The rules a built chain holds, innermost (initial) first.
pub closed spec fn stack_kinds(s: CriterionStack) -> Seq<RuleKind>
    decreases s,
{
    match s {
        CriterionStack::Typo(c) => parent_kinds(c.parent) + seq![RuleKind::Typo],
        CriterionStack::Words(c) => parent_kinds(c.parent) + seq![RuleKind::Words],
        CriterionStack::Proximity(c) => parent_kinds(c.parent) + seq![RuleKind::Proximity],
        CriterionStack::AscDesc(c) => parent_kinds(c.parent) + seq![
            if c.ascending {
                RuleKind::Asc(c.field@)
            } else {
                RuleKind::Desc(c.field@)
            },
        ],
    }
}

/// The rules of an optional parent chain.
pub closed spec fn parent_kinds(p: Option<Box<CriterionStack>>) -> Seq<RuleKind>
    decreases p,
{
    match p {
        Some(b) => stack_kinds(*b),
        None => Seq::empty(),
    }
}

/// The seed tree held by the initial criterion at the bottom of a chain.
pub closed spec fn stack_seed_tree(s: CriterionStack) -> Option<OpView>
    decreases s,
{
    match s {
        CriterionStack::Typo(c) => match c.parent {
            Some(b) => stack_seed_tree(*b),
            None => c.seed_tree(),
        },
        CriterionStack::Words(c) => match c.parent {
            Some(b) => stack_seed_tree(*b),
            None => c.seed_tree(),
        },
        CriterionStack::Proximity(c) => match c.parent {
            Some(b) => stack_seed_tree(*b),
            None => c.seed_tree(),
        },
        CriterionStack::AscDesc(c) => match c.parent {
            Some(b) => stack_seed_tree(*b),
            None => c.seed_tree(),
        },
    }
}

/// The candidate pool held by the initial criterion of a chain.
pub closed spec fn stack_seed_avail(s: CriterionStack) -> Set<u32>
    decreases s,
{
    match s {
        CriterionStack::Typo(c) => match c.parent {
            Some(b) => stack_seed_avail(*b),
            None => c.seed_avail(),
        },
        CriterionStack::Words(c) => match c.parent {
            Some(b) => stack_seed_avail(*b),
            None => c.seed_avail(),
        },
        CriterionStack::Proximity(c) => match c.parent {
            Some(b) => stack_seed_avail(*b),
            None => c.seed_avail(),
        },
        CriterionStack::AscDesc(c) => match c.parent {
            Some(b) => stack_seed_avail(*b),
            None => c.seed_avail(),
        },
    }
}

/// Assembles the criterion pipeline from the configured order.
pub struct CriteriaBuilder {
    criteria: Vec<CriterionName>,
}

/// Appending a name appends its rule, if the name is recognized.
proof fn lemma_recognized_kinds_push(s: Seq<CriterionName>, x: CriterionName)
    ensures
        recognized_kinds(s.push(x)) == recognized_kinds(s) + (if recognized(x) {
            seq![kind_of(x)]
        } else {
            Seq::<RuleKind>::empty()
        }),
    decreases s,
{
    if s.len() == 0 {
        assert(s.push(x)[0] == x);
        assert(s.push(x).drop_first() =~= Seq::<CriterionName>::empty());
        assert(recognized_kinds(s.push(x).drop_first()) =~= Seq::<RuleKind>::empty());
        assert(recognized_kinds(s) =~= Seq::<RuleKind>::empty());
        assert(recognized_kinds(s.push(x)) =~= recognized_kinds(s) + (if recognized(x) {
            seq![kind_of(x)]
        } else {
            Seq::<RuleKind>::empty()
        }));
    } else {
        assert(s.push(x)[0] == s[0]);
        assert(s.push(x).drop_first() =~= s.drop_first().push(x));
        lemma_recognized_kinds_push(s.drop_first(), x);
        assert(recognized_kinds(s.push(x)) =~= recognized_kinds(s) + (if recognized(x) {
            seq![kind_of(x)]
        } else {
            Seq::<RuleKind>::empty()
        }));
    }
}

impl CriteriaBuilder {
    /// The configured criterion order.
    pub closed spec fn names(self) -> Seq<CriterionName> {
        self.criteria@
    }

    /// A builder over the configured criterion order.
    pub fn new(criteria: Vec<CriterionName>) -> (r: Self)
        ensures
            r.names() == criteria@,
    {
        CriteriaBuilder { criteria }
    }

    /// Builds the pipeline bottom-up: the first recognized name becomes
    /// the initial criterion and is seeded with the query tree and the
    /// facet candidate pool; each later recognized name wraps the
    /// previous one, so the chain holds exactly the recognized rules in
    /// configured order. An unrecognized name in initial position is
    /// skipped; in wrapping position it passes the parent through. With
    /// no recognized name at all the fetcher serves the seed directly.
    pub fn build<C: Context>(
        self,
        ctx: &C,
        query_tree: Option<Operation>,
        facet_candidates: Option<RoaringBitmap>,
    ) -> (r: Fetcher)
        ensures
            !r.ended(),
            r.has_criterion() <==> recognized_kinds(self.names()).len() > 0,
            r.has_criterion() ==> stack_kinds(r.criterion_of()) == recognized_kinds(self.names())
                && stack_seed_tree(r.criterion_of()) == (match query_tree {
                Some(t) => Some(t@),
                None => None::<OpView>,
            }) && stack_seed_avail(r.criterion_of()) == (match facet_candidates {
                Some(cb) => bitmap_set(cb),
                None => Set::new(|x: u32| true),
            }),
            !r.has_criterion() ==> r.seed_tree() == (match query_tree {
                Some(t) => Some(t@),
                None => None::<OpView>,
            }) && r.seed_candidates() == (match facet_candidates {
                Some(cb) => Some(bitmap_set(cb)),
                None => None::<Set<u32>>,
            }),
    {
        let ghost seed_tree_view: Option<OpView> = match &query_tree {
            Some(t) => Some(t@),
            None => None,
        };
        let ghost seed_cand_opt: Option<Set<u32>> = match &facet_candidates {
            Some(cb) => Some(bitmap_set(*cb)),
            None => None,
        };
        let ghost seed_avail_view: Set<u32> = match &facet_candidates {
            Some(cb) => bitmap_set(*cb),
            None => Set::new(|x: u32| true),
        };
        let mut query_tree = query_tree;
        let mut facet_candidates = facet_candidates;
        let mut criterion: Option<CriterionStack> = None;
        let names = self.criteria;
        let ghost all = names@;
        let mut i: usize = 0;
        proof {
            assert(recognized_kinds(all.take(0)) =~= Seq::<RuleKind>::empty());
        }
        while i < names.len()
            invariant
                i <= all.len(),
                all == names@,
                all == self.names(),
                seed_avail_view == (match seed_cand_opt {
                    Some(cs) => cs,
                    None => Set::new(|x: u32| true),
                }),
                match criterion {
                    Some(ch) => recognized_kinds(all.take(i as int)) == stack_kinds(ch)
                        && stack_kinds(ch).len() > 0 && stack_seed_tree(ch) == seed_tree_view
                        && stack_seed_avail(ch) == seed_avail_view,
                    None => recognized_kinds(all.take(i as int)).len() == 0 && (match query_tree {
                        Some(t) => Some(t@),
                        None => None::<OpView>,
                    }) == seed_tree_view && (match facet_candidates {
                        Some(cb) => Some(bitmap_set(cb)),
                        None => None::<Set<u32>>,
                    }) == seed_cand_opt,
                },
            decreases all.len() - i,
        {
            let name = &names[i];
            proof {
                assert(all.take(i + 1) =~= all.take(i as int).push(all[i as int]));
                lemma_recognized_kinds_push(all.take(i as int), all[i as int]);
            }
            criterion = match criterion.take() {
                Some(father) => {
                    let ghost gfather = father;
                    let next_chain = match name {
                        CriterionName::Typo => CriterionStack::Typo(
                            TypoCriterion::new(Box::new(father)),
                        ),
                        CriterionName::Words => CriterionStack::Words(
                            WordsCriterion::new(Box::new(father)),
                        ),
                        CriterionName::Proximity => CriterionStack::Proximity(
                            ProximityCriterion::new(Box::new(father)),
                        ),
                        CriterionName::Asc(field) => CriterionStack::AscDesc(
                            AscDescCriterion::asc(Box::new(father), field.clone()),
                        ),
                        CriterionName::Desc(field) => CriterionStack::AscDesc(
                            AscDescCriterion::desc(Box::new(father), field.clone()),
                        ),
                        _ => father,
                    };
                    proof {
                        if recognized(all[i as int]) {
                            assert(stack_kinds(next_chain) =~= stack_kinds(gfather) + seq![
                                kind_of(all[i as int]),
                            ]);
                            assert(stack_seed_tree(next_chain) == stack_seed_tree(gfather));
                            assert(stack_seed_avail(next_chain) == stack_seed_avail(gfather));
                        } else {
                            assert(next_chain == gfather);
                        }
                    }
                    Some(next_chain)
                },
                None => match name {
                    CriterionName::Typo => Some(
                        CriterionStack::Typo(
                            TypoCriterion::initial(query_tree.take(), facet_candidates.take()),
                        ),
                    ),
                    CriterionName::Words => Some(
                        CriterionStack::Words(
                            WordsCriterion::initial(query_tree.take(), facet_candidates.take()),
                        ),
                    ),
                    CriterionName::Proximity => Some(
                        CriterionStack::Proximity(
                            ProximityCriterion::initial(
                                query_tree.take(),
                                facet_candidates.take(),
                            ),
                        ),
                    ),
                    CriterionName::Asc(field) => Some(
                        CriterionStack::AscDesc(
                            AscDescCriterion::initial_asc(
                                ctx,
                                query_tree.take(),
                                facet_candidates.take(),
                                field.clone(),
                            ),
                        ),
                    ),
                    CriterionName::Desc(field) => Some(
                        CriterionStack::AscDesc(
                            AscDescCriterion::initial_desc(
                                ctx,
                                query_tree.take(),
                                facet_candidates.take(),
                                field.clone(),
                            ),
                        ),
                    ),
                    _ => None,
                },
            };
            i += 1;
        }
        proof {
            assert(all.take(i as int) =~= all);
        }
        match criterion {
            Some(c) => Fetcher::new(c),
            None => Fetcher::initial(query_tree, facet_candidates),
        }
    }
}

/// The per-level constraint family of the typo criterion: what the tree
/// narrowed to `k` typos resolves to.
pub open spec fn typo_sets(m: IndexModel, t: OpView) -> spec_fn(int) -> Set<u32> {
    |k: int|
        if 0 <= k <= 255 {
            spec_resolve(m, narrow_view(t, k as u8))
        } else {
            Set::empty()
        }
}

/// The per-level constraint family of the proximity criterion: what the
/// tree resolves to with its adjacent-leaf constraints at distance at
/// most `p`.
pub open spec fn prox_sets(m: IndexModel, t: OpView) -> spec_fn(int) -> Set<u32> {
    |p: int|
        if 0 <= p <= 255 {
            prox_resolve_at(m, t, p as u8)
        } else {
            Set::empty()
        }
}

/// Disjointness of the typo drain: no document appears in the buckets
/// of two different typo levels.
pub proof fn lemma_typo_buckets_disjoint(
    m: IndexModel,
    t: OpView,
    avail0: Set<u32>,
    k1: int,
    k2: int,
)
    requires
        0 <= k1 < k2,
    ensures
        bucket_at(typo_sets(m, t), avail0, k1).disjoint(bucket_at(typo_sets(m, t), avail0, k2)),
{
    lemma_buckets_disjoint(typo_sets(m, t), avail0, k1, k2);
}

/// Monotonicity of the typo drain: a document emitted at typo level `k2`
/// matches the tree at no level below it.
pub proof fn lemma_typo_monotonic(m: IndexModel, t: OpView, avail0: Set<u32>, k1: int, k2: int)
    requires
        0 <= k1 < k2 <= 255,
    ensures
        bucket_at(typo_sets(m, t), avail0, k2).disjoint(
            spec_resolve(m, narrow_view(t, k1 as u8)),
        ),
{
    lemma_bucket_not_earlier(typo_sets(m, t), avail0, k1, k2);
    assert(typo_sets(m, t)(k1) == spec_resolve(m, narrow_view(t, k1 as u8)));
}

/// Exhaustiveness of the typo drain: once the last typo level has been
/// emitted, everything of the pool that the tree resolves to has been
/// emitted, because narrowing to the final level does not narrow at all.
pub proof fn lemma_typo_exhaustive(m: IndexModel, t: OpView, avail0: Set<u32>)
    ensures
        spec_resolve(m, t).intersect(avail0).subset_of(
            avail0.difference(avail_after(typo_sets(m, t), avail0, 3)),
        ),
{
    lemma_buckets_complete(typo_sets(m, t), avail0, 2);
    lemma_narrow_resolve_full(m, t);
    assert(typo_sets(m, t)(2) == spec_resolve(m, t));
}

/// Disjointness of the proximity drain: no document appears in the
/// buckets of two different distances.
pub proof fn lemma_proximity_buckets_disjoint(
    m: IndexModel,
    t: OpView,
    avail0: Set<u32>,
    p1: int,
    p2: int,
)
    requires
        0 <= p1 < p2,
    ensures
        bucket_at(prox_sets(m, t), avail0, p1).disjoint(bucket_at(prox_sets(m, t), avail0, p2)),
{
    lemma_buckets_disjoint(prox_sets(m, t), avail0, p1, p2);
}

/// Monotonicity of the proximity drain: a document first emitted at
/// distance `p2` satisfies the pair constraints at `p2` but at no
/// smaller distance.
pub proof fn lemma_proximity_monotonic(
    m: IndexModel,
    t: OpView,
    avail0: Set<u32>,
    p1: int,
    p2: int,
)
    requires
        0 <= p1 < p2 <= 255,
    ensures
        bucket_at(prox_sets(m, t), avail0, p2).subset_of(prox_resolve_at(m, t, p2 as u8)),
        bucket_at(prox_sets(m, t), avail0, p2).disjoint(prox_resolve_at(m, t, p1 as u8)),
{
    lemma_bucket_in_pool(prox_sets(m, t), avail0, p2);
    lemma_bucket_not_earlier(prox_sets(m, t), avail0, p1, p2);
    assert(prox_sets(m, t)(p1) == prox_resolve_at(m, t, p1 as u8));
    assert(prox_sets(m, t)(p2) == prox_resolve_at(m, t, p2 as u8));
}

} // verus!
