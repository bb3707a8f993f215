//! The query tree: a recursive algebraic expression over leaf terms.
//!
//! The executable types hold `String` and `Vec`; each has a mathematical
//! view (`QueryView`, `OpView`) over `Seq` that the contracts speak of.

use vstd::prelude::*;

verus! {

/// How a leaf term matches the dictionary.
#[derive(Debug)]
pub enum QueryKind {
    /// The word itself, letter for letter.
    Exact { word: String },
    /// The word up to `typo` edit operations (clamped to 2).
    Tolerant { typo: u8, word: String },
}

/// A leaf term with its attributes.
#[derive(Debug)]
pub struct Query {
    /// Whether the term also matches every dictionary word it prefixes.
    pub prefix: bool,
    pub kind: QueryKind,
}

/// A query tree node.
#[derive(Debug)]
pub enum Operation {
    /// Conjunction: documents must satisfy every child.
    And(Vec<Operation>),
    /// Positional conjunction: each adjacent pair of leaves must occur at
    /// proximity 1. Every child must be a leaf.
    Consecutive(Vec<Operation>),
    /// Disjunction; the flag hints that children share sub-derivations.
    Or(bool, Vec<Operation>),
    /// A single leaf term.
    Query(Query),
}

/// The view of a leaf kind.
#[verifier::ext_equal]
pub enum QueryKindView {
    Exact { word: Seq<char> },
    Tolerant { typo: u8, word: Seq<char> },
}

/// The view of a leaf term.
#[verifier::ext_equal]
pub struct QueryView {
    pub prefix: bool,
    pub kind: QueryKindView,
}

/// The view of a query tree.
#[verifier::ext_equal]
pub enum OpView {
    And(Seq<OpView>),
    Consecutive(Seq<OpView>),
    Or(bool, Seq<OpView>),
    Query(QueryView),
}

impl View for QueryKind {
    type V = QueryKindView;

    open spec fn view(&self) -> QueryKindView {
        match self {
            QueryKind::Exact { word } => QueryKindView::Exact { word: word@ },
            QueryKind::Tolerant { typo, word } => QueryKindView::Tolerant {
                typo: *typo,
                word: word@,
            },
        }
    }
}

impl View for Query {
    type V = QueryView;

    open spec fn view(&self) -> QueryView {
        QueryView { prefix: self.prefix, kind: self.kind@ }
    }
}

/// The view of a whole tree.
pub open spec fn op_view(t: Operation) -> OpView
    decreases t,
{
    match t {
        Operation::And(ops) => OpView::And(op_view_list(ops@)),
        Operation::Consecutive(ops) => OpView::Consecutive(op_view_list(ops@)),
        Operation::Or(flag, ops) => OpView::Or(flag, op_view_list(ops@)),
        Operation::Query(q) => OpView::Query(q@),
    }
}

/// The view of a list of trees.
pub open spec fn op_view_list(ops: Seq<Operation>) -> Seq<OpView>
    decreases ops,
{
    if ops.len() == 0 {
        Seq::empty()
    } else {
        seq![op_view(ops[0])] + op_view_list(ops.drop_first())
    }
}

impl View for Operation {
    type V = OpView;

    open spec fn view(&self) -> OpView {
        op_view(*self)
    }
}

/// The view of a list of trees is the list of their views.
pub proof fn lemma_op_view_list(ops: Seq<Operation>)
    ensures
        op_view_list(ops).len() == ops.len(),
        forall|i: int| 0 <= i < ops.len() ==> op_view_list(ops)[i] == op_view(#[trigger] ops[i]),
    decreases ops,
{
    if ops.len() > 0 {
        lemma_op_view_list(ops.drop_first());
        assert forall|i: int| 0 <= i < ops.len() implies op_view_list(ops)[i] == op_view(
            #[trigger] ops[i],
        ) by {
            if i > 0 {
                assert(ops.drop_first()[i - 1] == ops[i]);
            }
        }
    }
}

impl Query {
    /// A structural copy.
    pub fn duplicate(&self) -> (r: Query)
        ensures
            r@ == self@,
    {
        let kind = match &self.kind {
            QueryKind::Exact { word } => QueryKind::Exact { word: word.clone() },
            QueryKind::Tolerant { typo, word } => QueryKind::Tolerant {
                typo: *typo,
                word: word.clone(),
            },
        };
        Query { prefix: self.prefix, kind }
    }
}

impl Operation {
    /// A structural copy of the whole tree.
    pub fn duplicate(&self) -> (r: Operation)
        ensures
            r@ == self@,
        decreases *self,
    {
        match self {
            Operation::And(ops) => Operation::And(duplicate_list(ops)),
            Operation::Consecutive(ops) => Operation::Consecutive(duplicate_list(ops)),
            Operation::Or(flag, ops) => Operation::Or(*flag, duplicate_list(ops)),
            Operation::Query(q) => Operation::Query(q.duplicate()),
        }
    }
}

/// A structural copy of a list of trees.
fn duplicate_list(ops: &Vec<Operation>) -> (r: Vec<Operation>)
    ensures
        op_view_list(r@) == op_view_list(ops@),
    decreases ops@,
{
    let mut out: Vec<Operation> = Vec::new();
    let mut i: usize = 0;
    while i < ops.len()
        invariant
            i <= ops@.len(),
            out@.len() == i,
            forall|j: int| 0 <= j < i ==> op_view(#[trigger] out@[j]) == op_view(ops@[j]),
        decreases ops@.len() - i,
    {
        proof {
            assert(decreases_to!(ops@ => ops@[i as int]));
        }
        out.push(ops[i].duplicate());
        i += 1;
    }
    proof {
        lemma_op_view_list(out@);
        lemma_op_view_list(ops@);
        assert forall|j: int| 0 <= j < ops@.len() implies op_view_list(out@)[j] == op_view_list(
            ops@,
        )[j] by {
            assert(op_view(out@[j]) == op_view(ops@[j]));
        }
        assert(op_view_list(out@) =~= op_view_list(ops@));
    }
    out
}

/// Permitted typo counts are 0, 1 and 2; anything larger is tolerated and
/// clamped rather than rejected.
pub open spec fn clamp_typos(t: u8) -> u8 {
    if t > 2 { 2 } else { t }
}

/// A tree is well formed when every `Consecutive` node has only leaf
/// children, at every depth.
pub open spec fn tree_wf(t: OpView) -> bool
    decreases t,
{
    match t {
        OpView::And(ops) => forall|i: int| 0 <= i < ops.len() ==> tree_wf(#[trigger] ops[i]),
        OpView::Consecutive(ops) => forall|i: int|
            0 <= i < ops.len() ==> (#[trigger] ops[i]) is Query,
        OpView::Or(_, ops) => forall|i: int| 0 <= i < ops.len() ==> tree_wf(#[trigger] ops[i]),
        OpView::Query(_) => true,
    }
}

} // verus!
