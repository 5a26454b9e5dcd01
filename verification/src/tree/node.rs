//! The nodes of the tree and what it means for them to be well formed.
use super::traits::{Leaf, Metric, Summary};
use std::sync::Arc;
use vstd::prelude::*;

verus! {

/// A leaf node: one leaf and its cached summary.
pub struct Lnode<L: Leaf> {
    pub(crate) value: L,
    pub(crate) summary: L::Summary,
}

/// An internal node: an ordered sequence of shared children of one depth and
/// the cached aggregates of the subtree.
pub struct Inode<const N: usize, L: Leaf> {
    pub(crate) children: Vec<Arc<Node<N, L>>>,
    pub(crate) summary: L::Summary,
    pub(crate) leaf_count: usize,
    pub(crate) depth: usize,
}

/// A node of the tree.
pub enum Node<const N: usize, L: Leaf> {
    Internal(Inode<N, L>),
    Leaf(Lnode<L>),
}

/// The least number of children of an internal node below the root:
/// half the fanout, rounded up.
pub open spec fn min_children(fanout: usize) -> nat {
    ((fanout + 1) / 2) as nat
}

/// The concatenated content of a sequence of leaves.
pub open spec fn flat<L: Leaf>(ls: Seq<L>) -> Seq<L::Unit>
    decreases ls.len(),
{
    if ls.len() == 0 {
        Seq::empty()
    } else {
        flat(ls.drop_last()) + ls.last().content()
    }
}

/// What each of a sequence of leaves holds.
pub open spec fn contents<L: Leaf>(ls: Seq<L>) -> Seq<Seq<L::Unit>> {
    Seq::new(ls.len(), |k: int| ls[k].content())
}

/// Whether the aggregates of a sequence of leaves are representable.
pub open spec fn leaves_fit<L: Leaf>(ls: Seq<L>) -> bool {
    ls.len() <= usize::MAX && L::fits(flat(ls))
}

/// The leaves below a sequence of nodes, in order.
pub open(crate) spec fn seq_leaves<const N: usize, L: Leaf>(cs: Seq<Arc<Node<N, L>>>) -> Seq<L>
    decreases cs, 1int,
{
    if cs.len() == 0 {
        Seq::empty()
    } else {
        seq_leaves(cs.drop_last()) + cs.last().spec_leaves()
    }
}

/// Whether every node of a sequence is well formed below the root and has
/// the given depth.
pub open(crate) spec fn run_ok<const N: usize, L: Leaf>(cs: Seq<Arc<Node<N, L>>>, depth: nat) -> bool {
    forall|k: int| 0 <= k < cs.len() ==> (#[trigger] cs[k]).wf() && cs[k].spec_depth() == depth
}

impl<L: Leaf> Lnode<L> {
    /// A leaf node that holds `value`, with its summary.
    pub(crate) fn new(value: L) -> (r: Self)
        ensures
            r.value == value,
            r.summary == L::summary_of(value.content()),
    {
        let summary = value.summarize();
        Lnode { value, summary }
    }
}

impl<const N: usize, L: Leaf> Inode<N, L> {
    /// Everything that makes an internal node well formed but the number of
    /// its children.
    pub open(crate) spec fn consistent(&self) -> bool
        decreases self, 0int,
    {
        &&& 2 <= N
        &&& 1 <= self.depth
        &&& forall|k: int|
            0 <= k < self.children@.len() ==> (#[trigger] self.children@[k]).ok(min_children(N))
                && self.children@[k].spec_depth() + 1 == self.depth
        &&& self.leaf_count == seq_leaves(self.children@).len()
        &&& self.summary == L::summary_of(flat(seq_leaves(self.children@)))
        &&& leaves_fit(seq_leaves(self.children@))
    }
}

impl<const N: usize, L: Leaf> Node<N, L> {
    /// The leaves of the subtree, in order.
    pub open(crate) spec fn spec_leaves(&self) -> Seq<L>
        decreases self, 0int,
    {
        match self {
            Node::Leaf(l) => seq![l.value],
            Node::Internal(i) => seq_leaves(i.children@),
        }
    }

    /// The content of the subtree.
    pub open(crate) spec fn content(&self) -> Seq<L::Unit> {
        flat(self.spec_leaves())
    }

    /// The children of an internal node; a leaf has none.
    pub open(crate) spec fn spec_children(&self) -> Seq<Arc<Node<N, L>>> {
        match self {
            Node::Leaf(_) => Seq::empty(),
            Node::Internal(i) => i.children@,
        }
    }

    /// The depth of the node: none for a leaf, and one more than that of
    /// its children for an internal node.
    pub open(crate) spec fn spec_depth(&self) -> nat {
        match self {
            Node::Leaf(_) => 0,
            Node::Internal(i) => i.depth as nat,
        }
    }

    /// The summary cached in the node.
    pub open(crate) spec fn spec_summary(&self) -> L::Summary {
        match self {
            Node::Leaf(l) => l.summary,
            Node::Internal(i) => i.summary,
        }
    }

    /// The number of leaves cached in the node.
    pub open(crate) spec fn spec_leaf_count(&self) -> nat {
        match self {
            Node::Leaf(_) => 1,
            Node::Internal(i) => i.leaf_count as nat,
        }
    }

    /// Well-formedness with at least `lo` children at this node.
    pub open(crate) spec fn ok(&self, lo: nat) -> bool
        decreases self, 1int,
    {
        match self {
            Node::Leaf(l) => l.summary == L::summary_of(l.value.content()),
            Node::Internal(i) => lo <= i.children@.len() <= N && i.consistent(),
        }
    }

    /// Well-formedness of a node below the root.
    pub open(crate) spec fn wf(&self) -> bool {
        self.ok(min_children(N))
    }

    /// Well-formedness of the root.
    pub open(crate) spec fn wf_root(&self) -> bool {
        self.ok(2)
    }

    /// Well-formedness of a node that may be the root or lie below it.
    pub open(crate) spec fn sound(&self) -> bool {
        self.ok(1)
    }
}

/// The content of two sequences of leaves, one after the other, is the
/// content of the first followed by that of the second.
pub proof fn lemma_flat_concat<L: Leaf>(a: Seq<L>, b: Seq<L>)
    ensures
        flat(a + b) == flat(a) + flat(b),
    decreases b.len(),
{
    if b.len() == 0 {
        assert(a + b =~= a);
        assert(flat(a) + flat(b) =~= flat(a));
    } else {
        lemma_flat_concat(a, b.drop_last());
        assert((a + b).drop_last() =~= a + b.drop_last());
        assert((a + b).last() == b.last());
        assert(flat(a + b) =~= flat(a) + flat(b));
    }
}

/// The content of a single leaf.
pub proof fn lemma_flat_one<L: Leaf>(l: L)
    ensures
        flat(seq![l]) == l.content(),
{
    let s = seq![l];
    assert(s.drop_last() =~= Seq::<L>::empty());
    assert(flat(Seq::<L>::empty()) =~= Seq::empty());
    assert(flat(s) =~= l.content());
}

/// What the leaves hold is what the first of them hold followed by what
/// the rest holds.
pub proof fn lemma_flat_split<L: Leaf>(ls: Seq<L>, k: int)
    requires
        0 <= k <= ls.len(),
    ensures
        flat(ls) == flat(ls.take(k)) + flat(ls.skip(k)),
{
    assert(ls =~= ls.take(k) + ls.skip(k));
    lemma_flat_concat(ls.take(k), ls.skip(k));
}

/// What the first leaves hold is followed by what the next leaf holds.
pub proof fn lemma_flat_step<L: Leaf>(ls: Seq<L>, k: int)
    requires
        0 <= k < ls.len(),
    ensures
        flat(ls.take(k + 1)) == flat(ls.take(k)) + ls[k].content(),
        flat(ls.skip(k)) == ls[k].content() + flat(ls.skip(k + 1)),
{
    let one = seq![ls[k]];
    lemma_flat_one(ls[k]);
    assert(ls.take(k + 1) =~= ls.take(k) + one);
    lemma_flat_concat(ls.take(k), one);
    assert(ls.skip(k) =~= one + ls.skip(k + 1));
    lemma_flat_concat(one, ls.skip(k + 1));
}

/// What the first leaves hold grows with their number.
pub proof fn lemma_flat_grows<L: Leaf>(ls: Seq<L>, k: int, j: int)
    requires
        0 <= k <= j <= ls.len(),
    ensures
        flat(ls.take(k)).len() <= flat(ls.take(j)).len(),
{
    assert(ls.take(j) =~= ls.take(k) + ls.subrange(k, j));
    lemma_flat_concat(ls.take(k), ls.subrange(k, j));
}

/// Every part of a sequence of leaves that fits does fit.
pub proof fn lemma_leaves_fit_parts<L: Leaf>(a: Seq<L>, b: Seq<L>)
    requires
        leaves_fit(a + b),
    ensures
        leaves_fit(a),
        leaves_fit(b),
{
    lemma_flat_concat(a, b);
    L::lemma_concat(flat(a), flat(b));
}

/// The leaves below two runs, one after the other.
pub(crate) proof fn lemma_seq_leaves_concat<const N: usize, L: Leaf>(
    a: Seq<Arc<Node<N, L>>>,
    b: Seq<Arc<Node<N, L>>>,
)
    ensures
        seq_leaves(a + b) == seq_leaves(a) + seq_leaves(b),
    decreases b.len(),
{
    if b.len() == 0 {
        assert(a + b =~= a);
        assert(seq_leaves(a) + seq_leaves(b) =~= seq_leaves(a));
    } else {
        lemma_seq_leaves_concat(a, b.drop_last());
        assert((a + b).drop_last() =~= a + b.drop_last());
        assert((a + b).last() == b.last());
        assert(seq_leaves(a + b) =~= seq_leaves(a) + seq_leaves(b));
    }
}

/// The leaves below a run of one node.
pub(crate) proof fn lemma_seq_leaves_one<const N: usize, L: Leaf>(c: Arc<Node<N, L>>)
    ensures
        seq_leaves(seq![c]) == c.spec_leaves(),
{
    let s = seq![c];
    assert(s.drop_last() =~= Seq::<Arc<Node<N, L>>>::empty());
    assert(seq_leaves(Seq::<Arc<Node<N, L>>>::empty()) =~= Seq::empty());
    assert(seq_leaves(s) =~= c.spec_leaves());
}

/// The leaves below a run with one more node at its end.
pub(crate) proof fn lemma_seq_leaves_push<const N: usize, L: Leaf>(
    cs: Seq<Arc<Node<N, L>>>,
    c: Arc<Node<N, L>>,
)
    ensures
        seq_leaves(cs.push(c)) == seq_leaves(cs) + c.spec_leaves(),
{
    assert(cs.push(c).drop_last() =~= cs);
}

/// The leaves below a run are those below its first nodes and those below
/// the rest.
pub(crate) proof fn lemma_seq_leaves_split<const N: usize, L: Leaf>(cs: Seq<Arc<Node<N, L>>>, k: int)
    requires
        0 <= k <= cs.len(),
    ensures
        seq_leaves(cs) == seq_leaves(cs.take(k)) + seq_leaves(cs.skip(k)),
{
    assert(cs =~= cs.take(k) + cs.skip(k));
    lemma_seq_leaves_concat(cs.take(k), cs.skip(k));
}

/// The cached aggregates of a well-formed node are those of its leaves.
pub(crate) proof fn lemma_node_facts<const N: usize, L: Leaf>(n: &Node<N, L>, lo: nat)
    requires
        n.ok(lo),
    ensures
        n.spec_summary() == L::summary_of(n.content()),
        leaves_fit(n.spec_leaves()),
        n.spec_leaf_count() == n.spec_leaves().len(),
{
    match n {
        Node::Leaf(l) => {
            lemma_flat_one(l.value);
            l.value.lemma_leaf_fits();
        },
        Node::Internal(i) => {},
    }
}

/// A well-formed subtree has a leaf.
pub(crate) proof fn lemma_has_leaf<const N: usize, L: Leaf>(n: &Node<N, L>, lo: nat)
    requires
        n.ok(lo),
        1 <= lo,
    ensures
        1 <= n.spec_leaves().len(),
    decreases n,
{
    match n {
        Node::Leaf(l) => {},
        Node::Internal(i) => {
            let cs = i.children@;
            lemma_has_leaf(&*cs[0], min_children(N));
            lemma_seq_leaves_split(cs, 1);
            assert(cs.take(1) =~= seq![cs[0]]);
            lemma_seq_leaves_one(cs[0]);
        },
    }
}

/// A run of well-formed nodes has no more nodes than leaves.
pub(crate) proof fn lemma_run_len<const N: usize, L: Leaf>(cs: Seq<Arc<Node<N, L>>>)
    requires
        2 <= N,
        all_wf(cs),
    ensures
        cs.len() <= seq_leaves(cs).len(),
    decreases cs.len(),
{
    if cs.len() > 0 {
        let init = cs.drop_last();
        assert forall|k: int| 0 <= k < init.len() implies (#[trigger] init[k]).wf() by {
            assert(init[k] == cs[k]);
        }
        lemma_run_len(init);
        assert(cs[cs.len() - 1].wf());
        lemma_has_leaf(&*cs.last(), min_children(N));
    }
}

/// A well-formed subtree has more leaves than levels.
pub(crate) proof fn lemma_depth_bound<const N: usize, L: Leaf>(n: &Node<N, L>, lo: nat)
    requires
        3 <= N,
        n.ok(lo),
        2 <= lo,
    ensures
        n.spec_depth() + 1 <= n.spec_leaves().len(),
    decreases n,
{
    match n {
        Node::Leaf(l) => {},
        Node::Internal(i) => {
            let cs = i.children@;
            let first = cs[0];
            let second = cs[1];
            lemma_depth_bound(&*first, min_children(N));
            lemma_depth_bound(&*second, min_children(N));
            lemma_seq_leaves_split(cs, 2);
            let head = cs.take(2);
            assert(head.drop_last() =~= seq![first]);
            lemma_seq_leaves_one(first);
            assert(seq_leaves(head) =~= first.spec_leaves() + second.spec_leaves());
        },
    }
}

impl<const N: usize, L: Leaf> Node<N, L> {
    /// The depth of the node.
    pub(crate) fn depth(&self) -> (r: usize)
        ensures
            r == self.spec_depth(),
    {
        match self {
            Node::Leaf(_) => 0,
            Node::Internal(i) => i.depth,
        }
    }

    /// The number of leaves cached in the node.
    pub(crate) fn leaf_count(&self) -> (r: usize)
        ensures
            r == self.spec_leaf_count(),
    {
        match self {
            Node::Leaf(_) => 1,
            Node::Internal(i) => i.leaf_count,
        }
    }

    /// The summary cached in the node.
    pub(crate) fn summary(&self) -> (r: &L::Summary)
        ensures
            *r == self.spec_summary(),
    {
        match self {
            Node::Leaf(l) => &l.summary,
            Node::Internal(i) => &i.summary,
        }
    }

    /// The measure of the node in the metric `M`.
    pub(crate) fn measure<M: Metric<L>>(&self) -> (r: usize)
        ensures
            r == M::spec_measure(self.spec_summary()),
    {
        M::measure(self.summary())
    }

    /// The base measure of the node.
    pub(crate) fn base_measure(&self) -> (r: usize)
        ensures
            r == L::spec_base(self.spec_summary()),
    {
        L::base_measure(self.summary())
    }

    /// A leaf node that holds `value`, whose summary is known.
    pub(crate) fn leaf_with_summary(value: L, summary: L::Summary) -> (r: Arc<Self>)
        requires
            summary == L::summary_of(value.content()),
        ensures
            r.wf(),
            r.spec_depth() == 0,
            r.spec_leaves() == seq![value],
    {
        Arc::new(Node::Leaf(Lnode { value, summary }))
    }

    /// A leaf node that holds `value`.
    pub(crate) fn leaf(value: L) -> (r: Arc<Self>)
        ensures
            r.wf(),
            r.spec_depth() == 0,
            r.spec_leaves() == seq![value],
    {
        Arc::new(Node::Leaf(Lnode::new(value)))
    }
}

/// Whether two references share one allocation: `Arc::ptr_eq`. Two
/// references to one allocation refer to one value.
#[verifier::external_body]
pub(crate) fn arc_ptr_eq<T>(a: &Arc<T>, b: &Arc<T>) -> (r: bool)
    ensures
        r ==> *a == *b,
{
    Arc::ptr_eq(a, b)
}

/// A mutable reference to a shared value, if nothing else shares it:
/// `Arc::get_mut`, which leaves the value as it is and returns `None` when
/// there are other references to it.
#[verifier::external_body]
pub(crate) fn arc_get_mut<'a, T>(a: &'a mut Arc<T>) -> (r: Option<&'a mut T>)
    ensures
        match r {
            Some(m) => *m == **old(a) && **final(a) == *final(m),
            None => *final(a) == *old(a),
        },
{
    Arc::get_mut(a)
}

/// Hands out another reference to a shared value: `Arc::clone`, which
/// returns a pointer to the very allocation its argument points to.
#[verifier::external_body]
pub(crate) fn arc_clone<T>(a: &Arc<T>) -> (r: Arc<T>)
    ensures
        r == *a,
{
    Arc::clone(a)
}

/// The summary of what a run of siblings holds, and the number of the leaves
/// below it.
pub(crate) fn run_totals<const N: usize, L: Leaf>(children: &Vec<Arc<Node<N, L>>>) -> (r: (
    L::Summary,
    usize,
))
    requires
        2 <= N,
        all_wf(children@),
        leaves_fit(seq_leaves(children@)),
    ensures
        r.0 == L::summary_of(run_content(children@)),
        r.1 == seq_leaves(children@).len(),
{
    let mut summary = L::Summary::zero();
    let mut leaf_count: usize = 0;
    let mut k: usize = 0;
    proof {
        L::lemma_empty();
        assert(children@.take(0) =~= Seq::<Arc<Node<N, L>>>::empty());
    }
    while k < children.len()
        invariant
            0 <= k <= children.len(),
            all_wf(children@),
            leaves_fit(seq_leaves(children@)),
            summary == L::summary_of(flat(seq_leaves(children@.take(k as int)))),
            leaf_count == seq_leaves(children@.take(k as int)).len(),
        decreases children.len() - k,
    {
        let child = &children[k];
        proof {
            let done = children@.take(k as int);
            let next = children@.take(k + 1);
            assert(next =~= done.push(children@[k as int]));
            lemma_seq_leaves_push(done, children@[k as int]);
            lemma_seq_leaves_split(children@, k + 1);
            lemma_leaves_fit_parts(seq_leaves(next), seq_leaves(children@.skip(k + 1)));
            lemma_flat_concat(seq_leaves(done), child.spec_leaves());
            L::lemma_concat(flat(seq_leaves(done)), child.content());
            assert(children@[k as int].wf());
            lemma_node_facts(&**child, min_children(N));
        }
        summary = summary.add(child.summary());
        leaf_count = leaf_count + child.leaf_count();
        k = k + 1;
    }
    proof {
        assert(children@.take(k as int) =~= children@);
    }
    (summary, leaf_count)
}

impl<const N: usize, L: Leaf> Inode<N, L> {
    /// An internal node over `children`, which all have the depth `depth`.
    pub(crate) fn from_children(children: Vec<Arc<Node<N, L>>>, depth: usize) -> (r: Self)
        requires
            2 <= N,
            run_ok(children@, depth as nat),
            leaves_fit(seq_leaves(children@)),
            depth < usize::MAX,
        ensures
            r.consistent(),
            r.children == children,
            r.depth == depth + 1,
    {
        let (summary, leaf_count) = run_totals(&children);
        Inode { children, summary, leaf_count, depth: depth + 1 }
    }
}

/// What each of the leaves below a sequence of nodes holds, in order.
pub open(crate) spec fn leaf_contents<const N: usize, L: Leaf>(cs: Seq<Arc<Node<N, L>>>) -> Seq<
    Seq<L::Unit>,
> {
    Seq::new(seq_leaves(cs).len(), |k: int| seq_leaves(cs)[k].content())
}

/// What the leaves hold that take the place of two neighbours when these
/// are balanced: what the two hold, where both are big enough, and else what
/// the size policy of the leaf type spreads their content over.
pub open spec fn pair_contents<L: Leaf>(a: Seq<L::Unit>, b: Seq<L::Unit>) -> Seq<Seq<L::Unit>> {
    if L::big_enough(a) && L::big_enough(b) {
        seq![a, b]
    } else {
        L::balanced(a, b)
    }
}

/// The content below a sequence of nodes.
pub open(crate) spec fn run_content<const N: usize, L: Leaf>(cs: Seq<Arc<Node<N, L>>>) -> Seq<
    L::Unit,
> {
    flat(seq_leaves(cs))
}

/// The measure of the content below a sequence of nodes.
pub open(crate) spec fn run_measure<const N: usize, L: Leaf, M: Metric<L>>(
    cs: Seq<Arc<Node<N, L>>>,
) -> usize {
    M::spec_measure(L::summary_of(run_content(cs)))
}

/// Whether every node of a sequence is well formed below the root.
pub open(crate) spec fn all_wf<const N: usize, L: Leaf>(cs: Seq<Arc<Node<N, L>>>) -> bool {
    forall|k: int| 0 <= k < cs.len() ==> (#[trigger] cs[k]).wf()
}

/// The content below a run is that before one of its nodes, that of the
/// node and that after it.
pub(crate) proof fn lemma_run_content_at<const N: usize, L: Leaf>(cs: Seq<Arc<Node<N, L>>>, k: int)
    requires
        0 <= k < cs.len(),
    ensures
        run_content(cs) == run_content(cs.take(k)) + cs[k].content() + run_content(cs.skip(k + 1)),
        run_content(cs.take(k + 1)) == run_content(cs.take(k)) + cs[k].content(),
        seq_leaves(cs) == seq_leaves(cs.take(k)) + cs[k].spec_leaves() + seq_leaves(cs.skip(k + 1)),
{
    let a = cs.take(k);
    let b = seq![cs[k]];
    let c = cs.skip(k + 1);
    assert(cs =~= (a + b) + c);
    assert(cs.take(k + 1) =~= a + b);
    lemma_seq_leaves_concat(a + b, c);
    lemma_seq_leaves_concat(a, b);
    lemma_seq_leaves_one(cs[k]);
    lemma_flat_concat(seq_leaves(a + b), seq_leaves(c));
    lemma_flat_concat(seq_leaves(a), seq_leaves(b));
}

/// The measure of a run grows by the measure of each node.
pub(crate) proof fn lemma_run_measure_step<const N: usize, L: Leaf, M: Metric<L>>(
    cs: Seq<Arc<Node<N, L>>>,
    k: int,
)
    requires
        0 <= k < cs.len(),
        all_wf(cs),
        leaves_fit(seq_leaves(cs)),
    ensures
        run_measure::<N, L, M>(cs.take(k + 1)) == run_measure::<N, L, M>(cs.take(k))
            + M::spec_measure(cs[k].spec_summary()),
        run_content(cs.take(k + 1)).len() == run_content(cs.take(k)).len() + cs[k].content().len(),
        L::fits(run_content(cs.take(k + 1))),
        L::fits(run_content(cs.take(k))),
        cs[k].content().len() == L::spec_base(cs[k].spec_summary()),
{
    lemma_run_content_at(cs, k);
    L::lemma_concat(run_content(cs.take(k + 1)), run_content(cs.skip(k + 1)));
    L::lemma_concat(run_content(cs.take(k)), cs[k].content());
    M::lemma_measure_concat(run_content(cs.take(k)), cs[k].content());
    assert(cs[k].wf());
    lemma_node_facts(&*cs[k], min_children(N));
    L::lemma_base(cs[k].content());
}

/// What the first nodes of a run hold grows with their number.
pub(crate) proof fn lemma_run_len_mono<const N: usize, L: Leaf>(
    cs: Seq<Arc<Node<N, L>>>,
    a: int,
    b: int,
)
    requires
        0 <= a <= b <= cs.len(),
    ensures
        run_content(cs.take(a)).len() <= run_content(cs.take(b)).len(),
    decreases b - a,
{
    if a < b {
        lemma_run_len_mono(cs, a, b - 1);
        lemma_run_content_at(cs, b - 1);
    }
}

/// The measure of the first nodes of a run grows with their number.
pub(crate) proof fn lemma_run_measure_mono<const N: usize, L: Leaf, M: Metric<L>>(
    cs: Seq<Arc<Node<N, L>>>,
    a: int,
    b: int,
)
    requires
        0 <= a <= b <= cs.len(),
        all_wf(cs),
        leaves_fit(seq_leaves(cs)),
    ensures
        run_measure::<N, L, M>(cs.take(a)) <= run_measure::<N, L, M>(cs.take(b)),
    decreases b - a,
{
    if a < b {
        lemma_run_measure_mono::<N, L, M>(cs, a, b - 1);
        lemma_run_measure_step::<N, L, M>(cs, b - 1);
    }
}

/// Every range of a content that fits does fit.
pub proof fn lemma_fits_sub<L: Leaf>(c: Seq<L::Unit>, a: int, b: int)
    requires
        L::fits(c),
        0 <= a <= b <= c.len(),
    ensures
        L::fits(c.subrange(a, b)),
{
    assert(c =~= c.subrange(0, b) + c.subrange(b, c.len() as int));
    L::lemma_concat(c.subrange(0, b), c.subrange(b, c.len() as int));
    assert(c.subrange(0, b) =~= c.subrange(0, a) + c.subrange(a, b));
    L::lemma_concat(c.subrange(0, a), c.subrange(a, b));
}

/// The leaves and the content below the first nodes of a run, split at an
/// earlier node.
pub(crate) proof fn lemma_run_take_split<const N: usize, L: Leaf>(
    cs: Seq<Arc<Node<N, L>>>,
    a: int,
    b: int,
)
    requires
        0 <= a <= b <= cs.len(),
    ensures
        seq_leaves(cs.take(b)) == seq_leaves(cs.take(a)) + seq_leaves(cs.subrange(a, b)),
        run_content(cs.take(b)) == run_content(cs.take(a)) + run_content(cs.subrange(a, b)),
{
    assert(cs.take(b) =~= cs.take(a) + cs.subrange(a, b));
    lemma_seq_leaves_concat(cs.take(a), cs.subrange(a, b));
    lemma_flat_concat(seq_leaves(cs.take(a)), seq_leaves(cs.subrange(a, b)));
}

impl<const N: usize, L: Leaf> Inode<N, L> {
    /// Whether the node has more children than the fanout allows.
    pub(crate) fn is_overfull(&self) -> (r: bool)
        ensures
            r == (self.children@.len() > N),
    {
        self.children.len() > N
    }

    /// Computes the cached summary and number of leaves anew.
    pub(crate) fn refresh(&mut self)
        requires
            2 <= N,
            1 <= old(self).depth,
            run_ok(old(self).children@, (old(self).depth - 1) as nat),
            leaves_fit(seq_leaves(old(self).children@)),
        ensures
            final(self).consistent(),
            final(self).children == old(self).children,
            final(self).depth == old(self).depth,
    {
        let (summary, leaf_count) = run_totals(&self.children);
        self.summary = summary;
        self.leaf_count = leaf_count;
    }

    /// Detaches the children from the index `at` on into a new node of the
    /// same depth.
    pub(crate) fn split_off(&mut self, at: usize) -> (r: Self)
        requires
            2 <= N,
            old(self).consistent(),
            at <= old(self).children@.len(),
        ensures
            final(self).consistent(),
            r.consistent(),
            final(self).children@ == old(self).children@.take(at as int),
            r.children@ == old(self).children@.skip(at as int),
            final(self).depth == old(self).depth,
            r.depth == old(self).depth,
    {
        proof {
            lemma_seq_leaves_split(self.children@, at as int);
            lemma_leaves_fit_parts(
                seq_leaves(self.children@.take(at as int)),
                seq_leaves(self.children@.skip(at as int)),
            );
            assert(self.children@.take(at as int) =~= self.children@.subrange(0, at as int));
            assert(self.children@.skip(at as int) =~= self.children@.subrange(
                at as int,
                self.children@.len() as int,
            ));
        }
        let detached = self.children.split_off(at);
        self.refresh();
        Inode::from_children(detached, self.depth - 1)
    }
}

/// The content below two runs, one after the other.
pub(crate) proof fn lemma_run_content_concat<const N: usize, L: Leaf>(
    a: Seq<Arc<Node<N, L>>>,
    b: Seq<Arc<Node<N, L>>>,
)
    ensures
        run_content(a + b) == run_content(a) + run_content(b),
        seq_leaves(a + b).len() == seq_leaves(a).len() + seq_leaves(b).len(),
{
    lemma_seq_leaves_concat(a, b);
    lemma_flat_concat(seq_leaves(a), seq_leaves(b));
}

/// The sum of the summaries cached in a sequence of nodes.
pub open(crate) spec fn sum_of_summaries<const N: usize, L: Leaf>(
    cs: Seq<Arc<Node<N, L>>>,
) -> L::Summary
    decreases cs.len(),
{
    if cs.len() == 0 {
        L::Summary::spec_zero()
    } else {
        sum_of_summaries(cs.drop_last()).spec_add(cs.last().spec_summary())
    }
}

/// The summaries cached in a run of well-formed nodes add up to the
/// summary of what the run holds.
pub(crate) proof fn lemma_sum_of_summaries<const N: usize, L: Leaf>(cs: Seq<Arc<Node<N, L>>>)
    requires
        all_wf(cs),
        leaves_fit(seq_leaves(cs)),
    ensures
        sum_of_summaries(cs) == L::summary_of(run_content(cs)),
    decreases cs.len(),
{
    if cs.len() == 0 {
        L::lemma_empty();
    } else {
        let init = cs.drop_last();
        assert(cs =~= init.push(cs.last()));
        lemma_seq_leaves_push(init, cs.last());
        lemma_leaves_fit_parts(seq_leaves(init), cs.last().spec_leaves());
        assert forall|k: int| 0 <= k < init.len() implies (#[trigger] init[k]).wf() by {
            assert(init[k] == cs[k]);
        }
        lemma_sum_of_summaries(init);
        lemma_flat_concat(seq_leaves(init), cs.last().spec_leaves());
        L::lemma_concat(run_content(init), cs.last().content());
        assert(cs[cs.len() - 1].wf());
        lemma_node_facts(&*cs.last(), min_children(N));
    }
}

/// The invariants of a well-formed internal node, spelled out: it has
/// between `lo` and `N` children; each child is well formed below the root,
/// so that it has between half of `N`, rounded up, and `N` children if it is
/// internal; the children are one level less deep than the node, so that
/// all the leaves below it are at one depth; and the summary it caches is
/// the sum of the summaries its children cache.
pub proof fn lemma_inode_invariants<const N: usize, L: Leaf>(node: &Node<N, L>, lo: nat)
    requires
        node.ok(lo),
    ensures
        node is Internal ==> {
            &&& lo <= node.spec_children().len() <= N
            &&& forall|k: int|
                0 <= k < node.spec_children().len() ==> (#[trigger] node.spec_children()[k]).ok(
                    min_children(N),
                ) && node.spec_children()[k].spec_depth() + 1 == node.spec_depth()
            &&& node.spec_summary() == sum_of_summaries(node.spec_children())
        },
        node is Leaf ==> node.spec_depth() == 0 && node.spec_leaves().len() == 1,
        node.spec_summary() == L::summary_of(node.content()),
        node.spec_leaf_count() == node.spec_leaves().len(),
{
    lemma_node_facts(node, lo);
    match node {
        Node::Internal(i) => {
            lemma_sum_of_summaries(i.children@);
        },
        Node::Leaf(_) => {},
    }
}

} // verus!
