//! Converting an offset of one metric into the measure of another.
use super::cut::find_child;
use super::node::{
    all_wf, flat, leaves_fit, lemma_has_leaf, lemma_fits_sub, lemma_flat_concat,
    lemma_flat_one, lemma_leaves_fit_parts, lemma_node_facts, lemma_run_content_at,
    lemma_run_measure_step, lemma_seq_leaves_one, lemma_seq_leaves_split, min_children,
    run_content, run_measure, seq_leaves, Node,
};
use super::traits::{BaseMetric, Leaf, Metric, SlicingMetric};
use std::sync::Arc;
use vstd::prelude::*;

verus! {

/// The cut for a smaller offset does not lie after the cut for a greater
/// one.
pub proof fn lemma_cut_monotone<L: Leaf, M: SlicingMetric<L>>(c: Seq<L::Unit>, a: usize, b: usize)
    requires
        L::fits(c),
        a <= b <= M::spec_measure(L::summary_of(c)),
    ensures
        M::spec_cut(c, a) <= M::spec_cut(c, b) <= c.len(),
{
    M::lemma_cut(c, b);
    M::lemma_cut_order(c, a, b);
}

/// Whether the leaves meet at seams of the metric `M`: whether the metric
/// would cut wherever one leaf ends and the next begins.
pub open spec fn seams_ok<L: Leaf, M: SlicingMetric<L>>(ls: Seq<L>) -> bool {
    forall|k: int| 0 <= k <= ls.len() ==> M::spec_seam(#[trigger] flat(ls.take(k)), flat(ls.skip(k)))
}

/// Leaves that meet at seams, seen as three runs of leaves: the middle run
/// meets its neighbours at seams, and its own leaves meet at seams.
pub proof fn lemma_seams_part<L: Leaf, M: SlicingMetric<L>>(la: Seq<L>, lc: Seq<L>, lb: Seq<L>)
    requires
        seams_ok::<L, M>(la + lc + lb),
    ensures
        seams_ok::<L, M>(lc),
        M::spec_seam(flat(la), flat(lc)),
        M::spec_seam(flat(la) + flat(lc), flat(lb)),
{
    let ls = la + lc + lb;
    assert forall|j: int| 0 <= j <= lc.len() implies M::spec_seam(
        #[trigger] flat(lc.take(j)),
        flat(lc.skip(j)),
    ) by {
        let k = la.len() + j;
        assert(ls.take(k) =~= la + lc.take(j));
        assert(ls.skip(k) =~= lc.skip(j) + lb);
        lemma_flat_concat(la, lc.take(j));
        lemma_flat_concat(lc.skip(j), lb);
        assert(M::spec_seam(flat(ls.take(k)), flat(ls.skip(k))));
        M::lemma_seam(flat(la), flat(lc.take(j)), flat(lc.skip(j)), flat(lb));
    }
    assert(lc.take(0) =~= Seq::<L>::empty());
    assert(lc.skip(0) =~= lc);
    assert(flat(lc.take(0)) =~= Seq::<L::Unit>::empty());
    assert(ls.take(la.len() as int) =~= la);
    assert(ls.skip(la.len() as int) =~= lc + lb);
    lemma_flat_concat(lc, lb);
    assert(M::spec_seam(flat(ls.take(la.len() as int)), flat(ls.skip(la.len() as int))));
    M::lemma_seam(Seq::empty(), flat(la), flat(lc), flat(lb));
    assert(Seq::<L::Unit>::empty() + flat(la) =~= flat(la));
    let k = (la.len() + lc.len()) as int;
    assert(ls.take(k) =~= la + lc);
    assert(ls.skip(k) =~= lb);
    lemma_flat_concat(la, lc);
    assert(M::spec_seam(flat(ls.take(k)), flat(ls.skip(k))));
}

/// The measure in `M` of what the first `k` nodes of a run hold.
pub(crate) fn measure_run<const N: usize, L: Leaf, M: Metric<L>>(
    children: &Vec<Arc<Node<N, L>>>,
    k: usize,
) -> (r: usize)
    requires
        all_wf(children@),
        leaves_fit(seq_leaves(children@)),
        k <= children.len(),
    ensures
        r == run_measure::<N, L, M>(children@.take(k as int)),
{
    let mut acc: usize = 0;
    let mut j: usize = 0;
    proof {
        assert(children@.take(0) =~= Seq::<Arc<Node<N, L>>>::empty());
        L::lemma_empty();
        M::lemma_measure_concat(Seq::empty(), Seq::empty());
        assert(Seq::<L::Unit>::empty() + Seq::<L::Unit>::empty() =~= Seq::<L::Unit>::empty());
    }
    while j < k
        invariant
            all_wf(children@),
            leaves_fit(seq_leaves(children@)),
            j <= k <= children.len(),
            acc == run_measure::<N, L, M>(children@.take(j as int)),
        decreases k - j,
    {
        proof {
            lemma_run_measure_step::<N, L, M>(children@, j as int);
        }
        acc = acc + children[j].measure::<M>();
        j = j + 1;
    }
    acc
}

/// The `M2`-measure of what a subtree holds before the cut for the offset
/// `up_to` of `M1`.
pub(crate) fn convert_rec<const N: usize, L: Leaf, M1: SlicingMetric<L>, M2: Metric<L>>(
    node: &Arc<Node<N, L>>,
    up_to: usize,
) -> (r: usize)
    requires
        2 <= N,
        node.sound(),
        up_to <= M1::spec_measure(node.spec_summary()),
        seams_ok::<L, M1>(node.spec_leaves()),
    ensures
        r == M2::spec_measure(
            L::summary_of(node.content().take(M1::spec_cut(node.content(), up_to) as int)),
        ),
        M1::spec_cut(node.content(), up_to) <= node.content().len(),
    decreases node.spec_depth(),
{
    let ghost whole = node.content();
    proof {
        lemma_node_facts(&**node, 1);
        M1::lemma_cut(whole, up_to);
    }
    match &**node {
        Node::Leaf(l) => {
            proof {
                lemma_flat_one(l.value);
            }
            let (_, left_summary, _) = M1::split_left(l.value.as_slice(), up_to, &l.summary);
            proof {
                let c = l.value.content();
                let cut = M1::spec_cut(c, up_to) as int;
                assert(c.take(cut) =~= c.subrange(0, cut));
            }
            M2::measure(&left_summary)
        },
        Node::Internal(i) => {
            let children = &i.children;
            let (k, offset) = find_child::<N, L, M1>(children, up_to, false);
            let before = measure_run::<N, L, M2>(children, k);
            let ghost a = run_content(children@.take(k as int));
            let ghost c = children@[k as int].content();
            let ghost b = run_content(children@.skip(k + 1));
            let ghost at = (up_to - offset) as usize;
            proof {
                lemma_run_content_at(children@, k as int);
                lemma_run_measure_step::<N, L, M1>(children@, k as int);
                assert(children@[k as int].wf());
                lemma_node_facts(&*children@[k as int], 1);
                assert(whole =~= (a + c) + b);
                lemma_seams_part::<L, M1>(
                    seq_leaves(children@.take(k as int)),
                    children@[k as int].spec_leaves(),
                    seq_leaves(children@.skip(k + 1)),
                );
                M1::lemma_cut_concat(a + c, b, up_to);
                L::lemma_concat(a + c, b);
                M1::lemma_cut_concat(a, c, up_to);
                if offset == up_to {
                    assert(a =~= Seq::<L::Unit>::empty());
                    assert(a + c =~= c);
                    L::lemma_empty();
                    M1::lemma_cut(a, 0);
                    M1::lemma_cut_concat(a, c, 0);
                }
                M1::lemma_cut(c, at);
                let cut = M1::spec_cut(c, at) as int;
                assert(M1::spec_cut(whole, up_to) == a.len() + cut);
                assert(whole.take(a.len() + cut) =~= a + c.take(cut));
                assert(whole.take(a.len() + cut) =~= whole.subrange(0, a.len() + cut));
                lemma_fits_sub::<L>(whole, 0, a.len() + cut);
                M2::lemma_measure_concat(a, c.take(cut));
            }
            let inner = convert_rec::<N, L, M1, M2>(&children[k], up_to - offset);
            before + inner
        },
    }
}

/// The measure in `M` of the content of a sequence of leaves.
pub open spec fn leaves_measure<L: Leaf, M: Metric<L>>(ls: Seq<L>) -> usize {
    M::spec_measure(L::summary_of(flat(ls)))
}

/// The index of the leaf in which the offset `at` of the metric `M` falls:
/// the first leaf up to whose end the leaves measure `at` or more, and the
/// last leaf if there is none.
pub open spec fn leaf_index_at<L: Leaf, M: Metric<L>>(ls: Seq<L>, at: int) -> int
    decreases ls.len(),
{
    if ls.len() <= 1 {
        0
    } else if leaves_measure::<L, M>(ls.drop_last()) >= at {
        leaf_index_at::<L, M>(ls.drop_last(), at)
    } else {
        ls.len() - 1
    }
}

/// The measure of two sequences of leaves, one after the other, is the sum
/// of their measures.
pub proof fn lemma_leaves_measure_concat<L: Leaf, M: Metric<L>>(a: Seq<L>, b: Seq<L>)
    requires
        leaves_fit(a + b),
    ensures
        leaves_measure::<L, M>(a + b) == leaves_measure::<L, M>(a) + leaves_measure::<L, M>(b),
        leaves_fit(a),
        leaves_fit(b),
{
    lemma_flat_concat(a, b);
    lemma_leaves_fit_parts(a, b);
    M::lemma_measure_concat(flat(a), flat(b));
}

/// An offset that lies in some leaves falls in the leaf up to whose end
/// the leaves measure the offset or more, while the leaves before it measure
/// less.
pub proof fn lemma_leaf_index_bounds<L: Leaf, M: Metric<L>>(ls: Seq<L>, at: int)
    requires
        leaves_fit(ls),
        ls.len() > 0,
        0 < at <= leaves_measure::<L, M>(ls),
    ensures
        0 <= leaf_index_at::<L, M>(ls, at) < ls.len(),
        leaves_measure::<L, M>(ls.take(leaf_index_at::<L, M>(ls, at))) < at,
        at <= leaves_measure::<L, M>(ls.take(leaf_index_at::<L, M>(ls, at) + 1)),
    decreases ls.len(),
{
    let init = ls.drop_last();
    assert(ls =~= init + seq![ls.last()]);
    assert(ls.take(ls.len() as int) =~= ls);
    assert(ls.take(ls.len() - 1) =~= init);
    if ls.len() == 1 {
        assert(flat(init) =~= Seq::<L::Unit>::empty());
        L::lemma_empty();
        M::lemma_measure_concat(Seq::empty(), Seq::empty());
        assert(Seq::<L::Unit>::empty() + Seq::<L::Unit>::empty() =~= Seq::<L::Unit>::empty());
    } else if leaves_measure::<L, M>(init) >= at {
        lemma_leaves_fit_parts(init, seq![ls.last()]);
        lemma_leaf_index_bounds::<L, M>(init, at);
        let idx = leaf_index_at::<L, M>(init, at);
        assert(init.take(idx) =~= ls.take(idx));
        assert(init.take(idx + 1) =~= ls.take(idx + 1));
    }
}

/// Leaves that follow the leaf in which an offset falls do not change where
/// it falls.
pub proof fn lemma_leaf_index_prefix<L: Leaf, M: Metric<L>>(a: Seq<L>, b: Seq<L>, at: int)
    requires
        leaves_fit(a + b),
        1 <= a.len(),
        at <= leaves_measure::<L, M>(a),
    ensures
        leaf_index_at::<L, M>(a + b, at) == leaf_index_at::<L, M>(a, at),
    decreases b.len(),
{
    if b.len() == 0 {
        assert(a + b =~= a);
    } else {
        assert((a + b).drop_last() =~= a + b.drop_last());
        assert(a + b =~= (a + b.drop_last()) + seq![b.last()]);
        lemma_leaves_fit_parts(a + b.drop_last(), seq![b.last()]);
        lemma_leaves_measure_concat::<L, M>(a, b.drop_last());
        lemma_leaf_index_prefix::<L, M>(a, b.drop_last(), at);
    }
}

/// An offset that falls after a first sequence of leaves falls in the
/// second sequence where what is left of it falls.
pub proof fn lemma_leaf_index_suffix<L: Leaf, M: Metric<L>>(a: Seq<L>, b: Seq<L>, at: int)
    requires
        leaves_fit(a + b),
        1 <= b.len(),
        leaves_measure::<L, M>(a) < at || a.len() == 0,
    ensures
        leaf_index_at::<L, M>(a + b, at) == a.len() + leaf_index_at::<L, M>(
            b,
            at - leaves_measure::<L, M>(a),
        ),
    decreases b.len(),
{
    if a.len() == 0 {
        assert(a + b =~= b);
        assert(flat(a) =~= Seq::<L::Unit>::empty());
        L::lemma_empty();
        M::lemma_measure_concat(Seq::empty(), Seq::empty());
        assert(Seq::<L::Unit>::empty() + Seq::<L::Unit>::empty() =~= Seq::<L::Unit>::empty());
    } else if b.len() == 1 {
        assert((a + b).drop_last() =~= a);
    } else {
        assert((a + b).drop_last() =~= a + b.drop_last());
        assert(a + b =~= (a + b.drop_last()) + seq![b.last()]);
        lemma_leaves_fit_parts(a + b.drop_last(), seq![b.last()]);
        lemma_leaves_measure_concat::<L, M>(a, b.drop_last());
        lemma_leaf_index_suffix::<L, M>(a, b.drop_last(), at);
    }
}

/// Goes down to the leaf in which the offset `at` of the metric `M` falls.
/// Returns that leaf and the measure of the leaves before it.
pub(crate) fn leaf_at_rec<'a, const N: usize, L: Leaf, M: Metric<L>>(
    node: &'a Arc<Node<N, L>>,
    at: usize,
) -> (r: (&'a L::Slice, usize))
    requires
        2 <= N,
        node.sound(),
        at <= M::spec_measure(node.spec_summary()),
    ensures
        0 <= leaf_index_at::<L, M>(node.spec_leaves(), at as int) < node.spec_leaves().len(),
        L::slice_content(r.0) == node.spec_leaves()[leaf_index_at::<L, M>(
            node.spec_leaves(),
            at as int,
        )].content(),
        r.1 == leaves_measure::<L, M>(
            node.spec_leaves().take(leaf_index_at::<L, M>(node.spec_leaves(), at as int)),
        ),
    decreases node.spec_depth(),
{
    proof {
        lemma_node_facts(&**node, 1);
    }
    match &**node {
        Node::Leaf(l) => {
            proof {
                assert(node.spec_leaves().take(0) =~= Seq::<L>::empty());
                L::lemma_empty();
                M::lemma_measure_concat(Seq::empty(), Seq::empty());
                assert(Seq::<L::Unit>::empty() + Seq::<L::Unit>::empty() =~= Seq::<
                    L::Unit,
                >::empty());
            }
            (l.value.as_slice(), 0)
        },
        Node::Internal(i) => {
            let children = &i.children;
            let (k, offset) = find_child::<N, L, M>(children, at, false);
            let ghost a = seq_leaves(children@.take(k as int));
            let ghost b = children@[k as int].spec_leaves();
            let ghost c = seq_leaves(children@.skip(k + 1));
            let ghost inner = leaf_index_at::<L, M>(b, at - offset);
            proof {
                lemma_run_content_at(children@, k as int);
                lemma_run_measure_step::<N, L, M>(children@, k as int);
                assert(children@[k as int].wf());
                lemma_node_facts(&*children@[k as int], 1);
                assert(node.spec_leaves() =~= (a + b) + c);
                lemma_leaves_fit_parts(a + b, c);
                lemma_leaves_measure_concat::<L, M>(a, b);
            }
            let (leaf, before) = leaf_at_rec::<N, L, M>(&children[k], at - offset);
            proof {
                lemma_leaf_index_prefix::<L, M>(a + b, c, at as int);
                lemma_leaf_index_suffix::<L, M>(a, b, at as int);
                assert(node.spec_leaves().take(a.len() + inner) =~= a + b.take(inner));
                assert(b =~= b.take(inner) + b.skip(inner));
                lemma_leaves_fit_parts(b.take(inner), b.skip(inner));
                assert(a + b =~= (a + b.take(inner)) + b.skip(inner));
                lemma_leaves_fit_parts(a + b.take(inner), b.skip(inner));
                lemma_leaves_measure_concat::<L, M>(a, b.take(inner));
            }
            (leaf, offset + before)
        },
    }
}

/// The base offset that stands for the offset `at` of the metric `M`: the
/// cut for `at`, and the end of the content for an offset past the measure
/// of the content.
pub open spec fn cut_or_end<L: Leaf, M: SlicingMetric<L>>(c: Seq<L::Unit>, at: int) -> int {
    if at <= M::spec_measure(L::summary_of(c)) {
        M::spec_cut(c, at as usize) as int
    } else {
        c.len() as int
    }
}

/// The base offset for a smaller offset does not lie after that for a
/// greater one, and both lie in the content.
pub proof fn lemma_cut_or_end_monotone<L: Leaf, M: SlicingMetric<L>>(
    c: Seq<L::Unit>,
    a: usize,
    b: usize,
)
    requires
        L::fits(c),
        a <= b,
    ensures
        0 <= cut_or_end::<L, M>(c, a as int) <= cut_or_end::<L, M>(c, b as int) <= c.len(),
{
    let total = M::spec_measure(L::summary_of(c));
    if b <= total {
        lemma_cut_monotone::<L, M>(c, a, b);
    } else if a <= total {
        lemma_cut_monotone::<L, M>(c, a, a);
    }
}

/// Whether the metric `M` would cut a content at a base offset.
pub open spec fn seam_at<L: Leaf, M: SlicingMetric<L>>(c: Seq<L::Unit>, at: int) -> bool {
    M::spec_seam(c.take(at), c.skip(at))
}

/// The base offset that stands for an offset of a metric is one at which
/// the metric would cut.
pub proof fn lemma_cut_or_end_seam<L: Leaf, M: SlicingMetric<L>>(c: Seq<L::Unit>, at: usize)
    requires
        L::fits(c),
    ensures
        seam_at::<L, M>(c, cut_or_end::<L, M>(c, at as int)),
{
    if at <= M::spec_measure(L::summary_of(c)) {
        M::lemma_cut(c, at);
        let cut = M::spec_cut(c, at) as int;
        assert(c.take(cut) =~= c.subrange(0, cut));
        assert(c.skip(cut) =~= c.subrange(cut, c.len() as int));
    } else {
        M::lemma_seam(Seq::empty(), c, Seq::empty(), Seq::empty());
        assert(c.take(c.len() as int) =~= c);
        assert(c.skip(c.len() as int) =~= Seq::<L::Unit>::empty());
    }
}

/// The base offset in a subtree that stands for the offset `at` of the
/// metric `M`.
pub(crate) fn base_offset<const N: usize, L: Leaf, M: SlicingMetric<L>>(
    node: &Arc<Node<N, L>>,
    at: usize,
) -> (r: usize)
    requires
        2 <= N,
        node.sound(),
        seams_ok::<L, M>(node.spec_leaves()),
    ensures
        r == cut_or_end::<L, M>(node.content(), at as int),
        r <= node.content().len(),
{
    proof {
        lemma_node_facts(&**node, 1);
        L::lemma_base(node.content());
    }
    if at > node.measure::<M>() {
        node.base_measure()
    } else {
        let r = convert_rec::<N, L, M, BaseMetric>(node, at);
        proof {
            let c = node.content();
            let cut = M::spec_cut(c, at) as int;
            assert(c.take(cut) =~= c.subrange(0, cut));
            lemma_fits_sub::<L>(c, 0, cut);
            L::lemma_base(c.take(cut));
        }
        r
    }
}

/// An offset past the measure of some leaves falls in the last of them.
pub proof fn lemma_leaf_index_past<L: Leaf, M: Metric<L>>(ls: Seq<L>, at: int)
    requires
        leaves_fit(ls),
        at > leaves_measure::<L, M>(ls),
        ls.len() > 0,
    ensures
        leaf_index_at::<L, M>(ls, at) == ls.len() - 1,
{
    if ls.len() > 1 {
        assert(ls =~= ls.drop_last() + seq![ls.last()]);
        lemma_leaves_measure_concat::<L, M>(ls.drop_last(), seq![ls.last()]);
    }
}

/// Goes down to the last leaf of a subtree. Returns that leaf and its
/// measure in the metric `M`.
pub(crate) fn last_leaf_rec<'a, const N: usize, L: Leaf, M: Metric<L>>(
    node: &'a Arc<Node<N, L>>,
) -> (r: (&'a L::Slice, usize))
    requires
        2 <= N,
        node.sound(),
    ensures
        node.spec_leaves().len() > 0,
        L::slice_content(r.0) == node.spec_leaves().last().content(),
        r.1 == M::spec_measure(L::summary_of(node.spec_leaves().last().content())),
    decreases node.spec_depth(),
{
    match &**node {
        Node::Leaf(l) => (l.value.as_slice(), M::measure(&l.summary)),
        Node::Internal(i) => {
            let children = &i.children;
            let last = children.len() - 1;
            proof {
                assert(children@[last as int].wf());
                lemma_has_leaf(&*children@[last as int], min_children(N));
                lemma_seq_leaves_split(children@, last as int);
                assert(children@.skip(last as int) =~= seq![children@[last as int]]);
                lemma_seq_leaves_one(children@[last as int]);
            }
            last_leaf_rec::<N, L, M>(&children[last])
        },
    }
}

} // verus!
