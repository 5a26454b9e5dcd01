//! Slices: borrowed views of a range of a tree.
use super::cut::{find_child, find_ends, lemma_span_one};
use super::leaves::{
    collect_range, contents_of, lemma_parts_clip, lemma_parts_one, lemma_parts_outside,
    lemma_parts_run_at, parts_in_range,
};
use super::measure::{
    convert_rec, cut_or_end, lemma_cut_or_end_monotone, lemma_seams_part, seam_at, seams_ok,
};
use super::node::{
    all_wf, leaves_fit, lemma_fits_sub, lemma_flat_one, lemma_node_facts, lemma_run_content_at,
    lemma_run_len_mono, lemma_run_measure_step, lemma_run_take_split, min_children,
    run_content, seq_leaves, Node,
};
use super::replace::slices_content;
use super::traits::{BaseMetric, Leaf, Metric, SlicingMetric, Summary};
use std::ops::Range;
use std::sync::Arc;
use vstd::prelude::*;

verus! {

/// A borrowed view of a contiguous range of a tree.
///
/// The view copies nothing: it names the node that holds the range, keeps
/// the summary of what that node holds before the range and the summary of
/// the range, and borrows the parts of the first and of the last leaf that
/// the range reaches into.
pub struct TreeSlice<'a, const FANOUT: usize, L: Leaf> {
    pub(crate) root: &'a Arc<Node<FANOUT, L>>,
    pub(crate) offset: L::Summary,
    pub(crate) summary: L::Summary,
    pub(crate) start_slice: &'a L::Slice,
    pub(crate) start_summary: L::Summary,
    pub(crate) end_slice: &'a L::Slice,
    pub(crate) end_summary: L::Summary,
}

impl<'a, const FANOUT: usize, L: Leaf> TreeSlice<'a, FANOUT, L> {
    /// The base offset in the root at which the slice starts.
    pub open(crate) spec fn spec_start(&self) -> nat {
        L::spec_base(self.offset) as nat
    }

    /// The number of units of content in the slice.
    pub open(crate) spec fn spec_len(&self) -> nat {
        L::spec_base(self.summary) as nat
    }

    /// The node the slice was cut from.
    pub open(crate) spec fn spec_root(&self) -> Arc<Node<FANOUT, L>> {
        *self.root
    }

    /// The content of the node the slice was cut from.
    pub open(crate) spec fn root_content(&self) -> Seq<L::Unit> {
        self.root.content()
    }

    /// The content of the slice.
    pub open(crate) spec fn content(&self) -> Seq<L::Unit> {
        self.root.content().subrange(
            self.spec_start() as int,
            (self.spec_start() + self.spec_len()) as int,
        )
    }

    /// Whether the root of the slice is the deepest node that holds the
    /// whole slice: the slice is all that the root holds; or it is empty and
    /// the root is a leaf; or it holds something and no child of the root
    /// holds all of it.
    pub open(crate) spec fn root_is_deepest(&self) -> bool {
        ||| self.spec_len() == self.root.content().len()
        ||| self.spec_len() == 0 && (**self.root) is Leaf
        ||| self.spec_len() > 0 && no_child_holds(
            self.root,
            self.spec_start() as int,
            (self.spec_start() + self.spec_len()) as int,
        )
    }

    /// Whether the metric `M` can cut the slice leaf by leaf: whether the
    /// leaves of its root meet at seams of `M`, and the slice starts and ends
    /// at seams of what its root holds. A metric that cuts between any two
    /// units can cut every slice.
    pub open(crate) spec fn seamed<M: SlicingMetric<L>>(&self) -> bool {
        &&& seams_ok::<L, M>(self.root.spec_leaves())
        &&& seam_at::<L, M>(self.root.content(), self.spec_start() as int)
        &&& seam_at::<L, M>(self.root.content(), (self.spec_start() + self.spec_len()) as int)
    }

    /// The parts of the leaves of the root that lie in the slice, one for
    /// each leaf that the slice reaches into, in order.
    pub open(crate) spec fn spec_parts(&self) -> Seq<Seq<L::Unit>> {
        parts_in_range(
            self.root.spec_leaves(),
            self.spec_start() as int,
            (self.spec_start() + self.spec_len()) as int,
        )
    }

    /// The summary of the slice.
    pub open(crate) spec fn spec_summary(&self) -> L::Summary {
        self.summary
    }

    /// The invariants of a slice: its range lies in its root, its summaries
    /// are those of the content before the range and in it, and its two
    /// borrowed parts are the parts of the first and of the last leaf that the
    /// range reaches into.
    pub open(crate) spec fn wf(&self) -> bool {
        let start_len = L::slice_content(self.start_slice).len();
        let end_len = L::slice_content(self.end_slice).len();
        &&& 2 <= FANOUT
        &&& self.root.sound()
        &&& self.spec_start() + self.spec_len() <= self.root.content().len()
        &&& self.offset == L::summary_of(self.root.content().take(self.spec_start() as int))
        &&& self.summary == L::summary_of(self.content())
        &&& self.start_summary == L::summary_of(L::slice_content(self.start_slice))
        &&& self.end_summary == L::summary_of(L::slice_content(self.end_slice))
        &&& start_len + end_len <= self.spec_len()
        &&& L::slice_content(self.start_slice) == self.content().take(start_len as int)
        &&& L::slice_content(self.end_slice) == self.content().skip(self.spec_len() - end_len)
        &&& borrowed_ends(
            self.spec_parts(),
            L::slice_content(self.start_slice),
            L::slice_content(self.end_slice),
        )
    }

    /// The summary of the slice.
    pub fn summary(&self) -> (r: &L::Summary)
        ensures
            *r == self.spec_summary(),
            self.wf() ==> *r == L::summary_of(self.content()),
    {
        &self.summary
    }

    /// The measure of the slice in the metric `M`.
    pub fn measure<M: Metric<L>>(&self) -> (r: usize)
        ensures
            r == M::spec_measure(self.spec_summary()),
            self.wf() ==> r == M::spec_measure(L::summary_of(self.content())),
    {
        M::measure(&self.summary)
    }

    /// The number of units of content in the slice.
    pub fn base_measure(&self) -> (r: usize)
        ensures
            r == self.spec_len(),
            self.wf() ==> r == self.content().len(),
    {
        L::base_measure(&self.summary)
    }
}

impl<'a, const FANOUT: usize, L: Leaf> Clone for TreeSlice<'a, FANOUT, L> {
    fn clone(&self) -> (r: Self)
        ensures
            r == *self,
    {
        TreeSlice {
            root: self.root,
            offset: self.offset,
            summary: self.summary,
            start_slice: self.start_slice,
            start_summary: self.start_summary,
            end_slice: self.end_slice,
            end_summary: self.end_summary,
        }
    }
}

impl<'a, const FANOUT: usize, L: Leaf> Copy for TreeSlice<'a, FANOUT, L> {

}

/// Whether two borrowed parts are the ends of the parts of the leaves that
/// a slice reaches into: the first is the part of the first leaf; the second
/// is the part of the last leaf if the slice reaches into two leaves or more,
/// and empty if not; both are empty for a slice that holds nothing.
pub open spec fn borrowed_ends<T>(parts: Seq<Seq<T>>, first: Seq<T>, last: Seq<T>) -> bool {
    &&& first == if parts.len() >= 1 {
        parts[0]
    } else {
        Seq::empty()
    }
    &&& last == if parts.len() >= 2 {
        parts.last()
    } else {
        Seq::empty()
    }
}

/// The summary of what the nodes of a run hold from `from` up to `to`.
pub(crate) fn sum_run<const N: usize, L: Leaf>(
    children: &Vec<Arc<Node<N, L>>>,
    from: usize,
    to: usize,
) -> (r: L::Summary)
    requires
        all_wf(children@),
        leaves_fit(seq_leaves(children@)),
        from <= to <= children.len(),
    ensures
        r == L::summary_of(run_content(children@.subrange(from as int, to as int))),
{
    let mut acc = L::Summary::zero();
    let mut k: usize = from;
    proof {
        L::lemma_empty();
        assert(children@.subrange(from as int, from as int) =~= Seq::<Arc<Node<N, L>>>::empty());
    }
    while k < to
        invariant
            all_wf(children@),
            leaves_fit(seq_leaves(children@)),
            from <= k <= to <= children.len(),
            acc == L::summary_of(run_content(children@.subrange(from as int, k as int))),
        decreases to - k,
    {
        proof {
            let part = children@.subrange(from as int, k + 1);
            lemma_run_take_split(children@, from as int, k + 1);
            lemma_run_take_split(children@, 0, k + 1);
            lemma_run_content_at(part, k - from);
            assert(part.take(k - from) =~= children@.subrange(from as int, k as int));
            assert(part[k - from] == children@[k as int]);
            lemma_run_measure_step::<N, L, BaseMetric>(children@, k as int);
            L::lemma_concat(run_content(children@.take(from as int)), run_content(part));
            L::lemma_concat(
                run_content(children@.subrange(from as int, k as int)),
                children@[k as int].content(),
            );
            assert(children@[k as int].wf());
            lemma_node_facts(&*children@[k as int], min_children(N));
        }
        acc = acc.add(children[k].summary());
        k = k + 1;
    }
    acc
}

/// The first part of a range that starts in one node of a run and goes
/// on to the end of the run is the first part of what the range takes of
/// that node.
pub(crate) proof fn lemma_start_part<const N: usize, L: Leaf>(
    cs: Seq<Arc<Node<N, L>>>,
    k: int,
    from: int,
)
    requires
        0 <= k < cs.len(),
        run_content(cs.take(k)).len() <= from < run_content(cs.take(k)).len()
            + cs[k].content().len(),
        parts_in_range(
            cs[k].spec_leaves(),
            from - run_content(cs.take(k)).len(),
            cs[k].content().len() as int,
        ).len() >= 1,
    ensures
        parts_in_range(seq_leaves(cs), from, run_content(cs).len() as int).len() >= 1,
        parts_in_range(seq_leaves(cs), from, run_content(cs).len() as int)[0] == parts_in_range(
            cs[k].spec_leaves(),
            from - run_content(cs.take(k)).len(),
            cs[k].content().len() as int,
        )[0],
{
    let total = run_content(cs).len() as int;
    let offset = run_content(cs.take(k)).len() as int;
    lemma_run_content_at(cs, k);
    lemma_parts_run_at(cs, k, from, total);
    lemma_parts_outside(seq_leaves(cs.take(k)), from, total);
    lemma_parts_clip(
        cs[k].spec_leaves(),
        from - offset,
        total - offset,
        from - offset,
        cs[k].content().len() as int,
    );
}

/// The last part of a range that starts with a run and ends in one of its
/// nodes is the last part of what the range takes of that node.
pub(crate) proof fn lemma_end_part<const N: usize, L: Leaf>(
    cs: Seq<Arc<Node<N, L>>>,
    k: int,
    up_to: int,
)
    requires
        0 <= k < cs.len(),
        run_content(cs.take(k)).len() < up_to <= run_content(cs.take(k)).len()
            + cs[k].content().len(),
        parts_in_range(cs[k].spec_leaves(), 0, up_to - run_content(cs.take(k)).len()).len() >= 1,
    ensures
        parts_in_range(seq_leaves(cs), 0, up_to).len() >= 1,
        parts_in_range(seq_leaves(cs), 0, up_to).last() == parts_in_range(
            cs[k].spec_leaves(),
            0,
            up_to - run_content(cs.take(k)).len(),
        ).last(),
{
    let offset = run_content(cs.take(k)).len() as int;
    lemma_run_content_at(cs, k);
    lemma_parts_run_at(cs, k, 0, up_to);
    lemma_parts_outside(
        seq_leaves(cs.skip(k + 1)),
        0 - run_content(cs.take(k + 1)).len(),
        up_to - run_content(cs.take(k + 1)).len(),
    );
    lemma_parts_clip(cs[k].spec_leaves(), 0 - offset, up_to - offset, 0, up_to - offset);
}

/// The parts of a range that lies in one node of a run are the parts of
/// what the range takes of that node.
pub(crate) proof fn lemma_inner_parts<const N: usize, L: Leaf>(
    cs: Seq<Arc<Node<N, L>>>,
    k: int,
    start: int,
    end: int,
)
    requires
        0 <= k < cs.len(),
        run_content(cs.take(k)).len() <= start <= end <= run_content(cs.take(k)).len()
            + cs[k].content().len(),
    ensures
        parts_in_range(seq_leaves(cs), start, end) == parts_in_range(
            cs[k].spec_leaves(),
            start - run_content(cs.take(k)).len(),
            end - run_content(cs.take(k)).len(),
        ),
{
    lemma_run_content_at(cs, k);
    lemma_parts_run_at(cs, k, start, end);
    lemma_parts_outside(seq_leaves(cs.take(k)), start, end);
    lemma_parts_outside(
        seq_leaves(cs.skip(k + 1)),
        start - run_content(cs.take(k + 1)).len(),
        end - run_content(cs.take(k + 1)).len(),
    );
    let inner = parts_in_range(
        cs[k].spec_leaves(),
        start - run_content(cs.take(k)).len(),
        end - run_content(cs.take(k)).len(),
    );
    assert(Seq::<Seq<L::Unit>>::empty() + inner + Seq::<Seq<L::Unit>>::empty() =~= inner);
}

/// The parts of a range that starts in one node of a run and ends in a
/// later one: the first is the first part of what the range takes of the one
/// node, the last is the last part of what it takes of the other.
pub(crate) proof fn lemma_across_parts<const N: usize, L: Leaf>(
    cs: Seq<Arc<Node<N, L>>>,
    first: int,
    last: int,
    start: int,
    end: int,
)
    requires
        0 <= first < last < cs.len(),
        run_content(cs.take(first)).len() <= start < run_content(cs.take(first)).len()
            + cs[first].content().len(),
        run_content(cs.take(last)).len() < end <= run_content(cs.take(last)).len()
            + cs[last].content().len(),
        parts_in_range(
            cs[first].spec_leaves(),
            start - run_content(cs.take(first)).len(),
            cs[first].content().len() as int,
        ).len() >= 1,
        parts_in_range(cs[last].spec_leaves(), 0, end - run_content(cs.take(last)).len()).len()
            >= 1,
    ensures
        parts_in_range(seq_leaves(cs), start, end).len() >= 2,
        parts_in_range(seq_leaves(cs), start, end)[0] == parts_in_range(
            cs[first].spec_leaves(),
            start - run_content(cs.take(first)).len(),
            cs[first].content().len() as int,
        )[0],
        parts_in_range(seq_leaves(cs), start, end).last() == parts_in_range(
            cs[last].spec_leaves(),
            0,
            end - run_content(cs.take(last)).len(),
        ).last(),
{
    let first_offset = run_content(cs.take(first)).len() as int;
    let last_offset = run_content(cs.take(last)).len() as int;
    let upto = cs.take(last + 1);
    lemma_run_content_at(cs, first);
    lemma_run_content_at(cs, last);
    lemma_run_take_split(cs, first + 1, last);
    // What lies after the later node is outside the range.
    lemma_parts_run_at(cs, last, start, end);
    lemma_parts_outside(
        seq_leaves(cs.skip(last + 1)),
        start - run_content(cs.take(last + 1)).len(),
        end - run_content(cs.take(last + 1)).len(),
    );
    lemma_parts_clip(
        cs[last].spec_leaves(),
        start - last_offset,
        end - last_offset,
        0,
        end - last_offset,
    );
    // What lies before the later node starts with the first node's part.
    let before = cs.take(last);
    assert(before.take(first) =~= cs.take(first));
    assert(before.take(first + 1) =~= cs.take(first + 1));
    assert(before[first] == cs[first]);
    lemma_parts_run_at(before, first, start, end);
    lemma_parts_outside(seq_leaves(cs.take(first)), start, end);
    lemma_parts_clip(
        cs[first].spec_leaves(),
        start - first_offset,
        end - first_offset,
        start - first_offset,
        cs[first].content().len() as int,
    );
}

/// Goes down to the leaf in which the base offset `from` falls. Returns
/// the summary of what the subtree holds before `from`, the part of that
/// leaf from `from` on with its summary, and the summary of what the
/// subtree holds from `from` on.
pub(crate) fn start_rec<'a, const N: usize, L: Leaf>(node: &'a Arc<Node<N, L>>, from: usize) -> (r: (
    L::Summary,
    &'a L::Slice,
    L::Summary,
    L::Summary,
))
    requires
        2 <= N,
        node.sound(),
        from < node.content().len(),
    ensures
        r.0 == L::summary_of(node.content().take(from as int)),
        1 <= L::slice_content(r.1).len(),
        from + L::slice_content(r.1).len() <= node.content().len(),
        L::slice_content(r.1) == node.content().subrange(
            from as int,
            from + L::slice_content(r.1).len(),
        ),
        r.2 == L::summary_of(L::slice_content(r.1)),
        r.3 == L::summary_of(node.content().skip(from as int)),
        parts_in_range(node.spec_leaves(), from as int, node.content().len() as int).len() >= 1,
        parts_in_range(node.spec_leaves(), from as int, node.content().len() as int)[0]
            == L::slice_content(r.1),
    decreases node.spec_depth(),
{
    proof {
        lemma_node_facts(&**node, 1);
        L::lemma_base(node.content());
    }
    match &**node {
        Node::Leaf(l) => {
            proof {
                lemma_flat_one(l.value);
            }
            let (left_summary, right, right_summary) = <BaseMetric as SlicingMetric<
                L,
            >>::split_right(l.value.as_slice(), from, &l.summary);
            proof {
                let c = l.value.content();
                assert(c.take(from as int) =~= c.subrange(0, from as int));
                assert(c.skip(from as int) =~= c.subrange(from as int, c.len() as int));
            }
            proof {
                lemma_parts_one(l.value, from as int, l.value.content().len() as int);
            }
            (left_summary, right, right_summary, right_summary)
        },
        Node::Internal(i) => {
            let children = &i.children;
            let len = children.len();
            let (k, offset) = find_child::<N, L, BaseMetric>(children, from, true);
            proof {
                lemma_run_content_at(children@, k as int);
                lemma_run_measure_step::<N, L, BaseMetric>(children@, k as int);
                L::lemma_base(run_content(children@.take(k as int)));
                assert(children@[k as int].wf());
            }
            let (inner_before, part, part_summary, inner_rest) = start_rec(
                &children[k],
                from - offset,
            );
            let head = sum_run(children, 0, k);
            let tail = sum_run(children, k + 1, len);
            let ghost whole = node.content();
            let ghost before = run_content(children@.take(k as int));
            let ghost inside = children@[k as int].content();
            let ghost after = run_content(children@.skip(k + 1));
            proof {
                assert(children@.subrange(0, k as int) =~= children@.take(k as int));
                assert(children@.subrange(k + 1, len as int) =~= children@.skip(k + 1));
                assert(whole.take(from as int) =~= before + inside.take(from - offset));
                assert(whole.skip(from as int) =~= inside.skip(from - offset) + after);
                assert(whole.take(from as int) =~= whole.subrange(0, from as int));
                assert(whole.skip(from as int) =~= whole.subrange(from as int, whole.len() as int));
                lemma_fits_sub::<L>(whole, 0, from as int);
                lemma_fits_sub::<L>(whole, from as int, whole.len() as int);
                L::lemma_concat(before, inside.take(from - offset));
                L::lemma_concat(inside.skip(from - offset), after);
                assert(L::slice_content(part) =~= whole.subrange(
                    from as int,
                    from + L::slice_content(part).len(),
                ));
            }
            proof {
                lemma_node_facts(&*children@[k as int], 1);
                L::lemma_base(inside);
                lemma_start_part(children@, k as int, from as int);
            }
            (head.add(&inner_before), part, part_summary, inner_rest.add(&tail))
        },
    }
}

/// Goes down to the leaf in which the base offset `up_to` falls. Returns
/// the part of that leaf up to `up_to` with its summary, and the summary
/// of what the subtree holds up to `up_to`.
pub(crate) fn end_rec<'a, const N: usize, L: Leaf>(node: &'a Arc<Node<N, L>>, up_to: usize) -> (r: (
    &'a L::Slice,
    L::Summary,
    L::Summary,
))
    requires
        2 <= N,
        node.sound(),
        0 < up_to <= node.content().len(),
    ensures
        1 <= L::slice_content(r.0).len() <= up_to,
        L::slice_content(r.0) == node.content().subrange(
            up_to - L::slice_content(r.0).len(),
            up_to as int,
        ),
        r.1 == L::summary_of(L::slice_content(r.0)),
        r.2 == L::summary_of(node.content().take(up_to as int)),
        parts_in_range(node.spec_leaves(), 0, up_to as int).len() >= 1,
        parts_in_range(node.spec_leaves(), 0, up_to as int).last() == L::slice_content(r.0),
    decreases node.spec_depth(),
{
    proof {
        lemma_node_facts(&**node, 1);
        L::lemma_base(node.content());
    }
    match &**node {
        Node::Leaf(l) => {
            proof {
                lemma_flat_one(l.value);
            }
            let (left, left_summary, _) = <BaseMetric as SlicingMetric<L>>::split_left(
                l.value.as_slice(),
                up_to,
                &l.summary,
            );
            proof {
                let c = l.value.content();
                assert(c.take(up_to as int) =~= c.subrange(0, up_to as int));
            }
            proof {
                lemma_parts_one(l.value, 0, up_to as int);
            }
            (left, left_summary, left_summary)
        },
        Node::Internal(i) => {
            let children = &i.children;
            let (k, offset) = find_child::<N, L, BaseMetric>(children, up_to, false);
            proof {
                lemma_run_content_at(children@, k as int);
                lemma_run_measure_step::<N, L, BaseMetric>(children@, k as int);
                L::lemma_base(run_content(children@.take(k as int)));
                assert(children@[k as int].wf());
            }
            let (part, part_summary, inner_prefix) = end_rec(&children[k], up_to - offset);
            let head = sum_run(children, 0, k);
            let ghost whole = node.content();
            let ghost before = run_content(children@.take(k as int));
            let ghost inside = children@[k as int].content();
            proof {
                assert(children@.subrange(0, k as int) =~= children@.take(k as int));
                assert(whole.take(up_to as int) =~= before + inside.take(up_to - offset));
                assert(whole.take(up_to as int) =~= whole.subrange(0, up_to as int));
                lemma_fits_sub::<L>(whole, 0, up_to as int);
                L::lemma_concat(before, inside.take(up_to - offset));
                assert(L::slice_content(part) =~= whole.subrange(
                    up_to - L::slice_content(part).len(),
                    up_to as int,
                ));
            }
            proof {
                lemma_node_facts(&*children@[k as int], 1);
                L::lemma_base(inside);
                lemma_end_part(children@, k as int, up_to as int);
            }
            (part, part_summary, head.add(&inner_prefix))
        },
    }
}

/// The slice of a subtree between two base offsets, with the subtree's own
/// root as its root: one descent that sums up what lies before the range,
/// borrows the parts of the two leaves at its ends and sums up what lies in
/// between.
pub(crate) fn slice_rec<'a, const N: usize, L: Leaf>(
    node: &'a Arc<Node<N, L>>,
    start: usize,
    end: usize,
) -> (r: TreeSlice<'a, N, L>)
    requires
        2 <= N,
        node.sound(),
        start < end <= node.content().len(),
    ensures
        r.wf(),
        r.root == node,
        r.spec_start() == start,
        r.spec_len() == end - start,
    decreases node.spec_depth(),
{
    let ghost whole = node.content();
    proof {
        lemma_node_facts(&**node, 1);
        L::lemma_base(whole);
        assert(whole.take(start as int) =~= whole.subrange(0, start as int));
        lemma_fits_sub::<L>(whole, 0, start as int);
        lemma_fits_sub::<L>(whole, start as int, end as int);
        L::lemma_base(whole.take(start as int));
        L::lemma_base(whole.subrange(start as int, end as int));
        L::lemma_empty();
    }
    match &**node {
        Node::Leaf(l) => {
            proof {
                lemma_flat_one(l.value);
            }
            let (before, _, _) = <BaseMetric as SlicingMetric<L>>::split_right(
                l.value.as_slice(),
                start,
                &l.summary,
            );
            let (part, part_summary) = <BaseMetric as SlicingMetric<L>>::slice(
                l.value.as_slice(),
                start,
                end,
                &l.summary,
            );
            let r = TreeSlice {
                root: node,
                offset: before,
                summary: part_summary,
                start_slice: part,
                start_summary: part_summary,
                end_slice: L::empty_slice(),
                end_summary: L::Summary::zero(),
            };
            proof {
                assert(r.content() =~= L::slice_content(part));
                lemma_parts_one(l.value, start as int, end as int);
                assert(r.content().take(r.content().len() as int) =~= r.content());
                assert(r.content().skip(r.content().len() as int) =~= Seq::<L::Unit>::empty());
            }
            r
        },
        Node::Internal(i) => {
            let children = &i.children;
            let (first, first_offset, last, last_offset) = find_ends(children, start, end, true);
            proof {
                assert(children@[first as int].wf());
                assert(children@[last as int].wf());
                assert(children@.subrange(0, first as int) =~= children@.take(first as int));
            }
            let head = sum_run(children, 0, first);
            let ghost before = run_content(children@.take(first as int));
            if first == last {
                let inner = slice_rec(&children[first], start - first_offset, end - first_offset);
                let ghost inside = children@[first as int].content();
                proof {
                    lemma_run_content_at(children@, first as int);
                    assert(whole.take(start as int) =~= before + inside.take(start - first_offset));
                    L::lemma_concat(before, inside.take(start - first_offset));
                    assert(whole.subrange(start as int, end as int) =~= inside.subrange(
                        start - first_offset,
                        end - first_offset,
                    ));
                }
                let r = TreeSlice {
                    root: node,
                    offset: head.add(&inner.offset),
                    summary: inner.summary,
                    start_slice: inner.start_slice,
                    start_summary: inner.start_summary,
                    end_slice: inner.end_slice,
                    end_summary: inner.end_summary,
                };
                proof {
                    assert(r.content() =~= inner.content());
                    lemma_inner_parts(children@, first as int, start as int, end as int);
                }
                r
            } else {
                slice_across(node, children, first, first_offset, last, last_offset, start, end)
            }
        },
    }
}

/// The slice of an internal node between two base offsets that fall in two
/// different children of it.
pub(crate) fn slice_across<'a, const N: usize, L: Leaf>(
    node: &'a Arc<Node<N, L>>,
    children: &'a Vec<Arc<Node<N, L>>>,
    first: usize,
    first_offset: usize,
    last: usize,
    last_offset: usize,
    start: usize,
    end: usize,
) -> (r: TreeSlice<'a, N, L>)
    requires
        2 <= N,
        node.sound(),
        all_wf(children@),
        leaves_fit(seq_leaves(children@)),
        run_content(children@) == node.content(),
        seq_leaves(children@) == node.spec_leaves(),
        first < last < children.len(),
        first_offset == run_content(children@.take(first as int)).len(),
        last_offset == run_content(children@.take(last as int)).len(),
        first_offset <= start < first_offset + children@[first as int].content().len(),
        last_offset < end <= last_offset + children@[last as int].content().len(),
    ensures
        r.wf(),
        r.root == node,
        r.spec_start() == start,
        r.spec_len() == end - start,
{
    let ghost whole = node.content();
    let ghost before = run_content(children@.take(first as int));
    let ghost c_first = children@[first as int].content();
    let ghost c_last = children@[last as int].content();
    let ghost c_mid = run_content(children@.subrange(first + 1, last as int));
    let ghost wanted = whole.subrange(start as int, end as int);
    proof {
        super::cut::lemma_span(children@, first as int, last as int);
        assert(children@[first as int].wf());
        assert(children@[last as int].wf());
        assert(children@.subrange(0, first as int) =~= children@.take(first as int));
        assert(whole.take(start as int) =~= whole.subrange(0, start as int));
        lemma_fits_sub::<L>(whole, 0, start as int);
        lemma_fits_sub::<L>(whole, start as int, end as int);
        L::lemma_base(whole.take(start as int));
        L::lemma_base(wanted);
        assert(whole.take(start as int) =~= before + c_first.take(start - first_offset));
        L::lemma_concat(before, c_first.take(start - first_offset));
        assert(wanted =~= (c_first.skip(start - first_offset) + c_mid) + c_last.take(
            end - last_offset,
        ));
        L::lemma_concat(c_first.skip(start - first_offset) + c_mid, c_last.take(end - last_offset));
        L::lemma_concat(c_first.skip(start - first_offset), c_mid);
    }
    let head = sum_run(children, 0, first);
    let (inner_before, start_slice, start_summary, inner_rest) = start_rec(
        &children[first],
        start - first_offset,
    );
    let (end_slice, end_summary, inner_prefix) = end_rec(&children[last], end - last_offset);
    let mid = sum_run(children, first + 1, last);
    let r = TreeSlice {
        root: node,
        offset: head.add(&inner_before),
        summary: inner_rest.add(&mid).add(&inner_prefix),
        start_slice,
        start_summary,
        end_slice,
        end_summary,
    };
    proof {
        let start_len = L::slice_content(start_slice).len() as int;
        let end_len = L::slice_content(end_slice).len() as int;
        assert(r.content() =~= wanted);
        assert(L::slice_content(start_slice) =~= wanted.take(start_len));
        assert(L::slice_content(end_slice) =~= wanted.skip(end - start - end_len));
        lemma_node_facts(&*children@[first as int], 1);
        lemma_node_facts(&*children@[last as int], 1);
        L::lemma_base(c_first);
        L::lemma_base(c_last);
        lemma_across_parts(children@, first as int, last as int, start as int, end as int);
    }
    r
}

impl<'a, const FANOUT: usize, L: Leaf> TreeSlice<'a, FANOUT, L> {
    /// The slice of the subtree under `root` between two base offsets. Its
    /// root is the deepest node that holds the whole range, unless the range
    /// is all that `root` holds: then it is `root`. The deepest node that
    /// holds an empty range is the leaf at its offset: the leaf that holds
    /// the unit at that offset, and the last leaf that holds anything for
    /// the offset at the end.
    pub(crate) fn from_range_in_root(root: &'a Arc<Node<FANOUT, L>>, start: usize, end: usize) -> (r:
        Self)
        requires
            2 <= FANOUT,
            root.sound(),
            start <= end <= root.content().len(),
        ensures
            r.wf(),
            r.content() == root.content().subrange(start as int, end as int),
            start == 0 && end == root.content().len() ==> r.root == root,
            r.root_is_deepest(),
            lies_at(&**root, &**r.root, start - r.spec_start()),
            start == end < root.content().len() ==> r.spec_start() < r.root.content().len(),
            start == end && 0 < root.content().len() ==> r.root.content().len() > 0,
            r.root.spec_depth() <= root.spec_depth(),
            r.root.spec_leaves().len() <= root.spec_leaves().len(),
    {
        let ghost whole = root.content();
        proof {
            lemma_node_facts(&**root, 1);
            L::lemma_base(whole);
        }
        if start == end {
            proof {
                assert(whole.subrange(start as int, end as int) =~= Seq::<L::Unit>::empty());
            }
            if root.base_measure() == 0 {
                Self::empty_at(root, 0)
            } else {
                let (leaf, at) = leaf_at_offset(root, start);
                Self::empty_at(leaf, at)
            }
        } else if start == 0 && end == root.base_measure() {
            slice_rec(root, start, end)
        } else {
            let (node, s, e) = deepest(root, start, end);
            slice_rec(node, s, e)
        }
    }

    /// The slice that holds nothing, at a base offset in a node.
    pub(crate) fn empty_at(root: &'a Arc<Node<FANOUT, L>>, start: usize) -> (r: Self)
        requires
            2 <= FANOUT,
            root.sound(),
            start <= root.content().len(),
        ensures
            r.wf(),
            r.root == root,
            r.spec_start() == start,
            r.spec_len() == 0,
    {
        let ghost whole = root.content();
        proof {
            lemma_node_facts(&**root, 1);
            L::lemma_base(whole);
        }
        let offset = if start == 0 {
            proof {
                L::lemma_empty();
                assert(whole.take(0) =~= Seq::<L::Unit>::empty());
            }
            L::Summary::zero()
        } else {
            end_rec(root, start).2
        };
        let r = TreeSlice {
            root,
            offset,
            summary: L::Summary::zero(),
            start_slice: L::empty_slice(),
            start_summary: L::Summary::zero(),
            end_slice: L::empty_slice(),
            end_summary: L::Summary::zero(),
        };
        proof {
            L::lemma_empty();
            L::lemma_base(Seq::<L::Unit>::empty());
            assert(whole.take(start as int) =~= whole.subrange(0, start as int));
            lemma_fits_sub::<L>(whole, 0, start as int);
            L::lemma_base(whole.take(start as int));
            assert(r.content() =~= Seq::<L::Unit>::empty());
            assert(r.content().take(0) =~= Seq::<L::Unit>::empty());
            assert(r.content().skip(0) =~= Seq::<L::Unit>::empty());
            lemma_parts_outside(root.spec_leaves(), start as int, start as int);
        }
        r
    }
}

/// Goes down to the leaf at a base offset: the leaf that holds the unit at
/// that offset, and the last leaf for the offset at the end. Returns the leaf
/// and the offset as the leaf sees it.
pub(crate) fn leaf_at_offset<'a, const N: usize, L: Leaf>(
    root: &'a Arc<Node<N, L>>,
    at: usize,
) -> (r: (&'a Arc<Node<N, L>>, usize))
    requires
        2 <= N,
        root.sound(),
        at <= root.content().len(),
    ensures
        (**r.0) is Leaf,
        r.0.sound(),
        r.1 <= r.0.content().len(),
        lies_at(&**root, &**r.0, at - r.1),
        at < root.content().len() ==> r.1 < r.0.content().len(),
        root.content().len() > 0 ==> r.0.content().len() > 0,
        r.0.spec_depth() <= root.spec_depth(),
        r.0.spec_leaves().len() <= root.spec_leaves().len(),
    decreases root.spec_depth(),
{
    match &**root {
        Node::Leaf(_) => (root, at),
        Node::Internal(i) => {
            let children = &i.children;
            proof {
                lemma_node_facts(&**root, 1);
                L::lemma_base(root.content());
            }
            let (k, offset) = find_child::<N, L, BaseMetric>(
                children,
                at,
                at < root.base_measure(),
            );
            proof {
                lemma_run_measure_step::<N, L, BaseMetric>(children@, k as int);
                L::lemma_base(run_content(children@.take(k as int)));
                L::lemma_base(run_content(children@.take(k + 1)));
                assert(children@[k as int].wf());
                lemma_span_one(children@, k as int);
                lemma_run_content_at(children@, k as int);
            }
            let r = leaf_at_offset(&children[k], at - offset);
            proof {
                assert(lies_at(
                    &*children@[k as int],
                    &**r.0,
                    at - r.1 - run_content(children@.take(k as int)).len(),
                ));
            }
            r
        },
    }
}

impl<'a, const FANOUT: usize, L: Leaf> TreeSlice<'a, FANOUT, L> {
    /// The base offset in the root that stands for the offset `at` of the
    /// metric `M`, counted from the start of the slice.
    fn cut_in_root<M: SlicingMetric<L>>(&self, at: usize) -> (r: usize)
        requires
            self.wf(),
            self.seamed::<M>(),
        ensures
            r == self.spec_start() + cut_or_end::<L, M>(self.content(), at as int),
            0 <= cut_or_end::<L, M>(self.content(), at as int) <= self.spec_len(),
            seam_at::<L, M>(self.root.content(), r as int),
    {
        let ghost whole = self.root.content();
        let ghost start = self.spec_start() as int;
        let ghost end = (self.spec_start() + self.spec_len()) as int;
        let ghost a = whole.take(start);
        let ghost c = self.content();
        let ghost b = whole.skip(end);
        proof {
            lemma_node_facts(&**self.root, 1);
            assert(whole =~= (a + c) + b);
            assert(a + c =~= whole.subrange(0, end));
            lemma_fits_sub::<L>(whole, 0, end);
            lemma_fits_sub::<L>(whole, start, end);
            L::lemma_base(c);
            L::lemma_base(whole);
            M::lemma_measure_concat(a, c);
            L::lemma_concat(a + c, b);
            M::lemma_measure_concat(a + c, b);
            assert(whole.skip(start) =~= c + b);
            assert(whole.take(end) =~= a + c);
            assert(Seq::<L::Unit>::empty() + a =~= a);
            assert(b + Seq::<L::Unit>::empty() =~= b);
            M::lemma_seam(Seq::empty(), a, c, b);
            M::lemma_seam(Seq::empty(), a + c, b, Seq::empty());
        }
        if at > M::measure(&self.summary) {
            L::base_measure(&self.offset) + L::base_measure(&self.summary)
        } else if at == 0 {
            proof {
                L::lemma_empty();
                M::lemma_cut(Seq::<L::Unit>::empty(), 0);
                M::lemma_seam(Seq::empty(), c, Seq::empty(), Seq::empty());
                M::lemma_cut_concat(Seq::<L::Unit>::empty(), c, 0);
                assert(Seq::<L::Unit>::empty() + c =~= c);
            }
            L::base_measure(&self.offset)
        } else {
            let before = M::measure(&self.offset);
            proof {
                M::lemma_cut(c, at);
                let up_to = (before + at) as usize;
                M::lemma_cut_concat(a + c, b, up_to);
                M::lemma_cut_concat(a, c, up_to);
                let cut = (a.len() + M::spec_cut(c, at)) as int;
                assert(whole.take(cut) =~= whole.subrange(0, cut));
                lemma_fits_sub::<L>(whole, 0, cut);
                L::lemma_base(whole.take(cut));
                M::lemma_cut(whole, up_to);
                assert(whole.skip(cut) =~= whole.subrange(cut, whole.len() as int));
            }
            convert_rec::<FANOUT, L, M, BaseMetric>(self.root, before + at)
        }
    }

    /// The parts of the leaves of the tree that lie in the slice, one for
    /// each leaf that the slice reaches into, in order.
    pub fn leaves(&self) -> (r: Vec<&'a L::Slice>)
        requires
            self.wf(),
        ensures
            slices_content::<L>(r@) == self.content(),
            contents_of::<L>(r@) == parts_in_range(
                self.spec_root().spec_leaves(),
                self.spec_start() as int,
                (self.spec_start() + self.spec_len()) as int,
            ),
    {
        let mut out: Vec<&'a L::Slice> = Vec::new();
        proof {
            lemma_node_facts(&**self.root, 1);
            lemma_fits_sub::<L>(
                self.root.content(),
                self.spec_start() as int,
                (self.spec_start() + self.spec_len()) as int,
            );
            L::lemma_base(self.content());
            L::lemma_base(self.root.content());
        }
        let start = L::base_measure(&self.offset);
        let len = L::base_measure(&self.summary);
        if len > 0 {
            collect_range(self.root, start, start + len, &mut out);
            proof {
                assert(slices_content::<L>(Seq::<&L::Slice>::empty()) + self.content()
                    =~= self.content());
                assert(contents_of::<L>(Seq::<&L::Slice>::empty()) + parts_in_range(
                    self.root.spec_leaves(),
                    start as int,
                    start + len,
                ) =~= parts_in_range(self.root.spec_leaves(), start as int, start + len));
            }
        } else {
            proof {
                assert(self.content() =~= Seq::<L::Unit>::empty());
                lemma_parts_outside(self.root.spec_leaves(), start as int, start as int);
                assert(contents_of::<L>(out@) =~= Seq::<Seq<L::Unit>>::empty());
            }
        }
        out
    }

    /// The units of the metric `M` in the slice, in order: one slice for
    /// each, from the cut for its offset to the cut for the next offset. The
    /// metric must be able to cut this slice.
    pub fn units<M: SlicingMetric<L>>(&self) -> (r: Vec<TreeSlice<'a, FANOUT, L>>)
        requires
            self.wf(),
            self.seamed::<M>(),
        ensures
            r@.len() == M::spec_measure(self.spec_summary()),
            forall|k: int|
                0 <= k < r@.len() ==> (#[trigger] r@[k]).wf() && r@[k].content()
                    == self.content().subrange(
                    M::spec_cut(self.content(), k as usize) as int,
                    M::spec_cut(self.content(), (k + 1) as usize) as int,
                ),
    {
        let count = M::measure(&self.summary);
        let mut out: Vec<TreeSlice<'a, FANOUT, L>> = Vec::new();
        let mut k: usize = 0;
        while k < count
            invariant
                self.wf(),
                self.seamed::<M>(),
                count == M::spec_measure(self.spec_summary()),
                0 <= k <= count,
                out@.len() == k,
                forall|j: int|
                    0 <= j < k ==> (#[trigger] out@[j]).wf() && out@[j].content()
                        == self.content().subrange(
                        M::spec_cut(self.content(), j as usize) as int,
                        M::spec_cut(self.content(), (j + 1) as usize) as int,
                    ),
            decreases count - k,
        {
            let unit = self.slice::<M>(k..k + 1);
            out.push(unit);
            k = k + 1;
        }
        out
    }

    /// The slice of this slice between the base offsets that stand for two
    /// offsets of the metric `M`, counted from the start of this slice: the
    /// cut for an offset, and the end of this slice for an offset of one more
    /// than its measure. The metric must be able to cut this slice, as it
    /// can cut any slice that it has made itself.
    pub fn slice<M: SlicingMetric<L>>(&self, range: Range<usize>) -> (r: TreeSlice<'a, FANOUT, L>)
        requires
            self.wf(),
            self.seamed::<M>(),
            range.start <= range.end <= M::spec_measure(self.spec_summary()) + 1,
        ensures
            r.wf(),
            r.content() == self.content().subrange(
                cut_or_end::<L, M>(self.content(), range.start as int),
                cut_or_end::<L, M>(self.content(), range.end as int),
            ),
            r.spec_len() == cut_or_end::<L, M>(self.content(), range.end as int) - cut_or_end::<
                L,
                M,
            >(self.content(), range.start as int),
            r.root_is_deepest(),
            r.seamed::<M>(),
            lies_at(
                &*self.spec_root(),
                &*r.spec_root(),
                self.spec_start() + cut_or_end::<L, M>(self.content(), range.start as int)
                    - r.spec_start(),
            ),
            r.spec_root().spec_depth() <= self.spec_root().spec_depth(),
            r.spec_root().spec_leaves().len() <= self.spec_root().spec_leaves().len(),
    {
        let ghost whole = self.root.content();
        let ghost c = self.content();
        proof {
            lemma_node_facts(&**self.root, 1);
            lemma_fits_sub::<L>(
                whole,
                self.spec_start() as int,
                (self.spec_start() + self.spec_len()) as int,
            );
            lemma_cut_or_end_monotone::<L, M>(c, range.start, range.end);
        }
        let start = self.cut_in_root::<M>(range.start);
        let end = self.cut_in_root::<M>(range.end);
        let r = TreeSlice::from_range_in_root(self.root, start, end);
        proof {
            let s = cut_or_end::<L, M>(c, range.start as int);
            let e = cut_or_end::<L, M>(c, range.end as int);
            assert(whole.subrange(start as int, end as int) =~= c.subrange(s, e));
            lemma_fits_sub::<L>(c, s, e);
            L::lemma_base(c.subrange(s, e));
            lemma_seamed::<FANOUT, L, M>(&**self.root, r, start as int);
        }
        r
    }
}

/// Whether `node` is a node of the subtree under `root`, and what it holds
/// starts at the base offset `at` of what `root` holds.
pub open(crate) spec fn lies_at<const N: usize, L: Leaf>(
    root: &Node<N, L>,
    node: &Node<N, L>,
    at: int,
) -> bool
    decreases root,
{
    ||| node == root && at == 0
    ||| match root {
        Node::Leaf(_) => false,
        Node::Internal(i) => exists|k: int|
            0 <= k < i.children@.len() && lies_at(
                &*#[trigger] i.children@[k],
                node,
                at - run_content(i.children@.take(k)).len(),
            ),
    }
}

/// A node under a root holds a part of what the root holds, and its leaves
/// meet at seams of a metric where those of the root do.
pub(crate) proof fn lemma_lies_at<const N: usize, L: Leaf, M: SlicingMetric<L>>(
    root: &Node<N, L>,
    node: &Node<N, L>,
    at: int,
)
    requires
        root.sound(),
        lies_at(root, node, at),
        seams_ok::<L, M>(root.spec_leaves()),
    ensures
        node.sound(),
        0 <= at,
        at + node.content().len() <= root.content().len(),
        node.content() == root.content().subrange(at, at + node.content().len()),
        seams_ok::<L, M>(node.spec_leaves()),
    decreases root,
{
    if node == root && at == 0 {
        assert(root.content().subrange(0, root.content().len() as int) =~= root.content());
    } else {
        match root {
            Node::Leaf(_) => {},
            Node::Internal(i) => {
                let cs = i.children@;
                let k = choose|k: int|
                    0 <= k < cs.len() && lies_at(
                        &*#[trigger] cs[k],
                        node,
                        at - run_content(cs.take(k)).len(),
                    );
                let inner = at - run_content(cs.take(k)).len();
                assert(cs[k].wf());
                lemma_run_content_at(cs, k);
                lemma_seams_part::<L, M>(
                    seq_leaves(cs.take(k)),
                    cs[k].spec_leaves(),
                    seq_leaves(cs.skip(k + 1)),
                );
                lemma_lies_at::<N, L, M>(&*cs[k], node, inner);
                assert(node.content() =~= root.content().subrange(
                    at,
                    at + node.content().len(),
                ));
            },
        }
    }
}

/// A slice of what a root holds between two seams of a metric, whose own
/// root lies under that root, can be cut by the metric where the root can.
pub(crate) proof fn lemma_seamed<const N: usize, L: Leaf, M: SlicingMetric<L>>(
    root: &Node<N, L>,
    slice: TreeSlice<'_, N, L>,
    start: int,
)
    requires
        root.sound(),
        slice.wf(),
        seams_ok::<L, M>(root.spec_leaves()),
        lies_at(root, &**slice.root, start - slice.spec_start()),
        seam_at::<L, M>(root.content(), start),
        seam_at::<L, M>(root.content(), start + slice.spec_len()),
    ensures
        slice.seamed::<M>(),
{
    let whole = root.content();
    let inner = slice.root.content();
    let at = start - slice.spec_start();
    let from = slice.spec_start() as int;
    let to = (slice.spec_start() + slice.spec_len()) as int;
    lemma_lies_at::<N, L, M>(root, &**slice.root, at);
    assert(whole.take(start) =~= whole.take(at) + inner.take(from));
    assert(whole.skip(start) =~= inner.skip(from) + whole.skip(at + inner.len()));
    M::lemma_seam(whole.take(at), inner.take(from), inner.skip(from), whole.skip(at + inner.len()));
    assert(whole.take(at + to) =~= whole.take(at) + inner.take(to));
    assert(whole.skip(at + to) =~= inner.skip(to) + whole.skip(at + inner.len()));
    M::lemma_seam(whole.take(at), inner.take(to), inner.skip(to), whole.skip(at + inner.len()));
}

/// Whether no child of a node holds the whole of a range of what the node
/// holds.
pub open(crate) spec fn no_child_holds<const N: usize, L: Leaf>(
    node: &Arc<Node<N, L>>,
    start: int,
    end: int,
) -> bool {
    match **node {
        Node::Leaf(_) => true,
        Node::Internal(i) => forall|k: int|
            0 <= k < i.children@.len() ==> !(run_content(#[trigger] i.children@.take(k)).len()
                <= start && end <= run_content(i.children@.take(k + 1)).len()),
    }
}

/// The deepest node under `root` that holds the whole of a range, with the
/// range as that node sees it.
pub(crate) fn deepest<'a, const N: usize, L: Leaf>(
    root: &'a Arc<Node<N, L>>,
    start: usize,
    end: usize,
) -> (r: (&'a Arc<Node<N, L>>, usize, usize))
    requires
        2 <= N,
        root.sound(),
        start < end <= root.content().len(),
    ensures
        r.0.sound(),
        r.1 < r.2 <= r.0.content().len(),
        r.0.content().subrange(r.1 as int, r.2 as int) == root.content().subrange(
            start as int,
            end as int,
        ),
        no_child_holds(r.0, r.1 as int, r.2 as int),
        lies_at(&**root, &**r.0, start - r.1),
        r.0.spec_depth() <= root.spec_depth(),
        r.0.spec_leaves().len() <= root.spec_leaves().len(),
    decreases root.spec_depth(),
{
    match &**root {
        Node::Leaf(_) => (root, start, end),
        Node::Internal(i) => {
            let children = &i.children;
            proof {
                lemma_node_facts(&**root, 1);
                L::lemma_base(root.content());
            }
            let (first, first_offset, last, last_offset) = find_ends(children, start, end, true);
            if first == last {
                proof {
                    lemma_run_content_at(children@, first as int);
                    assert(children@[first as int].wf());
                    assert(root.content().subrange(start as int, end as int)
                        =~= children@[first as int].content().subrange(
                        start - first_offset,
                        end - first_offset,
                    ));
                    lemma_span_one(children@, first as int);
                }
                let r = deepest(&children[first], start - first_offset, end - first_offset);
                proof {
                    assert(lies_at(
                        &*children@[first as int],
                        &**r.0,
                        start - r.1 - run_content(children@.take(first as int)).len(),
                    ));
                }
                r
            } else {
                proof {
                    assert forall|k: int| 0 <= k < children@.len() implies !(run_content(
                        #[trigger] children@.take(k),
                    ).len() <= start && end <= run_content(children@.take(k + 1)).len()) by {
                        if k < first {
                            lemma_run_len_mono(children@, k + 1, first as int);
                        } else if k == first {
                            lemma_run_len_mono(children@, first + 1, last as int);
                        } else {
                            lemma_run_len_mono(children@, first + 1, k);
                        }
                    }
                }
                (root, start, end)
            }
        },
    }
}

} // verus!
