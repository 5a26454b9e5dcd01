//! The tree: a shared root and the operations on it.
use super::cut::cut_tree_slice;
use super::invariants::check_node;
use super::leaves::{collect_leaves, lemma_parts_total, lemma_total_ends};
use super::measure::{
    base_offset, convert_rec, cut_or_end, last_leaf_rec, leaf_at_rec, leaf_index_at,
    leaves_measure, lemma_cut_or_end_monotone, lemma_cut_or_end_seam, lemma_leaf_index_past,
    lemma_leaves_measure_concat, seam_at, seams_ok,
};
use super::node::{
    arc_clone, arc_get_mut, arc_ptr_eq, contents, flat, leaves_fit, lemma_fits_sub,
    lemma_flat_concat, lemma_flat_one, lemma_inode_invariants, lemma_node_facts, lemma_run_len,
    lemma_seq_leaves_one, lemma_seq_leaves_push, run_ok, seq_leaves, Inode, Node,
};
use super::replace::{
    in_one_leaf, lemma_slices_content_one, replace_in_child, replace_rec, slices_content, spliced,
    Edited,
};
use super::runs::{lemma_run_depth_bound, power, pull_up_root, root_from_nodes};
use super::traits::{BaseMetric, Leaf, Metric, ReplaceableLeaf, SlicingMetric};
use super::tree_slice::{lemma_seamed, lies_at, TreeSlice};
use std::ops::Range;
use std::sync::Arc;
use vstd::prelude::*;

verus! {

/// A self-balancing tree with a summary cached in each node.
pub struct Tree<const FANOUT: usize, L: Leaf> {
    pub(crate) root: Arc<Node<FANOUT, L>>,
}

impl<const FANOUT: usize, L: Leaf> Tree<FANOUT, L> {
    /// The invariants of the tree: the root is a leaf or has between two
    /// and `FANOUT` children; every other internal node has between half of
    /// `FANOUT`, rounded up, and `FANOUT` children; all the leaves are at
    /// one depth; every node caches the summary and the number of its
    /// leaves.
    pub open(crate) spec fn wf(&self) -> bool {
        2 <= FANOUT && self.root.wf_root()
    }

    /// The root of the tree.
    pub open(crate) spec fn spec_root(&self) -> Arc<Node<FANOUT, L>> {
        self.root
    }

    /// Whether the metric `M` can cut the tree leaf by leaf: whether the
    /// leaves meet at seams of `M`. A metric that cuts between any two units
    /// can cut every tree.
    pub open(crate) spec fn seamed<M: SlicingMetric<L>>(&self) -> bool {
        seams_ok::<L, M>(self.root.spec_leaves())
    }

    /// The leaves of the tree, in order.
    pub open(crate) spec fn spec_leaves(&self) -> Seq<L> {
        self.root.spec_leaves()
    }

    /// The content of the tree: that of its leaves, concatenated.
    pub open spec fn content(&self) -> Seq<L::Unit> {
        flat(self.spec_leaves())
    }

    /// The summary cached at the root.
    pub open(crate) spec fn spec_summary(&self) -> L::Summary {
        self.root.spec_summary()
    }

    /// The depth of the tree: the number of levels of internal nodes above
    /// its leaves.
    pub open(crate) spec fn spec_depth(&self) -> nat {
        self.root.spec_depth()
    }

    /// The number of leaves cached at the root.
    pub open(crate) spec fn spec_leaf_count(&self) -> nat {
        self.root.spec_leaf_count()
    }

    /// The invariants of a tree, spelled out for its root: the root is a
    /// leaf or has between two and `FANOUT` children, each of them well
    /// formed below the root and one level less deep than the root; the root
    /// caches the summary of the content of the tree and the number of its
    /// leaves.
    pub proof fn lemma_invariants(&self)
        requires
            self.wf(),
        ensures
            (*self.spec_root()) is Leaf || 2 <= self.spec_root().spec_children().len() <= FANOUT,
            forall|k: int|
                0 <= k < self.spec_root().spec_children().len() ==> (
                #[trigger] self.spec_root().spec_children()[k]).wf()
                    && self.spec_root().spec_children()[k].spec_depth() + 1
                    == self.spec_root().spec_depth(),
            self.spec_summary() == L::summary_of(self.content()),
            self.spec_leaf_count() == self.spec_leaves().len(),
            leaves_fit(self.spec_leaves()),
    {
        lemma_inode_invariants(&*self.root, 2);
        lemma_node_facts(&*self.root, 2);
    }

    /// Creates a tree from a collection of leaves. Without leaves the tree
    /// holds a single leaf that is empty.
    pub fn from_leaves(leaves: Vec<L>) -> (r: Self)
        requires
            2 <= FANOUT,
            leaves_fit(leaves@),
        ensures
            r.wf(),
            leaves.len() > 0 ==> r.spec_leaves() == leaves@,
            leaves.len() == 0 ==> r.spec_leaves().len() == 1 && r.content() == Seq::<
                L::Unit,
            >::empty(),
            is_least_depth(FANOUT, leaves.len() as nat, r.spec_depth()),
    {
        match Self::root_from_leaves(leaves) {
            Some(root) => Tree { root },
            None => {
                let empty = L::from_slice(L::empty_slice());
                proof {
                    lemma_flat_one(empty);
                }
                Tree { root: Node::leaf(empty) }
            },
        }
    }

    /// The root of a tree over `leaves`, if there are any.
    fn root_from_leaves(leaves: Vec<L>) -> (r: Option<Arc<Node<FANOUT, L>>>)
        requires
            2 <= FANOUT,
            leaves_fit(leaves@),
        ensures
            r.is_some() == (leaves.len() > 0),
            r matches Some(root) ==> root.wf_root() && root.spec_leaves() == leaves@
                && is_least_depth(FANOUT, leaves.len() as nat, root.spec_depth()),
    {
        if leaves.len() == 0 {
            return None;
        }
        let ghost given = leaves@;
        let mut nodes: Vec<Arc<Node<FANOUT, L>>> = Vec::new();
        for leaf in it: leaves
            invariant
                it.seq() == given,
                nodes.len() == it.index(),
                run_ok(nodes@, 0),
                seq_leaves(nodes@) == given.take(it.index() as int),
        {
            let node = Node::leaf(leaf);
            proof {
                lemma_seq_leaves_push(nodes@, node);
                assert(given.take(it.index() + 1) =~= given.take(it.index() as int) + seq![leaf]);
            }
            nodes.push(node);
        }
        proof {
            assert(given.take(given.len() as int) =~= given);
        }
        Some(root_from_nodes(nodes, 0))
    }

    /// An independent tree with the content of a slice.
    ///
    /// A slice that spans its whole root shares that root with the new
    /// tree. A slice that lies in one leaf becomes a single leaf; one that
    /// lies in two adjacent leaves becomes one leaf or two, as the leaf type
    /// balances them. Any other slice is cut out of its root along its two
    /// edges and grouped into a balanced tree.
    ///
    /// With a fanout of two a node may have a single child, so the leaves
    /// of a tree do not bound its depth: there the depth and the number of
    /// leaves must fit one machine word together.
    pub fn from<'a>(slice: TreeSlice<'a, FANOUT, L>) -> (r: Self)
        requires
            slice.wf(),
            FANOUT >= 3 || slice.spec_root().spec_depth() + slice.spec_root().spec_leaves().len()
                <= usize::MAX,
        ensures
            r.wf(),
            r.content() == slice.content(),
            r.content().len() == slice.spec_len(),
            slice.spec_len() == slice.root_content().len() && slice.spec_root().wf_root()
                ==> r.spec_root() == slice.spec_root(),
            slice.spec_len() == slice.root_content().len() ==> r.spec_leaves()
                == slice.spec_root().spec_leaves(),
            slice.spec_len() != slice.root_content().len() && slice.spec_parts().len() <= 1
                ==> r.spec_leaves().len() == 1,
            slice.spec_len() != slice.root_content().len() && slice.spec_parts().len() == 2
                ==> contents(r.spec_leaves()) == L::balanced(
                slice.spec_parts()[0],
                slice.spec_parts()[1],
            ),
    {
        let ghost whole = slice.root.content();
        let ghost wanted = slice.content();
        proof {
            lemma_node_facts(&**slice.root, 1);
            L::lemma_base(whole);
            lemma_fits_sub::<L>(
                whole,
                slice.spec_start() as int,
                (slice.spec_start() + slice.spec_len()) as int,
            );
            L::lemma_slice_fits(slice.start_slice);
            L::lemma_slice_fits(slice.end_slice);
            L::lemma_base(L::slice_content(slice.start_slice));
            L::lemma_base(L::slice_content(slice.end_slice));
            lemma_parts_total(
                slice.root.spec_leaves(),
                slice.spec_start() as int,
                (slice.spec_start() + slice.spec_len()) as int,
            );
            lemma_total_ends(slice.spec_parts());
        }
        let len = L::base_measure(&slice.summary);
        let start_len = L::base_measure(&slice.start_summary);
        let end_len = L::base_measure(&slice.end_summary);
        if len == slice.root.base_measure() {
            proof {
                assert(wanted =~= whole);
            }
            Tree { root: pull_up_root(arc_clone(slice.root)) }
        } else if len == start_len {
            let leaf = L::from_slice(slice.start_slice);
            proof {
                lemma_flat_one(leaf);
                assert(wanted.take(len as int) =~= wanted);
            }
            Tree { root: Node::leaf_with_summary(leaf, slice.summary) }
        } else if len == start_len + end_len {
            let (first, second) = L::balance_slices(slice.start_slice, slice.end_slice);
            let mut nodes: Vec<Arc<Node<FANOUT, L>>> = Vec::new();
            let first_node = Node::leaf(first);
            nodes.push(first_node);
            proof {
                assert(nodes@ =~= seq![first_node]);
                lemma_seq_leaves_one(first_node);
                lemma_flat_one(first);
                assert(wanted =~= wanted.take(start_len as int) + wanted.skip(start_len as int));
            }
            match second {
                Some(second) => {
                    let second_node = Node::leaf(second);
                    proof {
                        lemma_seq_leaves_push(nodes@, second_node);
                        lemma_flat_one(second);
                        lemma_flat_concat(seq![first], seq![second]);
                    }
                    nodes.push(second_node);
                    proof {
                        assert(seq_leaves(nodes@) =~= seq![first, second]);
                    }
                },
                None => {
                    proof {
                        assert(first.content() + Seq::<L::Unit>::empty() =~= first.content());
                        assert(seq_leaves(nodes@) =~= seq![first]);
                    }
                },
            }
            let ghost pair = nodes@;
            let root = root_from_nodes(nodes, 0);
            proof {
                assert(contents(seq_leaves(pair)) =~= L::balanced(
                    L::slice_content(slice.start_slice),
                    L::slice_content(slice.end_slice),
                ));
            }
            Tree { root }
        } else {
            Self::into_tree_root(slice)
        }
    }

    /// The tree with the content of a slice that holds something, cut out
    /// of the root of the slice along its two edges. What lies between the
    /// edges stays shared with the root.
    fn into_tree_root<'a>(slice: TreeSlice<'a, FANOUT, L>) -> (r: Self)
        requires
            slice.wf(),
            slice.spec_len() > 0,
            FANOUT >= 3 || slice.spec_root().spec_depth() + slice.spec_root().spec_leaves().len()
                <= usize::MAX,
        ensures
            r.wf(),
            r.content() == slice.content(),
    {
        proof {
            lemma_node_facts(&**slice.root, 1);
            L::lemma_base(slice.root.content());
            lemma_fits_sub::<L>(
                slice.root.content(),
                slice.spec_start() as int,
                (slice.spec_start() + slice.spec_len()) as int,
            );
        }
        let start = L::base_measure(&slice.offset);
        let len = L::base_measure(&slice.summary);
        let (run, depth) = cut_tree_slice(slice.root, start, start + len);
        proof {
            lemma_run_len(run@);
        }
        Tree { root: root_from_nodes(run, depth) }
    }

    /// The `M2`-measure of what the tree holds before the base offset that
    /// stands for the offset `up_to` of `M1`: before the cut for `up_to`, or
    /// of all the tree holds when `up_to` is one more than the `M1`-measure
    /// of the tree. The leaves of the tree must meet at seams of `M1`.
    pub fn convert_measure<M1: SlicingMetric<L>, M2: Metric<L>>(&self, up_to: usize) -> (r: usize)
        requires
            self.wf(),
            self.seamed::<M1>(),
            up_to <= M1::spec_measure(self.spec_summary()) + 1,
        ensures
            r == M2::spec_measure(
                L::summary_of(
                    self.content().take(cut_or_end::<L, M1>(self.content(), up_to as int)),
                ),
            ),
    {
        proof {
            lemma_node_facts(&*self.root, 2);
            assert(self.content().take(self.content().len() as int) =~= self.content());
        }
        if up_to > self.measure::<M1>() {
            self.measure::<M2>()
        } else {
            convert_rec::<FANOUT, L, M1, M2>(&self.root, up_to)
        }
    }

    /// The leaf in which the offset `measure` of the metric `M` falls, and
    /// the measure of all the leaves before it. An offset of one more than
    /// the measure of the tree falls in the last leaf.
    pub fn leaf_at_measure<'a, M: Metric<L>>(&'a self, measure: usize) -> (r: (&'a L::Slice, usize))
        requires
            self.wf(),
            measure <= M::spec_measure(self.spec_summary()) + 1,
        ensures
            0 <= leaf_index_at::<L, M>(self.spec_leaves(), measure as int)
                < self.spec_leaves().len(),
            L::slice_content(r.0) == self.spec_leaves()[leaf_index_at::<L, M>(
                self.spec_leaves(),
                measure as int,
            )].content(),
            r.1 == leaves_measure::<L, M>(
                self.spec_leaves().take(leaf_index_at::<L, M>(self.spec_leaves(), measure as int)),
            ),
    {
        proof {
            lemma_node_facts(&*self.root, 2);
        }
        let total = self.measure::<M>();
        if measure > total {
            let (leaf, last_measure) = last_leaf_rec::<FANOUT, L, M>(&self.root);
            proof {
                let ls = self.spec_leaves();
                lemma_leaf_index_past::<L, M>(ls, measure as int);
                assert(ls =~= ls.take(ls.len() - 1) + seq![ls.last()]);
                lemma_leaves_measure_concat::<L, M>(ls.take(ls.len() - 1), seq![ls.last()]);
                lemma_flat_one(ls.last());
            }
            (leaf, total - last_measure)
        } else {
            leaf_at_rec::<FANOUT, L, M>(&self.root, measure)
        }
    }

    /// The slice of the tree between the base offsets that stand for two
    /// offsets of the metric `M`: the cut for an offset, and the end of the
    /// tree for an offset of one more than the measure of the tree. A slice
    /// of all the tree holds has the root of the tree as its root; any other
    /// slice has as its root the deepest node that holds all of it.
    ///
    /// The slice starts and ends at seams of `M`: a metric that keeps units
    /// together parts none of them. Such a metric cuts a tree leaf by leaf,
    /// so the leaves of the tree must meet at its seams.
    pub fn slice<'a, M: SlicingMetric<L>>(&'a self, range: Range<usize>) -> (r: TreeSlice<
        'a,
        FANOUT,
        L,
    >)
        requires
            self.wf(),
            self.seamed::<M>(),
            range.start <= range.end <= M::spec_measure(self.spec_summary()) + 1,
        ensures
            r.wf(),
            r.content() == self.content().subrange(
                cut_or_end::<L, M>(self.content(), range.start as int),
                cut_or_end::<L, M>(self.content(), range.end as int),
            ),
            r.spec_len() == cut_or_end::<L, M>(self.content(), range.end as int) - cut_or_end::<
                L,
                M,
            >(self.content(), range.start as int),
            seam_at::<L, M>(self.content(), cut_or_end::<L, M>(self.content(), range.start as int)),
            seam_at::<L, M>(self.content(), cut_or_end::<L, M>(self.content(), range.end as int)),
            cut_or_end::<L, M>(self.content(), range.start as int) == 0 && cut_or_end::<L, M>(
                self.content(),
                range.end as int,
            ) == self.content().len() ==> r.spec_root() == self.spec_root(),
            r.root_is_deepest(),
            r.seamed::<M>(),
            lies_at(
                &*self.spec_root(),
                &*r.spec_root(),
                cut_or_end::<L, M>(self.content(), range.start as int) - r.spec_start(),
            ),
            r.spec_len() == 0 && cut_or_end::<L, M>(self.content(), range.start as int)
                < self.content().len() ==> r.spec_start() < r.root_content().len(),
            r.spec_len() == 0 && 0 < self.content().len() ==> r.root_content().len() > 0,
            r.spec_root().spec_depth() <= self.spec_depth(),
            r.spec_root().spec_leaves().len() <= self.spec_leaves().len(),
    {
        let ghost whole = self.content();
        proof {
            lemma_node_facts(&*self.root, 2);
            lemma_cut_or_end_monotone::<L, M>(whole, range.start, range.end);
            lemma_cut_or_end_seam::<L, M>(whole, range.start);
            lemma_cut_or_end_seam::<L, M>(whole, range.end);
            let s = cut_or_end::<L, M>(whole, range.start as int);
            let e = cut_or_end::<L, M>(whole, range.end as int);
            lemma_fits_sub::<L>(whole, s, e);
            L::lemma_base(whole.subrange(s, e));
        }
        let start = base_offset::<FANOUT, L, M>(&self.root, range.start);
        let end = base_offset::<FANOUT, L, M>(&self.root, range.end);
        let r = TreeSlice::from_range_in_root(&self.root, start, end);
        proof {
            L::lemma_base(r.content());
            lemma_seamed::<FANOUT, L, M>(&*self.root, r, start as int);
        }
        r
    }

    /// An independent tree with what this tree holds between the base
    /// offsets that stand for two offsets of the metric `M`: the slice of
    /// that range, made a tree. The new tree is well formed, holds what the
    /// range holds and no more, and shares the root of this tree when the
    /// range is all that this tree holds. The leaves of the tree must meet
    /// at seams of `M`. With a fanout of two the depth
    /// and the number of leaves must fit one machine word together, as for
    /// a slice made a tree.
    pub fn extract<M: SlicingMetric<L>>(&self, range: Range<usize>) -> (r: Self)
        requires
            self.wf(),
            self.seamed::<M>(),
            range.start <= range.end <= M::spec_measure(self.spec_summary()) + 1,
            FANOUT >= 3 || self.spec_depth() + self.spec_leaves().len() <= usize::MAX,
        ensures
            r.wf(),
            r.content() == self.content().subrange(
                cut_or_end::<L, M>(self.content(), range.start as int),
                cut_or_end::<L, M>(self.content(), range.end as int),
            ),
            r.content().len() == cut_or_end::<L, M>(self.content(), range.end as int)
                - cut_or_end::<L, M>(self.content(), range.start as int),
            cut_or_end::<L, M>(self.content(), range.start as int) == 0 && cut_or_end::<L, M>(
                self.content(),
                range.end as int,
            ) == self.content().len() ==> r.spec_root() == self.spec_root(),
    {
        let slice = self.slice::<M>(range);
        Tree::from(slice)
    }

    /// Replaces what the tree holds between the base offsets that stand for
    /// two offsets of the metric `M` with the content of `slices`, in their
    /// order. The offsets stand for base offsets as they do in a slice. One
    /// slice or none, for a range that lies in one leaf, is put in place
    /// where no other tree shares the nodes from the root down to that leaf;
    /// any other edit builds the nodes it changes anew. The trees that shared
    /// nodes with this one are left as they were. An empty range that makes
    /// way for nothing leaves the tree as it is, node for node.
    ///
    /// The leaves of the tree must meet at seams of `M`. They and the
    /// slices must be few enough to be counted in a machine word; with a
    /// fanout of two, where the leaves do not bound the depth, so must they
    /// and the depth together.
    pub fn replace<'b, M: SlicingMetric<L>>(&mut self, range: Range<usize>, slices: Vec<&'b L::Slice>)
        where L: ReplaceableLeaf
        requires
            old(self).wf(),
            old(self).seamed::<M>(),
            range.start <= range.end <= M::spec_measure(old(self).spec_summary()) + 1,
            L::fits(
                spliced(
                    old(self).content(),
                    cut_or_end::<L, M>(old(self).content(), range.start as int),
                    cut_or_end::<L, M>(old(self).content(), range.end as int),
                    slices_content::<L>(slices@),
                ),
            ),
            old(self).spec_leaves().len() + slices.len() + 2 <= usize::MAX,
            FANOUT >= 3 || old(self).spec_depth() + old(self).spec_leaves().len() + slices.len()
                + 2 <= usize::MAX,
        ensures
            final(self).wf(),
            final(self).content() == spliced(
                old(self).content(),
                cut_or_end::<L, M>(old(self).content(), range.start as int),
                cut_or_end::<L, M>(old(self).content(), range.end as int),
                slices_content::<L>(slices@),
            ),
            final(self).spec_leaves().len() <= old(self).spec_leaves().len() + slices.len() + 2,
            slices.len() == 0 && cut_or_end::<L, M>(old(self).content(), range.start as int)
                == cut_or_end::<L, M>(old(self).content(), range.end as int)
                ==> final(self).spec_root() == old(self).spec_root(),
    {
        let ghost whole = self.content();
        proof {
            lemma_node_facts(&*self.root, 2);
            lemma_cut_or_end_monotone::<L, M>(whole, range.start, range.end);
        }
        let start = base_offset::<FANOUT, L, M>(&self.root, range.start);
        let end = base_offset::<FANOUT, L, M>(&self.root, range.end);
        if start == end && slices.len() == 0 {
            proof {
                assert(slices@ =~= Seq::<&L::Slice>::empty());
                lemma_replace_nothing::<L>(whole, start as int);
            }
            return;
        }
        if slices.len() <= 1 && self.replace_in_root(start, end, &slices) {
            return;
        }
        let (run, depth) = replace_rec(&self.root, start, end, &slices);
        proof {
            lemma_run_len(run@);
        }
        self.root = root_from_nodes(run, depth);
    }

    /// Replaces what the tree holds between two base offsets with the
    /// content of one slice or of none, in place, if the range lies in one
    /// leaf and nothing else shares the nodes from the root down to that
    /// leaf. A root that splits gets a new root above it. Returns whether
    /// the edit was made; if not, the tree holds what it held.
    fn replace_in_root<'b>(&mut self, start: usize, end: usize, slices: &Vec<&'b L::Slice>) -> (r:
        bool)
        where L: ReplaceableLeaf
        requires
            old(self).wf(),
            slices.len() <= 1,
            start <= end <= old(self).content().len(),
            L::fits(
                spliced(
                    old(self).content(),
                    start as int,
                    end as int,
                    slices_content::<L>(slices@),
                ),
            ),
            old(self).spec_leaves().len() + 2 <= usize::MAX,
            FANOUT >= 3 || old(self).spec_depth() + 2 <= usize::MAX,
        ensures
            final(self).wf(),
            r ==> final(self).content() == spliced(
                old(self).content(),
                start as int,
                end as int,
                slices_content::<L>(slices@),
            ),
            r ==> final(self).spec_leaves().len() <= old(self).spec_leaves().len() + 1,
            !r ==> final(self).spec_leaves() == old(self).spec_leaves() && final(self).spec_depth()
                == old(self).spec_depth(),
            !in_one_leaf(&*old(self).root, start as int, end as int) ==> !r,
    {
        let with = if slices.len() == 1 {
            proof {
                assert(slices@ =~= seq![slices@[0]]);
                lemma_slices_content_one::<L>(slices@[0]);
            }
            slices[0]
        } else {
            proof {
                assert(slices@ =~= Seq::<&L::Slice>::empty());
            }
            L::empty_slice()
        };
        let ghost wanted = spliced(
            self.content(),
            start as int,
            end as int,
            slices_content::<L>(slices@),
        );
        let edited = replace_in_child(arc_get_mut(&mut self.root), 2, start, end, with);
        match edited {
            Edited::Untouched => false,
            Edited::InPlace(None) => {
                proof {
                    assert(self.content() + Seq::<L::Unit>::empty() =~= self.content());
                }
                true
            },
            Edited::InPlace(Some(sibling)) => {
                let left = arc_clone(&self.root);
                let depth = left.depth();
                let mut children: Vec<Arc<Node<FANOUT, L>>> = Vec::new();
                children.push(left);
                children.push(sibling);
                proof {
                    assert(children@ =~= seq![left].push(sibling));
                    lemma_seq_leaves_one(left);
                    lemma_seq_leaves_push(seq![left], sibling);
                    lemma_flat_concat(left.spec_leaves(), sibling.spec_leaves());
                    if FANOUT >= 3 {
                        lemma_run_depth_bound(children@, depth as nat);
                    }
                }
                self.root = Arc::new(Node::Internal(Inode::from_children(children, depth)));
                true
            },
        }
    }

    /// The leaves of the tree as slices, in order.
    pub fn leaves<'a>(&'a self) -> (r: Vec<&'a L::Slice>)
        requires
            self.wf(),
        ensures
            r@.len() == self.spec_leaves().len(),
            forall|k: int|
                0 <= k < r@.len() ==> L::slice_content(#[trigger] r@[k])
                    == self.spec_leaves()[k].content(),
    {
        let mut out: Vec<&'a L::Slice> = Vec::new();
        collect_leaves(&self.root, &mut out);
        proof {
            assert forall|k: int| 0 <= k < out@.len() implies L::slice_content(
                #[trigger] out@[k],
            ) == self.spec_leaves()[k].content() by {
                assert(out@[k] == out@[0 + k]);
            }
        }
        out
    }

    /// The units of the metric `M` in the tree, in order: one slice for
    /// each, from the cut for its offset to the cut for the next offset. The
    /// leaves of the tree must meet at seams of `M`.
    pub fn units<'a, M: SlicingMetric<L>>(&'a self) -> (r: Vec<TreeSlice<'a, FANOUT, L>>)
        requires
            self.wf(),
            self.seamed::<M>(),
        ensures
            r@.len() == M::spec_measure(self.spec_summary()),
            forall|k: int|
                0 <= k < r@.len() ==> (#[trigger] r@[k]).wf() && r@[k].content()
                    == self.content().subrange(
                    M::spec_cut(self.content(), k as usize) as int,
                    M::spec_cut(self.content(), (k + 1) as usize) as int,
                ),
    {
        proof {
            lemma_node_facts(&*self.root, 2);
        }
        let count = self.measure::<M>();
        let mut out: Vec<TreeSlice<'a, FANOUT, L>> = Vec::new();
        let mut k: usize = 0;
        while k < count
            invariant
                self.wf(),
                self.seamed::<M>(),
                count == M::spec_measure(self.spec_summary()),
                0 <= k <= count,
                out@.len() == k,
                forall|j: int|
                    0 <= j < k ==> (#[trigger] out@[j]).wf() && out@[j].content()
                        == self.content().subrange(
                        M::spec_cut(self.content(), j as usize) as int,
                        M::spec_cut(self.content(), (j + 1) as usize) as int,
                    ),
            decreases count - k,
        {
            proof {
                lemma_node_facts(&*self.root, 2);
            }
            let unit = self.slice::<M>(k..k + 1);
            out.push(unit);
            k = k + 1;
        }
        out
    }

    /// Checks the invariants of the tree at run time: walks the whole tree
    /// and computes every cached value anew.
    pub fn assert_invariants(&self) -> (ok: bool)
        ensures
            ok == self.wf(),
    {
        if FANOUT < 2 {
            return false;
        }
        check_node(&self.root, 2)
    }

    /// Whether two trees share their root, so that neither holds a node of
    /// its own.
    pub fn shares_root(&self, other: &Self) -> (r: bool)
        ensures
            r ==> self.spec_root() == other.spec_root(),
    {
        arc_ptr_eq(&self.root, &other.root)
    }

    /// The summary of the whole tree.
    pub fn summary(&self) -> (r: &L::Summary)
        ensures
            *r == self.spec_summary(),
            self.wf() ==> *r == L::summary_of(self.content()),
    {
        proof {
            if self.wf() {
                lemma_node_facts(&*self.root, 2);
            }
        }
        self.root.summary()
    }

    /// The measure of the whole tree in the metric `M`.
    pub fn measure<M: Metric<L>>(&self) -> (r: usize)
        ensures
            r == M::spec_measure(self.spec_summary()),
            self.wf() ==> r == M::spec_measure(L::summary_of(self.content())),
    {
        M::measure(self.summary())
    }

    /// The number of units of content in the tree.
    pub fn base_measure(&self) -> (r: usize)
        ensures
            r == L::spec_base(self.spec_summary()),
            self.wf() ==> r == self.content().len(),
    {
        proof {
            if self.wf() {
                lemma_node_facts(&*self.root, 2);
                L::lemma_base(self.content());
            }
        }
        self.measure::<BaseMetric>()
    }

    /// The depth of the tree: the number of levels of internal nodes above
    /// its leaves.
    pub fn depth(&self) -> (r: usize)
        ensures
            r == self.spec_depth(),
    {
        self.root.depth()
    }

    /// The number of leaves in the tree.
    pub fn leaf_count(&self) -> (r: usize)
        ensures
            r == self.spec_leaf_count(),
            self.wf() ==> r == self.spec_leaves().len(),
    {
        proof {
            if self.wf() {
                lemma_node_facts(&*self.root, 2);
            }
        }
        self.root.leaf_count()
    }
}

impl<const FANOUT: usize, L: Leaf> Default for Tree<FANOUT, L> {
    /// The tree that holds nothing, in a single leaf that is empty.
    fn default() -> (r: Self)
        ensures
            2 <= FANOUT ==> r.wf(),
            r.spec_leaves().len() == 1,
            r.content() == Seq::<L::Unit>::empty(),
    {
        let empty = L::from_slice(L::empty_slice());
        proof {
            lemma_flat_one(empty);
        }
        Tree { root: Node::leaf(empty) }
    }
}

impl<const FANOUT: usize, L: Leaf> Clone for Tree<FANOUT, L> {
    /// Another handle to the same tree. The two share every node.
    fn clone(&self) -> (r: Self)
        ensures
            r == *self,
    {
        Tree { root: arc_clone(&self.root) }
    }
}

/// Whether a depth is the least that a tree of a fanout can have over a
/// number of leaves: no leaves, or one, make a single leaf; more leaves need
/// as many levels above them as it takes for the fanout, raised to their
/// number, to reach the number of leaves.
pub open spec fn is_least_depth(fanout: usize, leaves: nat, depth: nat) -> bool {
    if leaves <= 1 {
        depth == 0
    } else {
        depth >= 1 && power(fanout as nat, depth) >= leaves && power(
            fanout as nat,
            (depth - 1) as nat,
        ) < leaves
    }
}

/// The powers of a number that is not zero do not fall as the exponent
/// grows.
pub proof fn lemma_power_grows(base: nat, low: nat, high: nat)
    requires
        1 <= base,
        low <= high,
    ensures
        1 <= power(base, low) <= power(base, high),
    decreases high,
{
    if low == 0 && high > 0 {
        lemma_power_grows(base, 0, (high - 1) as nat);
        assert(power(base, (high - 1) as nat) <= base * power(base, (high - 1) as nat))
            by (nonlinear_arith)
            requires
                1 <= base,
        ;
    } else if low > 0 {
        lemma_power_grows(base, (low - 1) as nat, (high - 1) as nat);
        assert(base * power(base, (low - 1) as nat) <= base * power(base, (high - 1) as nat))
            by (nonlinear_arith)
            requires
                power(base, (low - 1) as nat) <= power(base, (high - 1) as nat),
        ;
        assert(1 <= base * power(base, (low - 1) as nat)) by (nonlinear_arith)
            requires
                1 <= base,
                1 <= power(base, (low - 1) as nat),
        ;
    }
}

/// A number of leaves has one least depth: two trees of one fanout that
/// are as shallow as their leaves allow, over equally many leaves, are
/// equally deep.
pub proof fn lemma_least_depth(fanout: usize, leaves: nat, a: nat, b: nat)
    requires
        1 <= fanout,
        is_least_depth(fanout, leaves, a),
        is_least_depth(fanout, leaves, b),
    ensures
        a == b,
{
    if leaves > 1 {
        if a < b {
            lemma_power_grows(fanout as nat, a, (b - 1) as nat);
        }
        if b < a {
            lemma_power_grows(fanout as nat, b, (a - 1) as nat);
        }
    }
}

/// A slice in the base metric holds what lies between its two offsets:
/// the base offset that stands for an offset of the base metric is the
/// offset itself, so the slice has as many units as its range.
pub proof fn lemma_base_slice<L: Leaf>(c: Seq<L::Unit>, start: usize, end: usize)
    requires
        L::fits(c),
        start <= end <= c.len(),
    ensures
        cut_or_end::<L, BaseMetric>(c, start as int) == start,
        cut_or_end::<L, BaseMetric>(c, end as int) == end,
        c.subrange(
            cut_or_end::<L, BaseMetric>(c, start as int),
            cut_or_end::<L, BaseMetric>(c, end as int),
        ).len() == end - start,
{
    L::lemma_base(c);
}

/// Replacing nothing with nothing changes nothing: the content that is
/// left when an empty range makes way for no slices is the content itself.
pub proof fn lemma_replace_nothing<L: Leaf>(c: Seq<L::Unit>, at: int)
    requires
        0 <= at <= c.len(),
    ensures
        spliced(c, at, at, slices_content::<L>(Seq::empty())) == c,
{
    assert(spliced(c, at, at, slices_content::<L>(Seq::empty())) =~= c);
}

} // verus!
