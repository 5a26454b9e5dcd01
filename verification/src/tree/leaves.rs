//! Walking the leaves of a subtree.
use super::node::{
    all_wf, flat, leaves_fit, lemma_flat_concat, lemma_flat_one, lemma_node_facts,
    lemma_run_content_at, lemma_run_measure_step, lemma_seq_leaves_push, min_children,
    run_content, seq_leaves, Node,
};
use super::replace::{lemma_slices_content_concat, lemma_slices_content_one, slices_content};
use super::traits::{BaseMetric, Leaf, SlicingMetric};
use std::sync::Arc;
use vstd::prelude::*;

verus! {

/// Appends to `out` one slice for each leaf of a subtree, in order.
pub(crate) fn collect_leaves<'a, const N: usize, L: Leaf>(
    node: &'a Arc<Node<N, L>>,
    out: &mut Vec<&'a L::Slice>,
)
    requires
        node.sound(),
    ensures
        final(out)@.len() == old(out)@.len() + node.spec_leaves().len(),
        final(out)@.take(old(out)@.len() as int) == old(out)@,
        forall|k: int|
            0 <= k < node.spec_leaves().len() ==> L::slice_content(
                #[trigger] final(out)@[old(out)@.len() + k],
            ) == node.spec_leaves()[k].content(),
    decreases node.spec_depth(),
{
    match &**node {
        Node::Leaf(l) => {
            out.push(l.value.as_slice());
            proof {
                assert(final(out)@.take(old(out)@.len() as int) =~= old(out)@);
            }
        },
        Node::Internal(i) => {
            let children = &i.children;
            let mut k: usize = 0;
            proof {
                assert(children@.take(0) =~= Seq::<Arc<Node<N, L>>>::empty());
            }
            while k < children.len()
                invariant
                    0 <= k <= children.len(),
                    all_wf(children@),
                    forall|j: int|
                        0 <= j < children@.len() ==> (#[trigger] children@[j]).spec_depth()
                            < node.spec_depth(),
                    out@.len() == old(out)@.len() + seq_leaves(children@.take(k as int)).len(),
                    out@.take(old(out)@.len() as int) == old(out)@,
                    forall|j: int|
                        0 <= j < seq_leaves(children@.take(k as int)).len() ==> L::slice_content(
                            #[trigger] out@[old(out)@.len() + j],
                        ) == seq_leaves(children@.take(k as int))[j].content(),
                decreases children.len() - k,
            {
                let ghost before = out@;
                let ghost done = seq_leaves(children@.take(k as int));
                proof {
                    assert(children@[k as int].wf());
                    assert(children@.take(k + 1) =~= children@.take(k as int).push(
                        children@[k as int],
                    ));
                    lemma_seq_leaves_push(children@.take(k as int), children@[k as int]);
                }
                collect_leaves(&children[k], out);
                proof {
                    let next = seq_leaves(children@.take(k + 1));
                    assert(out@.take(old(out)@.len() as int) =~= before.take(
                        old(out)@.len() as int,
                    ));
                    assert forall|j: int| 0 <= j < next.len() implies L::slice_content(
                        #[trigger] out@[old(out)@.len() + j],
                    ) == next[j].content() by {
                        if j < done.len() {
                            assert(out@[old(out)@.len() + j] == before[old(out)@.len() + j]);
                        } else {
                            assert(out@[old(out)@.len() + j] == out@[before.len() + (j
                                - done.len())]);
                        }
                    }
                }
                k = k + 1;
            }
            proof {
                assert(children@.take(children@.len() as int) =~= children@);
            }
        },
    }
}

/// The part of a content between two offsets, where the offsets may lie
/// outside the content.
pub open spec fn clip<T>(c: Seq<T>, start: int, end: int) -> Seq<T> {
    let a = if start < 0 {
        0
    } else {
        start
    };
    let b = if end > c.len() {
        c.len() as int
    } else {
        end
    };
    if a < b {
        c.subrange(a, b)
    } else {
        Seq::empty()
    }
}

/// The parts of a sequence of leaves that lie between two base offsets,
/// one for each leaf that the range reaches into, in order.
pub open spec fn parts_in_range<L: Leaf>(ls: Seq<L>, start: int, end: int) -> Seq<Seq<L::Unit>>
    decreases ls.len(),
{
    if ls.len() == 0 {
        Seq::empty()
    } else {
        let offset = flat(ls.drop_last()).len() as int;
        let part = clip(ls.last().content(), start - offset, end - offset);
        let earlier = parts_in_range(ls.drop_last(), start, end);
        if part.len() > 0 {
            earlier.push(part)
        } else {
            earlier
        }
    }
}

/// What each of a sequence of slices holds.
pub open spec fn contents_of<L: Leaf>(slices: Seq<&L::Slice>) -> Seq<Seq<L::Unit>> {
    Seq::new(slices.len(), |k: int| L::slice_content(slices[k]))
}

/// The parts of two sequences of leaves, one after the other.
pub proof fn lemma_parts_concat<L: Leaf>(a: Seq<L>, b: Seq<L>, start: int, end: int)
    ensures
        parts_in_range(a + b, start, end) == parts_in_range(a, start, end) + parts_in_range(
            b,
            start - flat(a).len(),
            end - flat(a).len(),
        ),
    decreases b.len(),
{
    if b.len() == 0 {
        assert(a + b =~= a);
        assert(parts_in_range(a, start, end) + Seq::<Seq<L::Unit>>::empty() =~= parts_in_range(
            a,
            start,
            end,
        ));
    } else {
        assert((a + b).drop_last() =~= a + b.drop_last());
        assert((a + b).last() == b.last());
        lemma_flat_concat(a, b.drop_last());
        lemma_parts_concat(a, b.drop_last(), start, end);
        let shifted = parts_in_range(b.drop_last(), start - flat(a).len(), end - flat(a).len());
        let offset = flat(b.drop_last()).len() as int;
        let part = clip(b.last().content(), start - flat(a).len() - offset, end - flat(a).len()
            - offset);
        if part.len() > 0 {
            assert((parts_in_range(a, start, end) + shifted).push(part) =~= parts_in_range(
                a,
                start,
                end,
            ) + shifted.push(part));
        }
    }
}

/// A range that ends before the leaves start, or starts after they end, or
/// is empty, reaches into none of them.
pub proof fn lemma_parts_outside<L: Leaf>(ls: Seq<L>, start: int, end: int)
    requires
        end <= 0 || start >= flat(ls).len() || start >= end,
    ensures
        parts_in_range(ls, start, end) == Seq::<Seq<L::Unit>>::empty(),
    decreases ls.len(),
{
    if ls.len() > 0 {
        lemma_parts_outside(ls.drop_last(), start, end);
    }
}

/// The parts of leaves in a range are those in the range clipped to the
/// leaves.
pub proof fn lemma_parts_clip<L: Leaf>(ls: Seq<L>, start: int, end: int, a: int, b: int)
    requires
        a == start || (start <= 0 && a == 0),
        b == end || (end >= flat(ls).len() && b == flat(ls).len()),
    ensures
        parts_in_range(ls, start, end) == parts_in_range(ls, a, b),
    decreases ls.len(),
{
    if ls.len() > 0 {
        let init = ls.drop_last();
        let offset = flat(init).len() as int;
        if b == end {
            lemma_parts_clip(init, start, end, a, b);
        } else {
            // The end lies at the end of the last leaf or after it: the
            // leaves before the last lie before it altogether.
            lemma_parts_clip(init, start, end, a, offset);
            lemma_parts_clip(init, a, b, a, offset);
        }
        assert(clip(ls.last().content(), start - offset, end - offset) =~= clip(
            ls.last().content(),
            a - offset,
            b - offset,
        ));
    }
}

/// The part of a single leaf.
pub proof fn lemma_parts_one<L: Leaf>(l: L, start: int, end: int)
    ensures
        parts_in_range(seq![l], start, end) == if clip(l.content(), start, end).len() > 0 {
            seq![clip(l.content(), start, end)]
        } else {
            Seq::<Seq<L::Unit>>::empty()
        },
{
    let one = seq![l];
    assert(one.drop_last() =~= Seq::<L>::empty());
    assert(flat(Seq::<L>::empty()) =~= Seq::<L::Unit>::empty());
    assert(parts_in_range(Seq::<L>::empty(), start, end) =~= Seq::<Seq<L::Unit>>::empty());
    let part = clip(l.content(), start, end);
    if part.len() > 0 {
        assert(Seq::<Seq<L::Unit>>::empty().push(part) =~= seq![part]);
    }
}

/// The number of units that a sequence of parts holds.
pub open spec fn total_len<T>(parts: Seq<Seq<T>>) -> nat
    decreases parts.len(),
{
    if parts.len() == 0 {
        0
    } else {
        total_len(parts.drop_last()) + parts.last().len()
    }
}

/// The parts of leaves in a range hold something each, and together as
/// many units as the range has within the leaves.
pub proof fn lemma_parts_total<L: Leaf>(ls: Seq<L>, start: int, end: int)
    requires
        0 <= start <= end <= flat(ls).len(),
    ensures
        total_len(parts_in_range(ls, start, end)) == end - start,
        forall|k: int|
            0 <= k < parts_in_range(ls, start, end).len() ==> (#[trigger] parts_in_range(
                ls,
                start,
                end,
            )[k]).len() > 0,
        start < end ==> parts_in_range(ls, start, end).len() >= 1,
    decreases ls.len(),
{
    if ls.len() > 0 {
        let init = ls.drop_last();
        let offset = flat(init).len() as int;
        let part = clip(ls.last().content(), start - offset, end - offset);
        let a = if start > offset {
            offset
        } else {
            start
        };
        let b = if end > offset {
            offset
        } else {
            end
        };
        lemma_parts_clip(init, start, end, start, b);
        if start >= offset {
            lemma_parts_outside(init, start, b);
            assert(total_len(Seq::<Seq<L::Unit>>::empty()) == 0);
        } else {
            lemma_parts_total(init, start, b);
        }
        let earlier = parts_in_range(init, start, end);
        if part.len() > 0 {
            assert(earlier.push(part).drop_last() =~= earlier);
        }
    }
}

/// Parts that hold something each hold, together, what the first and the
/// last of them hold and one unit at least for each part in between.
pub proof fn lemma_total_ends<T>(parts: Seq<Seq<T>>)
    requires
        forall|k: int| 0 <= k < parts.len() ==> (#[trigger] parts[k]).len() > 0,
    ensures
        parts.len() == 1 ==> total_len(parts) == parts[0].len(),
        parts.len() == 2 ==> total_len(parts) == parts[0].len() + parts[1].len(),
        parts.len() >= 3 ==> total_len(parts) > parts[0].len() + parts.last().len(),
        total_len(parts) >= parts.len(),
        parts.len() >= 1 ==> total_len(parts) >= parts[0].len(),
    decreases parts.len(),
{
    if parts.len() > 0 {
        let init = parts.drop_last();
        assert forall|k: int| 0 <= k < init.len() implies (#[trigger] init[k]).len() > 0 by {
            assert(init[k] == parts[k]);
        }
        lemma_total_ends(init);
        if init.len() > 0 {
            assert(init[0] == parts[0]);
            assert(init.last() == parts[parts.len() - 2]);
        }
    }
}

/// The parts of the leaves below a run in a range are those of the leaves
/// before one node, those of the leaves of that node and those of the leaves
/// after it.
pub(crate) proof fn lemma_parts_run_at<const N: usize, L: Leaf>(
    cs: Seq<Arc<Node<N, L>>>,
    k: int,
    start: int,
    end: int,
)
    requires
        0 <= k < cs.len(),
    ensures
        parts_in_range(seq_leaves(cs), start, end) == parts_in_range(
            seq_leaves(cs.take(k)),
            start,
            end,
        ) + parts_in_range(
            cs[k].spec_leaves(),
            start - run_content(cs.take(k)).len(),
            end - run_content(cs.take(k)).len(),
        ) + parts_in_range(
            seq_leaves(cs.skip(k + 1)),
            start - run_content(cs.take(k + 1)).len(),
            end - run_content(cs.take(k + 1)).len(),
        ),
{
    lemma_run_content_at(cs, k);
    let a = seq_leaves(cs.take(k));
    let b = cs[k].spec_leaves();
    let c = seq_leaves(cs.skip(k + 1));
    lemma_parts_concat(a + b, c, start, end);
    lemma_parts_concat(a, b, start, end);
    lemma_flat_concat(a, b);
}

/// The parts of the leaves below the first nodes of a run grow by the parts
/// of the leaves below each node.
pub(crate) proof fn lemma_parts_step<const N: usize, L: Leaf>(
    cs: Seq<Arc<Node<N, L>>>,
    k: int,
    start: int,
    end: int,
)
    requires
        0 <= k < cs.len(),
    ensures
        parts_in_range(seq_leaves(cs.take(k + 1)), start, end) == parts_in_range(
            seq_leaves(cs.take(k)),
            start,
            end,
        ) + parts_in_range(
            cs[k].spec_leaves(),
            start - run_content(cs.take(k)).len(),
            end - run_content(cs.take(k)).len(),
        ),
{
    assert(cs.take(k + 1) =~= cs.take(k).push(cs[k]));
    lemma_seq_leaves_push(cs.take(k), cs[k]);
    lemma_parts_concat(seq_leaves(cs.take(k)), cs[k].spec_leaves(), start, end);
}

/// Appends to `out` the parts of the leaves of a subtree that lie between
/// two base offsets, one for each leaf that the range reaches into, in
/// order.
pub(crate) fn collect_range<'a, const N: usize, L: Leaf>(
    node: &'a Arc<Node<N, L>>,
    start: usize,
    end: usize,
    out: &mut Vec<&'a L::Slice>,
)
    requires
        2 <= N,
        node.sound(),
        start < end <= node.content().len(),
    ensures
        slices_content::<L>(final(out)@) == slices_content::<L>(old(out)@)
            + node.content().subrange(start as int, end as int),
        contents_of::<L>(final(out)@) == contents_of::<L>(old(out)@) + parts_in_range(
            node.spec_leaves(),
            start as int,
            end as int,
        ),
    decreases node.spec_depth(),
{
    let ghost whole = node.content();
    let ghost given = out@;
    proof {
        lemma_node_facts(&**node, 1);
        L::lemma_base(whole);
    }
    match &**node {
        Node::Leaf(l) => {
            proof {
                lemma_flat_one(l.value);
                lemma_parts_one(l.value, start as int, end as int);
            }
            let (part, _) = <BaseMetric as SlicingMetric<L>>::slice(
                l.value.as_slice(),
                start,
                end,
                &l.summary,
            );
            out.push(part);
            proof {
                assert(out@ =~= given + seq![part]);
                lemma_slices_content_concat::<L>(given, seq![part]);
                lemma_slices_content_one::<L>(part);
                assert(contents_of::<L>(out@) =~= contents_of::<L>(given) + seq![
                    L::slice_content(part),
                ]);
            }
        },
        Node::Internal(i) => {
            let children = &i.children;
            let mut k: usize = 0;
            let mut offset: usize = 0;
            proof {
                assert(children@.take(0) =~= Seq::<Arc<Node<N, L>>>::empty());
                assert(whole.subrange(start as int, start as int) =~= Seq::<L::Unit>::empty());
                assert(slices_content::<L>(given) + Seq::<L::Unit>::empty()
                    =~= slices_content::<L>(given));
                lemma_parts_outside(Seq::<L>::empty(), start as int, end as int);
                assert(contents_of::<L>(given) + Seq::<Seq<L::Unit>>::empty() =~= contents_of::<
                    L,
                >(given));
            }
            while k < children.len()
                invariant
                    0 <= k <= children.len(),
                    start < end <= whole.len(),
                    2 <= N,
                    all_wf(children@),
                    leaves_fit(seq_leaves(children@)),
                    whole == run_content(children@),
                    whole.len() <= usize::MAX,
                    offset == run_content(children@.take(k as int)).len(),
                    offset <= whole.len(),
                    forall|j: int|
                        0 <= j < children@.len() ==> (#[trigger] children@[j]).spec_depth()
                            < node.spec_depth(),
                    slices_content::<L>(out@) == slices_content::<L>(given) + whole.subrange(
                        start as int,
                        if offset < start {
                            start as int
                        } else if offset > end {
                            end as int
                        } else {
                            offset as int
                        },
                    ),
                    contents_of::<L>(out@) == contents_of::<L>(given) + parts_in_range(
                        seq_leaves(children@.take(k as int)),
                        start as int,
                        end as int,
                    ),
                decreases children.len() - k,
            {
                let child = &children[k];
                let ghost inside = child.content();
                proof {
                    assert(children@[k as int].wf());
                    lemma_run_content_at(children@, k as int);
                    lemma_run_measure_step::<N, L, BaseMetric>(children@, k as int);
                    lemma_parts_step(children@, k as int, start as int, end as int);
                    lemma_node_facts(&**child, min_children(N));
                }
                let len = child.base_measure();
                let from = if start > offset {
                    start
                } else {
                    offset
                };
                let to = if end < offset + len {
                    end
                } else {
                    offset + len
                };
                if from < to {
                    proof {
                        lemma_parts_clip(
                            child.spec_leaves(),
                            start - offset,
                            end - offset,
                            from - offset,
                            to - offset,
                        );
                        assert(whole.subrange(from as int, to as int) =~= inside.subrange(
                            from - offset,
                            to - offset,
                        ));
                        assert(whole.subrange(start as int, to as int) =~= whole.subrange(
                            start as int,
                            from as int,
                        ) + whole.subrange(from as int, to as int));
                    }
                    collect_range(child, from - offset, to - offset, out);
                } else {
                    proof {
                        lemma_parts_clip(
                            child.spec_leaves(),
                            start - offset,
                            end - offset,
                            from - offset,
                            to - offset,
                        );
                        lemma_parts_outside(child.spec_leaves(), from - offset, to - offset);
                        assert(parts_in_range(
                            seq_leaves(children@.take(k as int)),
                            start as int,
                            end as int,
                        ) + Seq::<Seq<L::Unit>>::empty() =~= parts_in_range(
                            seq_leaves(children@.take(k as int)),
                            start as int,
                            end as int,
                        ));
                    }
                }
                offset = offset + len;
                k = k + 1;
            }
            proof {
                assert(children@.take(children@.len() as int) =~= children@);
            }
        },
    }
}

} // verus!
