//! Replacing a range of a subtree with the content of a sequence of slices.
use super::cut::{child_index, find_child, find_ends};
use super::node::{
    arc_get_mut, flat, leaf_contents, leaves_fit, lemma_flat_concat, lemma_flat_one,
    lemma_leaves_fit_parts, lemma_node_facts, lemma_run_content_at, lemma_run_content_concat,
    lemma_run_measure_step, lemma_seq_leaves_concat, lemma_seq_leaves_one,
    lemma_seq_leaves_push, lemma_seq_leaves_split, min_children, pair_contents, run_content,
    run_ok, seq_leaves, Inode, Node,
};
use super::runs::{
    balance_pair, extend_run, join_after_cut, join_before_cut, join_runs, lemma_seq_leaves_sub,
};
use super::traits::{BaseMetric, Leaf, ReplaceableLeaf};
use std::sync::Arc;
use vstd::prelude::*;

verus! {

/// The concatenated content of a sequence of slices.
pub open spec fn slices_content<L: Leaf>(s: Seq<&L::Slice>) -> Seq<L::Unit>
    decreases s.len(),
{
    if s.len() == 0 {
        Seq::empty()
    } else {
        slices_content::<L>(s.drop_last()) + L::slice_content(s.last())
    }
}

/// What is left of a content when the units between two offsets make way
/// for a new content.
pub open spec fn spliced<T>(c: Seq<T>, start: int, end: int, new: Seq<T>) -> Seq<T> {
    c.take(start) + new + c.skip(end)
}

/// The content of two sequences of slices, one after the other.
pub proof fn lemma_slices_content_concat<L: Leaf>(a: Seq<&L::Slice>, b: Seq<&L::Slice>)
    ensures
        slices_content::<L>(a + b) == slices_content::<L>(a) + slices_content::<L>(b),
    decreases b.len(),
{
    if b.len() == 0 {
        assert(a + b =~= a);
        assert(slices_content::<L>(a) + slices_content::<L>(b) =~= slices_content::<L>(a));
    } else {
        lemma_slices_content_concat::<L>(a, b.drop_last());
        assert((a + b).drop_last() =~= a + b.drop_last());
        assert((a + b).last() == b.last());
        assert(slices_content::<L>(a + b) =~= slices_content::<L>(a) + slices_content::<L>(b));
    }
}

/// The content of a single slice.
pub proof fn lemma_slices_content_one<L: Leaf>(s: &L::Slice)
    ensures
        slices_content::<L>(seq![s]) == L::slice_content(s),
{
    let one = seq![s];
    assert(one.drop_last() =~= Seq::<&L::Slice>::empty());
    assert(slices_content::<L>(Seq::<&L::Slice>::empty()) =~= Seq::empty());
    assert(slices_content::<L>(one) =~= L::slice_content(s));
}

/// A run of new leaves, one for each of the slices from `from` up to `to`.
pub(crate) fn leaves_from_slices<'b, const N: usize, L: Leaf>(
    slices: &Vec<&'b L::Slice>,
    from: usize,
    to: usize,
) -> (r: Vec<Arc<Node<N, L>>>)
    requires
        from <= to <= slices.len(),
    ensures
        run_ok(r@, 0),
        run_content(r@) == slices_content::<L>(slices@.subrange(from as int, to as int)),
        seq_leaves(r@).len() == to - from,
        r.len() == to - from,
{
    let mut run: Vec<Arc<Node<N, L>>> = Vec::new();
    let mut k: usize = from;
    proof {
        assert(slices@.subrange(from as int, from as int) =~= Seq::<&L::Slice>::empty());
    }
    while k < to
        invariant
            from <= k <= to <= slices.len(),
            run_ok(run@, 0),
            run_content(run@) == slices_content::<L>(slices@.subrange(from as int, k as int)),
            seq_leaves(run@).len() == k - from,
            run.len() == k - from,
        decreases to - k,
    {
        let leaf = L::from_slice(slices[k]);
        let node = Node::leaf(leaf);
        proof {
            lemma_seq_leaves_push(run@, node);
            lemma_flat_concat(seq_leaves(run@), seq![leaf]);
            lemma_flat_one(leaf);
            assert(slices@.subrange(from as int, k + 1) =~= slices@.subrange(
                from as int,
                k as int,
            ) + seq![slices@[k as int]]);
            lemma_slices_content_concat::<L>(
                slices@.subrange(from as int, k as int),
                seq![slices@[k as int]],
            );
            lemma_slices_content_one::<L>(slices@[k as int]);
        }
        run.push(node);
        k = k + 1;
    }
    run
}

/// A run of one or two new leaves: a copy of `leaf` in which the units
/// between two base offsets have made way for the content of `with`.
pub(crate) fn replace_in_leaf<const N: usize, L: ReplaceableLeaf>(
    leaf: &L,
    start: usize,
    end: usize,
    with: &L::Slice,
) -> (r: Vec<Arc<Node<N, L>>>)
    requires
        start <= end <= leaf.content().len(),
    ensures
        run_ok(r@, 0),
        run_content(r@) == spliced(
            leaf.content(),
            start as int,
            end as int,
            L::slice_content(with),
        ),
        1 <= r.len() <= 2,
        seq_leaves(r@).len() <= 2,
{
    let mut copy = L::from_slice(leaf.as_slice());
    let extra = copy.replace(start, end, with);
    let mut run: Vec<Arc<Node<N, L>>> = Vec::new();
    let first = Node::leaf(copy);
    run.push(first);
    proof {
        let c = leaf.content();
        assert(run@ =~= seq![first]);
        lemma_seq_leaves_one(first);
        lemma_flat_one(copy);
        assert(c.take(start as int) =~= c.subrange(0, start as int));
        assert(c.skip(end as int) =~= c.subrange(end as int, c.len() as int));
    }
    match extra {
        Some(extra) => {
            let second = Node::leaf(extra);
            proof {
                lemma_seq_leaves_push(run@, second);
                lemma_flat_one(extra);
                lemma_flat_concat(seq![copy], seq![extra]);
            }
            run.push(second);
        },
        None => {
            proof {
                assert(copy.content() + Seq::<L::Unit>::empty() =~= copy.content());
            }
        },
    }
    run
}

/// The run that holds what a subtree holds before the base offset `from`,
/// followed by the content of `with`. The leaf in which `from` falls takes
/// in the new content.
pub(crate) fn replace_first_rec<const N: usize, L: ReplaceableLeaf>(
    node: &Arc<Node<N, L>>,
    from: usize,
    with: &L::Slice,
) -> (r: (Vec<Arc<Node<N, L>>>, usize))
    requires
        2 <= N,
        node.sound(),
        from <= node.content().len(),
        L::fits(node.content().take(from as int) + L::slice_content(with)),
        node.spec_leaves().len() + 1 <= usize::MAX,
    ensures
        run_ok(r.0@, r.1 as nat),
        run_content(r.0@) == node.content().take(from as int) + L::slice_content(with),
        1 <= r.0.len(),
        seq_leaves(r.0@).len() <= node.spec_leaves().len() + 1,
        r.1 <= node.spec_depth(),
    decreases node.spec_depth(),
{
    let ghost whole = node.content();
    proof {
        lemma_node_facts(&**node, 1);
        L::lemma_base(whole);
    }
    match &**node {
        Node::Leaf(l) => {
            proof {
                lemma_flat_one(l.value);
            }
            let len = L::base_measure(&l.summary);
            let run = replace_in_leaf(&l.value, from, len, with);
            proof {
                let c = l.value.content();
                assert(c.skip(len as int) =~= Seq::<L::Unit>::empty());
                assert(spliced(c, from as int, len as int, L::slice_content(with)) =~= c.take(
                    from as int,
                ) + L::slice_content(with));
            }
            (run, 0)
        },
        Node::Internal(i) => {
            let children = &i.children;
            let (k, offset) = find_child::<N, L, BaseMetric>(children, from, false);
            let ghost before = run_content(children@.take(k as int));
            let ghost inside = children@[k as int].content();
            proof {
                lemma_run_content_at(children@, k as int);
                lemma_run_measure_step::<N, L, BaseMetric>(children@, k as int);
                L::lemma_base(run_content(children@.take(k as int)));
                assert(children@[k as int].wf());
                assert(whole.take(from as int) =~= before + inside.take(from - offset));
                assert(whole.take(from as int) + L::slice_content(with) =~= before + (inside.take(
                    from - offset,
                ) + L::slice_content(with)));
                L::lemma_concat(before, inside.take(from - offset) + L::slice_content(with));
            }
            let head = extend_run(Vec::new(), children, 0, k);
            let (sub, sub_depth) = replace_first_rec(&children[k], from - offset, with);
            proof {
                assert(head@ =~= children@.take(k as int));
                assert forall|j: int| 0 <= j < head@.len() implies (#[trigger] head@[j]).wf()
                    && head@[j].spec_depth() == i.depth - 1 by {
                    assert(head@[j] == children@[j]);
                }
                lemma_flat_concat(seq_leaves(head@), seq_leaves(sub@));
            }
            join_before_cut(head, i.depth - 1, sub, sub_depth)
        },
    }
}

/// The run that holds the content of `with`, followed by what a subtree
/// holds from the base offset `up_to` on. The leaf in which `up_to` falls
/// takes in the new content.
pub(crate) fn replace_last_rec<const N: usize, L: ReplaceableLeaf>(
    node: &Arc<Node<N, L>>,
    up_to: usize,
    with: &L::Slice,
) -> (r: (Vec<Arc<Node<N, L>>>, usize))
    requires
        2 <= N,
        node.sound(),
        up_to <= node.content().len(),
        L::fits(L::slice_content(with) + node.content().skip(up_to as int)),
        node.spec_leaves().len() + 1 <= usize::MAX,
    ensures
        run_ok(r.0@, r.1 as nat),
        run_content(r.0@) == L::slice_content(with) + node.content().skip(up_to as int),
        1 <= r.0.len(),
        seq_leaves(r.0@).len() <= node.spec_leaves().len() + 1,
        r.1 <= node.spec_depth(),
    decreases node.spec_depth(),
{
    let ghost whole = node.content();
    proof {
        lemma_node_facts(&**node, 1);
        L::lemma_base(whole);
    }
    match &**node {
        Node::Leaf(l) => {
            proof {
                lemma_flat_one(l.value);
            }
            let run = replace_in_leaf(&l.value, 0, up_to, with);
            proof {
                let c = l.value.content();
                assert(c.take(0) =~= Seq::<L::Unit>::empty());
                assert(spliced(c, 0, up_to as int, L::slice_content(with)) =~= L::slice_content(
                    with,
                ) + c.skip(up_to as int));
            }
            (run, 0)
        },
        Node::Internal(i) => {
            let children = &i.children;
            let len = children.len();
            let (k, offset) = find_child::<N, L, BaseMetric>(children, up_to, false);
            let ghost inside = children@[k as int].content();
            let ghost after = run_content(children@.skip(k + 1));
            proof {
                lemma_run_content_at(children@, k as int);
                lemma_run_measure_step::<N, L, BaseMetric>(children@, k as int);
                L::lemma_base(run_content(children@.take(k as int)));
                assert(children@[k as int].wf());
                assert(whole.skip(up_to as int) =~= inside.skip(up_to - offset) + after);
                assert(L::slice_content(with) + whole.skip(up_to as int) =~= (L::slice_content(with)
                    + inside.skip(up_to - offset)) + after);
                L::lemma_concat(L::slice_content(with) + inside.skip(up_to - offset), after);
            }
            let (sub, sub_depth) = replace_last_rec(&children[k], up_to - offset, with);
            let tail = extend_run(Vec::new(), children, k + 1, len);
            proof {
                assert(tail@ =~= children@.skip(k + 1));
                assert forall|j: int| 0 <= j < tail@.len() implies (#[trigger] tail@[j]).wf()
                    && tail@[j].spec_depth() == i.depth - 1 by {
                    assert(tail@[j] == children@[k + 1 + j]);
                }
                lemma_flat_concat(seq_leaves(sub@), seq_leaves(tail@));
            }
            join_after_cut(sub, sub_depth, tail, i.depth - 1)
        },
    }
}

/// The run made of the nodes of `children` before the node `first`, the
/// run `mid`, and the nodes of `children` after the node `last`. Where `mid`
/// is a single leaf among leaves, it is balanced with a leaf beside it.
pub(crate) fn splice_run<const N: usize, L: Leaf>(
    children: &Vec<Arc<Node<N, L>>>,
    depth: usize,
    first: usize,
    last: usize,
    mid: Vec<Arc<Node<N, L>>>,
    mid_depth: usize,
) -> (r: (Vec<Arc<Node<N, L>>>, usize))
    requires
        2 <= N,
        run_ok(children@, depth as nat),
        first <= last < children.len(),
        run_ok(mid@, mid_depth as nat),
        mid_depth <= depth,
        1 <= mid.len(),
        leaves_fit(
            seq_leaves(children@.take(first as int)) + seq_leaves(mid@) + seq_leaves(
                children@.skip(last + 1),
            ),
        ),
    ensures
        run_ok(r.0@, r.1 as nat),
        run_content(r.0@) == run_content(children@.take(first as int)) + run_content(mid@)
            + run_content(children@.skip(last + 1)),
        seq_leaves(r.0@).len() <= seq_leaves(children@.take(first as int)).len() + seq_leaves(
            mid@,
        ).len() + seq_leaves(children@.skip(last + 1)).len(),
        1 <= r.0.len(),
        r.1 <= depth,
{
    let len = children.len();
    let head = extend_run(Vec::new(), children, 0, first);
    let tail = extend_run(Vec::new(), children, last + 1, len);
    proof {
        assert(head@ =~= children@.take(first as int));
        assert(tail@ =~= children@.skip(last + 1));
        assert forall|j: int| 0 <= j < head@.len() implies (#[trigger] head@[j]).wf()
            && head@[j].spec_depth() == depth by {
            assert(head@[j] == children@[j]);
        }
        assert forall|j: int| 0 <= j < tail@.len() implies (#[trigger] tail@[j]).wf()
            && tail@[j].spec_depth() == depth by {
            assert(tail@[j] == children@[last + 1 + j]);
        }
        lemma_leaves_fit_parts(seq_leaves(head@) + seq_leaves(mid@), seq_leaves(tail@));
        assert(seq_leaves(head@) + (seq_leaves(mid@) + seq_leaves(tail@)) =~= (seq_leaves(head@)
            + seq_leaves(mid@)) + seq_leaves(tail@));
        lemma_leaves_fit_parts(seq_leaves(head@), seq_leaves(mid@) + seq_leaves(tail@));
        lemma_flat_concat(seq_leaves(head@) + seq_leaves(mid@), seq_leaves(tail@));
        lemma_flat_concat(seq_leaves(head@), seq_leaves(mid@));
        lemma_flat_concat(seq_leaves(mid@), seq_leaves(tail@));
        lemma_flat_concat(seq_leaves(head@), seq_leaves(mid@) + seq_leaves(tail@));
    }
    if first > 0 {
        let (joined, joined_depth) = join_before_cut(head, depth, mid, mid_depth);
        proof {
            lemma_flat_concat(seq_leaves(joined@), seq_leaves(tail@));
        }
        join_runs(joined, joined_depth, tail, depth)
    } else {
        proof {
            assert(seq_leaves(head@) =~= Seq::<L>::empty());
            assert(run_content(head@) + run_content(mid@) =~= run_content(mid@));
        }
        let (joined, joined_depth) = join_after_cut(mid, mid_depth, tail, depth);
        proof {
            lemma_flat_concat(seq_leaves(joined@), seq_leaves(Seq::<Arc<Node<N, L>>>::empty()));
        }
        (joined, joined_depth)
    }
}

/// Splits the new content three ways: the first slice, which the leaf at
/// the start of the range takes in; the last slice, if there are two or
/// more, which the leaf at the end takes in; and a run of new leaves for
/// the slices in between. A slice that is missing is empty.
pub(crate) fn split_slices<'b, const N: usize, L: Leaf>(slices: &Vec<&'b L::Slice>) -> (r: (
    &'b L::Slice,
    Vec<Arc<Node<N, L>>>,
    &'b L::Slice,
))
    ensures
        L::slice_content(r.0) + run_content(r.1@) + L::slice_content(r.2) == slices_content::<L>(
            slices@,
        ),
        run_ok(r.1@, 0),
        seq_leaves(r.1@).len() == r.1.len(),
        r.1.len() + 2 <= slices.len() || r.1.len() == 0,
        slices.len() <= 1 ==> r.1.len() == 0 && L::slice_content(r.2) == Seq::<L::Unit>::empty(),
{
    let n = slices.len();
    if n == 0 {
        let mid: Vec<Arc<Node<N, L>>> = Vec::new();
        proof {
            assert(seq_leaves(mid@) =~= Seq::<L>::empty());
            assert(Seq::<L::Unit>::empty() + Seq::<L::Unit>::empty() + Seq::<L::Unit>::empty()
                =~= Seq::<L::Unit>::empty());
        }
        (L::empty_slice(), mid, L::empty_slice())
    } else if n == 1 {
        let mid: Vec<Arc<Node<N, L>>> = Vec::new();
        proof {
            assert(seq_leaves(mid@) =~= Seq::<L>::empty());
            assert(slices@ =~= seq![slices@[0]]);
            lemma_slices_content_one::<L>(slices@[0]);
            assert(L::slice_content(slices@[0]) + Seq::<L::Unit>::empty() + Seq::<
                L::Unit,
            >::empty() =~= L::slice_content(slices@[0]));
        }
        (slices[0], mid, L::empty_slice())
    } else {
        let mid = leaves_from_slices(slices, 1, n - 1);
        proof {
            let a = seq![slices@[0]];
            let b = slices@.subrange(1, n - 1);
            let c = seq![slices@[n - 1]];
            assert(slices@ =~= (a + b) + c);
            lemma_slices_content_concat::<L>(a + b, c);
            lemma_slices_content_concat::<L>(a, b);
            lemma_slices_content_one::<L>(slices@[0]);
            lemma_slices_content_one::<L>(slices@[n - 1]);
        }
        (slices[0], mid, slices[n - 1])
    }
}

/// Replaces a range that starts in one node of a run of siblings and ends
/// in a later one. The node in which the range starts keeps what it holds
/// before the range and takes in the first slice; the node in which the
/// range ends takes in the last slice and keeps what it holds after the
/// range; the slices in between become leaves of their own, and the nodes
/// in between go.
pub(crate) fn replace_across<'b, const N: usize, L: ReplaceableLeaf>(
    children: &Vec<Arc<Node<N, L>>>,
    depth: usize,
    first: usize,
    first_offset: usize,
    last: usize,
    last_offset: usize,
    start: usize,
    end: usize,
    slices: &Vec<&'b L::Slice>,
) -> (r: (Vec<Arc<Node<N, L>>>, usize))
    requires
        2 <= N,
        run_ok(children@, depth as nat),
        leaves_fit(seq_leaves(children@)),
        first < last < children.len(),
        first_offset == run_content(children@.take(first as int)).len(),
        last_offset == run_content(children@.take(last as int)).len(),
        first_offset <= start <= first_offset + children@[first as int].content().len(),
        last_offset <= end <= last_offset + children@[last as int].content().len(),
        L::fits(
            spliced(run_content(children@), start as int, end as int, slices_content::<L>(slices@)),
        ),
        seq_leaves(children@).len() + slices.len() + 2 <= usize::MAX,
    ensures
        run_ok(r.0@, r.1 as nat),
        run_content(r.0@) == spliced(
            run_content(children@),
            start as int,
            end as int,
            slices_content::<L>(slices@),
        ),
        1 <= r.0.len(),
        seq_leaves(r.0@).len() <= seq_leaves(children@).len() + slices.len() + 2,
        r.1 <= depth,
{
    let ghost whole = run_content(children@);
    let ghost new = slices_content::<L>(slices@);
    let ghost wanted = spliced(whole, start as int, end as int, new);
    let ghost before = run_content(children@.take(first as int));
    let ghost c_first = children@[first as int].content();
    let ghost c_last = children@[last as int].content();
    let ghost after = run_content(children@.skip(last + 1));
    let (first_slice, mid, last_slice) = split_slices::<N, L>(slices);
    let ghost left_content = c_first.take(start - first_offset) + L::slice_content(first_slice);
    let ghost right_content = L::slice_content(last_slice) + c_last.skip(end - last_offset);
    proof {
        super::cut::lemma_span(children@, first as int, last as int);
        super::cut::lemma_span_leaves(children@, first as int, last as int);
        assert(wanted =~= before + ((left_content + run_content(mid@)) + right_content) + after);
        L::lemma_concat(before + ((left_content + run_content(mid@)) + right_content), after);
        L::lemma_concat(before, (left_content + run_content(mid@)) + right_content);
        L::lemma_concat(left_content + run_content(mid@), right_content);
        L::lemma_concat(left_content, run_content(mid@));
        assert(children@[first as int].wf());
        assert(children@[last as int].wf());
        lemma_seq_leaves_sub(children@, 0, first as int);
        lemma_seq_leaves_sub(children@, last + 1, children@.len() as int);
        assert(children@.subrange(0, first as int) =~= children@.take(first as int));
        assert(children@.subrange(last + 1, children@.len() as int) =~= children@.skip(last + 1));
        lemma_run_content_at(children@, last as int);
    }
    let (left, left_depth) = replace_first_rec(
        &children[first],
        start - first_offset,
        first_slice,
    );
    let (right, right_depth) = replace_last_rec(&children[last], end - last_offset, last_slice);
    proof {
        lemma_flat_concat(seq_leaves(left@), seq_leaves(mid@));
        lemma_flat_concat(seq_leaves(left@) + seq_leaves(mid@), seq_leaves(right@));
    }
    let (joined, joined_depth) = join_runs(left, left_depth, mid, 0);
    let (inner, inner_depth) = join_runs(joined, joined_depth, right, right_depth);
    proof {
        lemma_flat_concat(seq_leaves(children@.take(first as int)), seq_leaves(inner@));
        lemma_flat_concat(
            seq_leaves(children@.take(first as int)) + seq_leaves(inner@),
            seq_leaves(children@.skip(last + 1)),
        );
    }
    splice_run(children, depth, first, last, inner, inner_depth)
}

/// Replaces a range of a leaf with the content of a sequence of slices.
/// With one slice or none, one copy of the leaf takes in the new content.
/// With more, one copy keeps what lies before the range and takes in the
/// first slice, another takes in the last slice and keeps what lies after
/// the range, and the slices in between become leaves of their own.
pub(crate) fn replace_leaf<'b, const N: usize, L: ReplaceableLeaf>(
    leaf: &L,
    start: usize,
    end: usize,
    slices: &Vec<&'b L::Slice>,
) -> (r: Vec<Arc<Node<N, L>>>)
    requires
        2 <= N,
        start <= end <= leaf.content().len(),
        L::fits(
            spliced(leaf.content(), start as int, end as int, slices_content::<L>(slices@)),
        ),
        slices.len() + 3 <= usize::MAX,
    ensures
        run_ok(r@, 0),
        run_content(r@) == spliced(
            leaf.content(),
            start as int,
            end as int,
            slices_content::<L>(slices@),
        ),
        1 <= r.len(),
        seq_leaves(r@).len() <= slices.len() + 3,
{
    let ghost c = leaf.content();
    let ghost new = slices_content::<L>(slices@);
    let (first_slice, mid, last_slice) = split_slices::<N, L>(slices);
    if slices.len() <= 1 {
        proof {
            assert(mid@ =~= Seq::<Arc<Node<N, L>>>::empty());
            assert(seq_leaves(mid@) =~= Seq::<L>::empty());
            assert(run_content(mid@) =~= Seq::<L::Unit>::empty());
            assert(new =~= L::slice_content(first_slice));
        }
        replace_in_leaf(leaf, start, end, first_slice)
    } else {
        proof {
            leaf.lemma_leaf_fits();
            L::lemma_base(c);
        }
        let len = L::base_measure(&leaf.summarize());
        let left = replace_in_leaf::<N, L>(leaf, start, len, first_slice);
        let right = replace_in_leaf::<N, L>(leaf, 0, end, last_slice);
        proof {
            let left_content = c.take(start as int) + L::slice_content(first_slice);
            let right_content = L::slice_content(last_slice) + c.skip(end as int);
            assert(c.skip(len as int) =~= Seq::<L::Unit>::empty());
            assert(c.take(0) =~= Seq::<L::Unit>::empty());
            assert(run_content(left@) =~= left_content);
            assert(run_content(right@) =~= right_content);
            assert(spliced(c, start as int, end as int, new) =~= (left_content + run_content(mid@))
                + right_content);
            L::lemma_concat(left_content + run_content(mid@), right_content);
            lemma_flat_concat(seq_leaves(left@), seq_leaves(mid@));
            lemma_flat_concat(seq_leaves(left@) + seq_leaves(mid@), seq_leaves(right@));
        }
        let (joined, _) = join_runs(left, 0, mid, 0);
        let (run, _) = join_runs(joined, 0, right, 0);
        run
    }
}

/// Replaces the units of a subtree between two base offsets with the
/// content of a sequence of slices, and returns the run that takes the
/// place of the subtree. Goes down to the deepest node that holds the whole
/// range; what that node holds around the range stays shared with the
/// subtree.
pub(crate) fn replace_rec<'b, const N: usize, L: ReplaceableLeaf>(
    node: &Arc<Node<N, L>>,
    start: usize,
    end: usize,
    slices: &Vec<&'b L::Slice>,
) -> (r: (Vec<Arc<Node<N, L>>>, usize))
    requires
        2 <= N,
        node.sound(),
        start <= end <= node.content().len(),
        L::fits(
            spliced(node.content(), start as int, end as int, slices_content::<L>(slices@)),
        ),
        node.spec_leaves().len() + slices.len() + 2 <= usize::MAX,
    ensures
        run_ok(r.0@, r.1 as nat),
        run_content(r.0@) == spliced(
            node.content(),
            start as int,
            end as int,
            slices_content::<L>(slices@),
        ),
        1 <= r.0.len(),
        seq_leaves(r.0@).len() <= node.spec_leaves().len() + slices.len() + 2,
        r.1 <= node.spec_depth(),
    decreases node.spec_depth(),
{
    let ghost whole = node.content();
    let ghost new = slices_content::<L>(slices@);
    proof {
        lemma_node_facts(&**node, 1);
        L::lemma_base(whole);
    }
    match &**node {
        Node::Leaf(l) => {
            proof {
                lemma_flat_one(l.value);
            }
            (replace_leaf(&l.value, start, end, slices), 0)
        },
        Node::Internal(i) => {
            let children = &i.children;
            let (first, first_offset, last, last_offset) = find_ends(children, start, end, false);
            proof {
                assert(children@[first as int].wf());
            }
            if first == last {
                let ghost before = run_content(children@.take(first as int));
                let ghost inside = children@[first as int].content();
                let ghost after = run_content(children@.skip(first + 1));
                let ghost inner = spliced(
                    inside,
                    start - first_offset,
                    end - first_offset,
                    new,
                );
                proof {
                    lemma_run_content_at(children@, first as int);
                    assert(spliced(whole, start as int, end as int, new) =~= (before + inner)
                        + after);
                    L::lemma_concat(before + inner, after);
                    L::lemma_concat(before, inner);
                }
                let (sub, sub_depth) = replace_rec(
                    &children[first],
                    start - first_offset,
                    end - first_offset,
                    slices,
                );
                proof {
                    lemma_flat_concat(seq_leaves(children@.take(first as int)), seq_leaves(sub@));
                    lemma_flat_concat(
                        seq_leaves(children@.take(first as int)) + seq_leaves(sub@),
                        seq_leaves(children@.skip(first + 1)),
                    );
                }
                splice_run(children, i.depth - 1, first, first, sub, sub_depth)
            } else {
                replace_across(
                    children,
                    i.depth - 1,
                    first,
                    first_offset,
                    last,
                    last_offset,
                    start,
                    end,
                    slices,
                )
            }
        },
    }
}

/// How an edit in place ended.
pub(crate) enum Edited<const N: usize, L: Leaf> {
    /// The node holds the new content, but for what the sibling holds that
    /// is to follow it.
    InPlace(Option<Arc<Node<N, L>>>),
    /// The edit would reach into nodes that others share, or into more than
    /// one leaf: the node is as it was.
    Untouched,
}

/// What a sibling that may be there holds.
pub(crate) open spec fn sibling_content<const N: usize, L: Leaf>(
    sibling: Option<Arc<Node<N, L>>>,
) -> Seq<L::Unit> {
    match sibling {
        Some(s) => s.content(),
        None => Seq::empty(),
    }
}

/// The leaves of a sibling that may be there.
pub(crate) open spec fn sibling_leaves<const N: usize, L: Leaf>(
    sibling: Option<Arc<Node<N, L>>>,
) -> Seq<L> {
    match sibling {
        Some(s) => s.spec_leaves(),
        None => Seq::empty(),
    }
}

/// Replaces a range of a leaf node with the content of a slice, in place.
/// A leaf that outgrows its size hands back a second leaf node.
pub(crate) fn replace_lnode<const N: usize, L: ReplaceableLeaf>(
    l: &mut super::node::Lnode<L>,
    start: usize,
    end: usize,
    with: &L::Slice,
) -> (r: Option<Arc<Node<N, L>>>)
    requires
        start <= end <= old(l).value.content().len(),
    ensures
        final(l).summary == L::summary_of(final(l).value.content()),
        final(l).value.content() + sibling_content(r) == spliced(
            old(l).value.content(),
            start as int,
            end as int,
            L::slice_content(with),
        ),
        r matches Some(s) ==> s.wf() && s.spec_depth() == 0 && s.spec_leaves().len() == 1,
{
    proof {
        let c = l.value.content();
        assert(c.take(start as int) =~= c.subrange(0, start as int));
        assert(c.skip(end as int) =~= c.subrange(end as int, c.len() as int));
    }
    let extra = l.value.replace(start, end, with);
    l.summary = l.value.summarize();
    match extra {
        Some(extra) => {
            let sibling = Node::leaf(extra);
            proof {
                lemma_flat_one(extra);
            }
            Some(sibling)
        },
        None => None,
    }
}

/// Takes in the sibling that is to follow the child `first`, if there is
/// one, and computes the cached values anew. A node that comes to have more
/// children than the fanout allows splits off its last children, as few as
/// a node may have, into a sibling of its own.
pub(crate) fn absorb<const N: usize, L: Leaf>(
    inode: &mut Inode<N, L>,
    lo: usize,
    first: usize,
    sibling: Option<Arc<Node<N, L>>>,
) -> (r: Option<Arc<Node<N, L>>>)
    requires
        2 <= N,
        lo == 2 || lo == min_children(N),
        1 <= old(inode).depth,
        run_ok(old(inode).children@, (old(inode).depth - 1) as nat),
        first < old(inode).children@.len(),
        lo <= old(inode).children@.len() <= N,
        sibling matches Some(s) ==> s.wf() && s.spec_depth() + 1 == old(inode).depth,
        leaves_fit(
            seq_leaves(old(inode).children@.take(first + 1)) + sibling_leaves(sibling)
                + seq_leaves(old(inode).children@.skip(first + 1)),
        ),
    ensures
        final(inode).consistent(),
        lo <= final(inode).children@.len() <= N,
        final(inode).depth == old(inode).depth,
        r matches Some(p) ==> p.wf() && p.spec_depth() == old(inode).depth && min_children(N)
            <= final(inode).children@.len(),
        seq_leaves(final(inode).children@) + sibling_leaves(r) == seq_leaves(
            old(inode).children@.take(first + 1),
        ) + sibling_leaves(sibling) + seq_leaves(old(inode).children@.skip(first + 1)),
        sibling is None && r is None ==> final(inode).children@ == old(inode).children@,
{
    let ghost before = inode.children@;
    let ghost wanted = seq_leaves(before.take(first + 1)) + sibling_leaves(sibling) + seq_leaves(
        before.skip(first + 1),
    );
    proof {
        lemma_seq_leaves_split(before, first + 1);
    }
    match sibling {
        Some(s) => {
            proof {
                let grown = before.insert(first + 1, s);
                assert(grown =~= (before.take(first + 1) + seq![s]) + before.skip(first + 1));
                lemma_seq_leaves_concat(before.take(first + 1) + seq![s], before.skip(first + 1));
                lemma_seq_leaves_concat(before.take(first + 1), seq![s]);
                lemma_seq_leaves_one(s);
                assert(seq_leaves(grown) =~= wanted);
                assert forall|j: int| 0 <= j < grown.len() implies (#[trigger] grown[j]).wf()
                    && grown[j].spec_depth() == inode.depth - 1 by {
                    if j <= first {
                        assert(grown[j] == before[j]);
                    } else if j > first + 1 {
                        assert(grown[j] == before[j - 1]);
                    }
                }
            }
            inode.children.insert(first + 1, s);
        },
        None => {
            proof {
                assert(wanted =~= seq_leaves(before));
            }
        },
    }
    inode.refresh();
    if inode.is_overfull() {
        let min: usize = N / 2 + N % 2;
        let len = inode.children.len();
        proof {
            lemma_seq_leaves_split(inode.children@, len - min);
        }
        let split = inode.split_off(len - min);
        Some(Arc::new(Node::Internal(split)))
    } else {
        proof {
            assert(seq_leaves(inode.children@) + Seq::<L>::empty() =~= seq_leaves(
                inode.children@,
            ));
        }
        None
    }
}

/// A run of leaves in which two neighbours have made way for a run that
/// holds what the two held holds what it held.
pub(crate) proof fn lemma_replace_pair<const N: usize, L: Leaf>(
    before: Seq<Arc<Node<N, L>>>,
    pair: Seq<Arc<Node<N, L>>>,
    at: int,
)
    requires
        0 <= at,
        at + 2 <= before.len(),
        run_ok(before, 0),
        run_ok(pair, 0),
        run_content(pair) == before[at].content() + before[at + 1].content(),
        seq_leaves(pair).len() <= 2,
    ensures
        run_content((before.take(at) + pair) + before.skip(at + 2)) == run_content(before),
        seq_leaves((before.take(at) + pair) + before.skip(at + 2)).len() <= seq_leaves(
            before,
        ).len(),
        run_ok((before.take(at) + pair) + before.skip(at + 2), 0),
{
    let a = before.take(at);
    let two = before.subrange(at, at + 2);
    let c = before.skip(at + 2);
    let after = (a + pair) + c;
    assert(before =~= (a + two) + c);
    assert(two =~= seq![before[at]].push(before[at + 1]));
    assert(before[at].wf() && before[at + 1].wf());
    lemma_seq_leaves_one(before[at]);
    lemma_seq_leaves_push(seq![before[at]], before[at + 1]);
    lemma_flat_concat(before[at].spec_leaves(), before[at + 1].spec_leaves());
    lemma_run_content_concat(a + two, c);
    lemma_run_content_concat(a, two);
    lemma_run_content_concat(a + pair, c);
    lemma_run_content_concat(a, pair);
    assert(run_content(after) =~= run_content(before));
    assert forall|j: int| 0 <= j < after.len() implies (#[trigger] after[j]).wf()
        && after[j].spec_depth() == 0 by {
        if j < at {
            assert(after[j] == before[j]);
        } else if j < at + pair.len() {
            assert(after[j] == pair[j - at]);
        } else {
            assert(after[j] == before[j - pair.len() + 2]);
        }
    }
}

/// The index of the first of the two neighbours that are balanced for the
/// child `first`: the child itself, or the child before it if it is the
/// last.
pub(crate) open spec fn pair_at<const N: usize, L: Leaf>(cs: Seq<Arc<Node<N, L>>>, first: int) -> int {
    if first + 1 < cs.len() {
        first
    } else {
        first - 1
    }
}

/// What the leaves hold over which the child `first` and its neighbour
/// are spread when they are balanced.
pub(crate) open spec fn settled_pair<const N: usize, L: Leaf>(
    cs: Seq<Arc<Node<N, L>>>,
    first: int,
) -> Seq<Seq<L::Unit>> {
    pair_contents::<L>(cs[pair_at(cs, first)].content(), cs[pair_at(cs, first) + 1].content())
}

/// Whether the child `first` of a node is balanced with its neighbour: the
/// children are leaves, the child is smaller than its size policy asks, and
/// the two are spread over two leaves, or over one and the node can do with
/// one child less.
pub(crate) open spec fn settles<const N: usize, L: Leaf>(
    cs: Seq<Arc<Node<N, L>>>,
    depth: usize,
    lo: int,
    first: int,
) -> bool {
    &&& depth == 1
    &&& cs.len() >= 2
    &&& !L::big_enough(cs[first].content())
    &&& settled_pair(cs, first).len() != 1 || cs.len() - 1 >= lo
}

/// Balances the leaf `first` of a node of leaves with a leaf beside it,
/// where the leaf is smaller than its size policy asks after an edit: the
/// content of the two is spread anew over two leaves, or over one if the
/// node can do with one child less. The other children stay as they are; a
/// node that does not balance the leaf stays as it is.
pub(crate) fn settle_leaf<const N: usize, L: Leaf>(inode: &mut Inode<N, L>, lo: usize, first: usize)
    requires
        2 <= N,
        lo == 2 || lo == min_children(N),
        old(inode).consistent(),
        lo <= old(inode).children@.len() <= N,
        first < old(inode).children@.len(),
    ensures
        final(inode).consistent(),
        lo <= final(inode).children@.len() <= N,
        final(inode).depth == old(inode).depth,
        run_content(final(inode).children@) == run_content(old(inode).children@),
        seq_leaves(final(inode).children@).len() <= seq_leaves(old(inode).children@).len(),
        !settles(old(inode).children@, old(inode).depth, lo as int, first as int) ==> *final(inode)
            == *old(inode),
        settles(old(inode).children@, old(inode).depth, lo as int, first as int) ==> {
            let before = old(inode).children@;
            let after = final(inode).children@;
            let at = pair_at(before, first as int);
            let pair = settled_pair(before, first as int);
            &&& after.len() == before.len() - 2 + pair.len()
            &&& after.take(at) == before.take(at)
            &&& leaf_contents(after.subrange(at, at + pair.len())) == pair
            &&& after.skip(at + pair.len()) == before.skip(at + 2)
        },
{
    let len = inode.children.len();
    if inode.depth != 1 || len < 2 {
        return;
    }
    let ghost before = inode.children@;
    proof {
        assert(before[first as int].wf());
        lemma_flat_one(before[first as int].spec_leaves()[0]);
        assert(before[first as int].spec_leaves() =~= seq![before[first as int].spec_leaves()[0]]);
    }
    let small = match &*inode.children[first] {
        Node::Leaf(l) => !l.value.is_big_enough(),
        Node::Internal(_) => false,
    };
    if !small {
        return;
    }
    let at = if first + 1 < len {
        first
    } else {
        first - 1
    };
    proof {
        assert(before[at as int].wf());
        assert(before[at + 1].wf());
    }
    let pair = balance_pair(&inode.children[at], &inode.children[at + 1]);
    proof {
        assert(leaf_contents(pair@).len() == pair@.len());
    }
    if pair.len() == 1 && len - 1 < lo {
        return;
    }
    put_pair(inode, lo, at, pair);
}

/// Puts a run of one or two leaves in the place of the children `at` and
/// `at + 1` of a node of leaves, which hold what the run holds.
pub(crate) fn put_pair<const N: usize, L: Leaf>(
    inode: &mut Inode<N, L>,
    lo: usize,
    at: usize,
    pair: Vec<Arc<Node<N, L>>>,
)
    requires
        2 <= N,
        old(inode).consistent(),
        old(inode).depth == 1,
        at + 2 <= old(inode).children@.len() <= N,
        run_ok(pair@, 0),
        1 <= pair.len() <= 2,
        seq_leaves(pair@).len() == pair.len(),
        run_content(pair@) == old(inode).children@[at as int].content() + old(
            inode,
        ).children@[at + 1].content(),
        lo <= old(inode).children@.len() - 2 + pair.len(),
    ensures
        final(inode).consistent(),
        final(inode).depth == old(inode).depth,
        lo <= final(inode).children@.len() <= N,
        final(inode).children@.len() == old(inode).children@.len() - 2 + pair.len(),
        final(inode).children@.take(at as int) == old(inode).children@.take(at as int),
        final(inode).children@.subrange(at as int, at + pair.len()) == pair@,
        final(inode).children@.skip(at + pair.len()) == old(inode).children@.skip(at + 2),
        run_content(final(inode).children@) == run_content(old(inode).children@),
        seq_leaves(final(inode).children@).len() <= seq_leaves(old(inode).children@).len(),
{
    let ghost before = inode.children@;
    let len = inode.children.len();
    let pair_len = pair.len();
    let head = extend_run(Vec::new(), &inode.children, 0, at);
    let joined = extend_run(head, &pair, 0, pair_len);
    let children = extend_run(joined, &inode.children, at + 2, len);
    proof {
        assert(pair@.subrange(0, pair_len as int) =~= pair@);
        assert(before.subrange(0, at as int) =~= before.take(at as int));
        assert(before.subrange(at + 2, len as int) =~= before.skip(at + 2));
        assert(children@ =~= (before.take(at as int) + pair@) + before.skip(at + 2));
        lemma_replace_pair(before, pair@, at as int);
        assert(children@.take(at as int) =~= before.take(at as int));
        assert(children@.subrange(at as int, at + pair_len) =~= pair@);
        assert(children@.skip(at + pair_len) =~= before.skip(at + 2));
    }
    inode.children = children;
    inode.refresh();
}

/// Brings a node in order after its child `first` was edited in place:
/// takes in the sibling that the child handed back and splits if it comes
/// to have too many children, or balances the child with a leaf beside it if
/// the child is a leaf that the edit has left too small.
pub(crate) fn finish_edit<const N: usize, L: Leaf>(
    inode: &mut Inode<N, L>,
    lo: usize,
    first: usize,
    sibling: Option<Arc<Node<N, L>>>,
) -> (r: Option<Arc<Node<N, L>>>)
    requires
        2 <= N,
        lo == 2 || lo == min_children(N),
        1 <= old(inode).depth,
        run_ok(old(inode).children@, (old(inode).depth - 1) as nat),
        first < old(inode).children@.len(),
        lo <= old(inode).children@.len() <= N,
        sibling matches Some(s) ==> s.wf() && s.spec_depth() + 1 == old(inode).depth,
        leaves_fit(
            seq_leaves(old(inode).children@.take(first + 1)) + sibling_leaves(sibling)
                + seq_leaves(old(inode).children@.skip(first + 1)),
        ),
    ensures
        final(inode).consistent(),
        lo <= final(inode).children@.len() <= N,
        final(inode).depth == old(inode).depth,
        r matches Some(p) ==> p.wf() && p.spec_depth() == old(inode).depth && min_children(N)
            <= final(inode).children@.len(),
        run_content(final(inode).children@) + sibling_content(r) == run_content(
            old(inode).children@.take(first + 1),
        ) + sibling_content(sibling) + run_content(old(inode).children@.skip(first + 1)),
        seq_leaves(final(inode).children@).len() + sibling_leaves(r).len() <= seq_leaves(
            old(inode).children@,
        ).len() + sibling_leaves(sibling).len(),
{
    let ghost before = inode.children@;
    proof {
        lemma_seq_leaves_split(before, first + 1);
        lemma_flat_concat(seq_leaves(before.take(first + 1)), sibling_leaves(sibling));
        lemma_flat_concat(
            seq_leaves(before.take(first + 1)) + sibling_leaves(sibling),
            seq_leaves(before.skip(first + 1)),
        );
    }
    let alone = sibling.is_none();
    let split = absorb(inode, lo, first, sibling);
    proof {
        lemma_flat_concat(seq_leaves(inode.children@), sibling_leaves(split));
    }
    if alone && split.is_none() {
        settle_leaf(inode, lo, first);
    }
    split
}

/// A run in which one node has made way for another holds what the run
/// held, with the content of the one node replaced by that of the other.
pub(crate) proof fn lemma_edit_child<const N: usize, L: Leaf>(
    before: Seq<Arc<Node<N, L>>>,
    after: Seq<Arc<Node<N, L>>>,
    first: int,
    start: int,
    end: int,
    new: Seq<L::Unit>,
    extra: Seq<L::Unit>,
)
    requires
        0 <= first < before.len(),
        after.len() == before.len(),
        forall|j: int| 0 <= j < before.len() && j != first ==> after[j] == before[j],
        run_content(before.take(first)).len() <= start <= end <= run_content(
            before.take(first),
        ).len() + before[first].content().len(),
        after[first].content() + extra == spliced(
            before[first].content(),
            start - run_content(before.take(first)).len(),
            end - run_content(before.take(first)).len(),
            new,
        ),
    ensures
        run_content(after.take(first + 1)) + extra + run_content(after.skip(first + 1)) == spliced(
            run_content(before),
            start,
            end,
            new,
        ),
        seq_leaves(after.take(first + 1)) == seq_leaves(before.take(first))
            + after[first].spec_leaves(),
        seq_leaves(after.skip(first + 1)) == seq_leaves(before.skip(first + 1)),
        seq_leaves(before) == seq_leaves(before.take(first)) + before[first].spec_leaves()
            + seq_leaves(before.skip(first + 1)),
        seq_leaves(after) == seq_leaves(before.take(first)) + after[first].spec_leaves()
            + seq_leaves(before.skip(first + 1)),
{
    assert(after.take(first) =~= before.take(first));
    assert(after.skip(first + 1) =~= before.skip(first + 1));
    lemma_run_content_at(before, first);
    lemma_run_content_at(after, first);
    let head = run_content(before.take(first));
    let tail = run_content(before.skip(first + 1));
    let inside = before[first].content();
    assert(after.take(first + 1).take(first) =~= after.take(first));
    assert(after.take(first + 1).skip(first + 1) =~= Seq::<Arc<Node<N, L>>>::empty());
    lemma_run_content_at(after.take(first + 1), first);
    assert(seq_leaves(after.take(first + 1)) =~= seq_leaves(before.take(first))
        + after[first].spec_leaves());
    assert(run_content(after.take(first + 1)) =~= head + after[first].content());
    assert(spliced(run_content(before), start, end, new) =~= head + spliced(
        inside,
        start - head.len(),
        end - head.len(),
        new,
    ) + tail);
    assert(run_content(after.take(first + 1)) + extra + tail =~= head + (after[first].content()
        + extra) + tail);
}

/// A run in which one node has made way for another has the leaves of
/// the run, with those of the one node replaced by those of the other.
pub(crate) proof fn lemma_swap_child<const N: usize, L: Leaf>(
    before: Seq<Arc<Node<N, L>>>,
    after: Seq<Arc<Node<N, L>>>,
    first: int,
)
    requires
        0 <= first < before.len(),
        after.len() == before.len(),
        forall|j: int| 0 <= j < before.len() && j != first ==> after[j] == before[j],
    ensures
        seq_leaves(before) == seq_leaves(before.take(first)) + before[first].spec_leaves()
            + seq_leaves(before.skip(first + 1)),
        seq_leaves(after) == seq_leaves(before.take(first)) + after[first].spec_leaves()
            + seq_leaves(before.skip(first + 1)),
{
    assert(after.take(first) =~= before.take(first));
    assert(after.skip(first + 1) =~= before.skip(first + 1));
    lemma_run_content_at(before, first);
    lemma_run_content_at(after, first);
}

/// Whether a range of what a run of siblings holds lies in one leaf: its
/// two ends fall in the same child, and so on down to a leaf.
pub(crate) open spec fn run_in_one_leaf<const N: usize, L: Leaf>(
    cs: Seq<Arc<Node<N, L>>>,
    start: int,
    end: int,
) -> bool
    decreases cs, 1int,
{
    let k = child_index(cs, start);
    if 0 <= k < cs.len() && k == child_index(cs, end) {
        in_one_leaf(
            &*cs[k],
            start - run_content(cs.take(k)).len(),
            end - run_content(cs.take(k)).len(),
        )
    } else {
        false
    }
}

/// Whether a range of what a subtree holds lies in one leaf.
pub(crate) open spec fn in_one_leaf<const N: usize, L: Leaf>(
    node: &Node<N, L>,
    start: int,
    end: int,
) -> bool
    decreases node, 0int,
{
    match node {
        Node::Leaf(_) => true,
        Node::Internal(i) => run_in_one_leaf(i.children@, start, end),
    }
}

/// The outcome of an edit in place, seen from the node that was edited.
pub(crate) open spec fn edited_ok<const N: usize, L: Leaf>(
    r: Edited<N, L>,
    before: Seq<L>,
    after: Seq<L>,
    depth: nat,
    wanted: Seq<L::Unit>,
) -> bool {
    match r {
        Edited::Untouched => after == before,
        Edited::InPlace(sibling) => {
            &&& flat(after) + sibling_content(sibling) == wanted
            &&& after.len() + sibling_leaves(sibling).len() <= before.len() + 1
            &&& sibling matches Some(s) ==> s.wf() && s.spec_depth() == depth
        },
    }
}

/// Replaces the units below an internal node between two base offsets
/// with the content of one slice, in place: in the child that holds the
/// range, if nothing else shares it. Takes in the sibling that the child
/// hands back, and splits when it comes to have too many children.
pub(crate) fn replace_in_inode<const N: usize, L: ReplaceableLeaf>(
    inode: &mut Inode<N, L>,
    lo: usize,
    start: usize,
    end: usize,
    with: &L::Slice,
) -> (r: Edited<N, L>)
    requires
        2 <= N,
        lo == 2 || lo == min_children(N),
        old(inode).consistent(),
        lo <= old(inode).children@.len() <= N,
        start <= end <= run_content(old(inode).children@).len(),
        L::fits(
            spliced(
                run_content(old(inode).children@),
                start as int,
                end as int,
                L::slice_content(with),
            ),
        ),
        seq_leaves(old(inode).children@).len() + 1 <= usize::MAX,
    ensures
        final(inode).consistent(),
        lo <= final(inode).children@.len() <= N,
        final(inode).depth == old(inode).depth,
        edited_ok(
            r,
            seq_leaves(old(inode).children@),
            seq_leaves(final(inode).children@),
            old(inode).depth as nat,
            spliced(
                run_content(old(inode).children@),
                start as int,
                end as int,
                L::slice_content(with),
            ),
        ),
        r matches Edited::InPlace(Some(_)) ==> min_children(N) <= final(inode).children@.len(),
        !run_in_one_leaf(old(inode).children@, start as int, end as int) ==> r is Untouched,
    decreases old(inode).depth, 0int,
{
    let ghost new = L::slice_content(with);
    let ghost before = inode.children@;
    let ghost whole = run_content(before);
    proof {
        L::lemma_base(whole);
    }
    let (first, first_offset, last, _) = find_ends(&inode.children, start, end, false);
    if first != last {
        return Edited::Untouched;
    }
    let ghost inner = spliced(
        before[first as int].content(),
        start - first_offset,
        end - first_offset,
        new,
    );
    proof {
        assert(before[first as int].wf());
        lemma_node_facts(&*before[first as int], min_children(N));
        let head = run_content(before.take(first as int));
        let tail = run_content(before.skip(first + 1));
        lemma_run_content_at(before, first as int);
        assert(spliced(whole, start as int, end as int, new) =~= (head + inner) + tail);
        L::lemma_concat(head + inner, tail);
        L::lemma_concat(head, inner);
        lemma_swap_child(before, before, first as int);
    }
    let min: usize = N / 2 + N % 2;
    let edited = replace_in_child(
        arc_get_mut(&mut inode.children[first]),
        min,
        start - first_offset,
        end - first_offset,
        with,
    );
    let ghost after = inode.children@;
    proof {
        assert forall|j: int| 0 <= j < after.len() implies (#[trigger] after[j]).wf()
            && after[j].spec_depth() == inode.depth - 1 by {
            if j != first {
                assert(after[j] == before[j]);
            }
        }
        lemma_swap_child(before, after, first as int);
    }
    match edited {
        Edited::Untouched => Edited::Untouched,
        Edited::InPlace(sibling) => {
            proof {
                lemma_edit_child(
                    before,
                    after,
                    first as int,
                    start as int,
                    end as int,
                    new,
                    sibling_content(sibling),
                );
                lemma_flat_concat(seq_leaves(after.take(first + 1)), sibling_leaves(sibling));
                lemma_flat_concat(
                    seq_leaves(after.take(first + 1)) + sibling_leaves(sibling),
                    seq_leaves(after.skip(first + 1)),
                );
            }
            let split = finish_edit(inode, lo, first, sibling);
            Edited::InPlace(split)
        },
    }
}

/// Replaces a range of a subtree in place, given what came of asking for
/// the subtree alone: a subtree that others share is not to be had, and
/// stays untouched; one that nothing else shares is edited in place.
pub(crate) fn replace_in_child<const N: usize, L: ReplaceableLeaf>(
    got: Option<&mut Node<N, L>>,
    lo: usize,
    start: usize,
    end: usize,
    with: &L::Slice,
) -> (r: Edited<N, L>)
    requires
        2 <= N,
        lo == 2 || lo == min_children(N),
        got matches Some(node) ==> {
            &&& node.ok(lo as nat)
            &&& start <= end <= node.content().len()
            &&& L::fits(spliced(node.content(), start as int, end as int, L::slice_content(with)))
            &&& node.spec_leaves().len() + 1 <= usize::MAX
        },
    ensures
        got is None ==> r is Untouched,
        got matches Some(node) ==> {
            &&& final(node).ok(lo as nat)
            &&& final(node).spec_depth() == node.spec_depth()
            &&& edited_ok(
                r,
                node.spec_leaves(),
                final(node).spec_leaves(),
                node.spec_depth(),
                spliced(node.content(), start as int, end as int, L::slice_content(with)),
            )
            &&& r matches Edited::InPlace(Some(_)) ==> final(node).wf()
            &&& (*node) is Leaf ==> r is InPlace
            &&& !in_one_leaf(node, start as int, end as int) ==> r is Untouched
        },
    decreases
            (match got {
                Some(node) => node.spec_depth(),
                None => 0,
            }),
            2int,
{
    match got {
        None => Edited::Untouched,
        Some(node) => replace_in_place(node, lo, start, end, with),
    }
}

/// Replaces the units of a subtree between two base offsets with the
/// content of one slice, in place. Goes down to the leaf that holds the
/// range, which takes in the new content; a leaf that outgrows its size
/// hands back a second leaf, which its parent takes in right after it; a
/// parent that comes to have more children than the fanout allows splits
/// off its last children into a sibling of its own. Gives up, with no
/// content changed, where the range reaches into two children of a node or
/// where a node on the way is shared.
pub(crate) fn replace_in_place<const N: usize, L: ReplaceableLeaf>(
    node: &mut Node<N, L>,
    lo: usize,
    start: usize,
    end: usize,
    with: &L::Slice,
) -> (r: Edited<N, L>)
    requires
        2 <= N,
        lo == 2 || lo == min_children(N),
        old(node).ok(lo as nat),
        start <= end <= old(node).content().len(),
        L::fits(spliced(old(node).content(), start as int, end as int, L::slice_content(with))),
        old(node).spec_leaves().len() + 1 <= usize::MAX,
    ensures
        final(node).ok(lo as nat),
        final(node).spec_depth() == old(node).spec_depth(),
        edited_ok(
            r,
            old(node).spec_leaves(),
            final(node).spec_leaves(),
            old(node).spec_depth(),
            spliced(old(node).content(), start as int, end as int, L::slice_content(with)),
        ),
        r matches Edited::InPlace(Some(_)) ==> final(node).wf(),
        (*old(node)) is Leaf ==> r is InPlace,
        !in_one_leaf(old(node), start as int, end as int) ==> r is Untouched,
    decreases old(node).spec_depth(), 1int,
{
    match node {
        Node::Leaf(l) => {
            proof {
                lemma_flat_one(l.value);
            }
            let sibling = replace_lnode(l, start, end, with);
            proof {
                lemma_flat_one(l.value);
            }
            Edited::InPlace(sibling)
        },
        Node::Internal(inode) => replace_in_inode(inode, lo, start, end, with),
    }
}

} // verus!
