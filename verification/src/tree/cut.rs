//! Cutting a range of content out of a subtree.
use super::node::{
    all_wf, arc_clone, leaves_fit, lemma_fits_sub, lemma_flat_concat, lemma_flat_one,
    lemma_node_facts, lemma_run_content_at, lemma_run_measure_mono, lemma_run_measure_step,
    lemma_run_take_split, lemma_seq_leaves_concat, lemma_seq_leaves_one, min_children,
    run_content, run_measure, run_ok, seq_leaves, Node,
};
use super::runs::{extend_run, join_after_cut, join_before_cut, lemma_seq_leaves_sub};
use super::traits::{BaseMetric, Leaf, Metric, SlicingMetric};
use std::sync::Arc;
use vstd::prelude::*;

verus! {

/// Finds the child in which the offset `pos` of the metric `M` falls, and
/// the measure of the children before it. With `strict` it is the first
/// child that ends after `pos`, without it the first that ends at `pos` or
/// after it.
pub(crate) fn find_child<const N: usize, L: Leaf, M: Metric<L>>(
    children: &Vec<Arc<Node<N, L>>>,
    pos: usize,
    strict: bool,
) -> (r: (usize, usize))
    requires
        all_wf(children@),
        leaves_fit(seq_leaves(children@)),
        strict ==> pos < run_measure::<N, L, M>(children@),
        !strict ==> pos <= run_measure::<N, L, M>(children@),
        1 <= children.len(),
    ensures
        r.0 < children.len(),
        r.1 == run_measure::<N, L, M>(children@.take(r.0 as int)),
        r.1 + M::spec_measure(children@[r.0 as int].spec_summary()) == run_measure::<N, L, M>(
            children@.take(r.0 + 1),
        ),
        strict ==> r.1 <= pos < r.1 + M::spec_measure(children@[r.0 as int].spec_summary()),
        !strict ==> pos <= r.1 + M::spec_measure(children@[r.0 as int].spec_summary()),
        !strict ==> r.1 < pos || (pos == 0 && r.0 == 0),
{
    let mut k: usize = 0;
    let mut offset: usize = 0;
    proof {
        assert(children@.take(0) =~= Seq::<Arc<Node<N, L>>>::empty());
        L::lemma_empty();
        M::lemma_measure_concat(Seq::empty(), Seq::empty());
        assert(Seq::<L::Unit>::empty() + Seq::<L::Unit>::empty() =~= Seq::<L::Unit>::empty());
    }
    loop
        invariant
            all_wf(children@),
            leaves_fit(seq_leaves(children@)),
            strict ==> pos < run_measure::<N, L, M>(children@),
            !strict ==> pos <= run_measure::<N, L, M>(children@),
            k < children.len(),
            offset == run_measure::<N, L, M>(children@.take(k as int)),
            strict ==> offset <= pos,
            !strict ==> offset < pos || (pos == 0 && k == 0),
        decreases children.len() - k,
    {
        proof {
            lemma_run_measure_step::<N, L, M>(children@, k as int);
            assert(children@.take(children.len() as int) =~= children@);
        }
        let this = children[k].measure::<M>();
        let found = if strict {
            offset + this > pos
        } else {
            offset + this >= pos
        };
        if found {
            return (k, offset);
        }
        offset = offset + this;
        k = k + 1;
    }
}

/// The index of the child in which a base offset falls: the first child
/// up to whose end the children hold `pos` units or more, and the last child
/// if there is none.
pub(crate) open spec fn child_index<const N: usize, L: Leaf>(
    cs: Seq<Arc<Node<N, L>>>,
    pos: int,
) -> int
    decreases cs.len(),
{
    if cs.len() <= 1 {
        0
    } else if run_content(cs.drop_last()).len() >= pos {
        child_index(cs.drop_last(), pos)
    } else {
        cs.len() - 1
    }
}

/// The child up to whose end a run holds `pos` units or more, while the
/// children before it hold fewer, is the child in which `pos` falls.
pub(crate) proof fn lemma_child_index<const N: usize, L: Leaf>(
    cs: Seq<Arc<Node<N, L>>>,
    pos: int,
    k: int,
)
    requires
        0 <= k < cs.len(),
        pos <= run_content(cs.take(k + 1)).len(),
        k == 0 || run_content(cs.take(k)).len() < pos,
    ensures
        child_index(cs, pos) == k,
    decreases cs.len(),
{
    if cs.len() > 1 {
        let init = cs.drop_last();
        assert(init =~= cs.take(cs.len() - 1));
        if k < cs.len() - 1 {
            lemma_run_take_split(cs, k + 1, cs.len() - 1);
            assert(init.take(k + 1) =~= cs.take(k + 1));
            assert(init.take(k) =~= cs.take(k));
            lemma_child_index(init, pos, k);
        }
    }
}

/// The index of the child that holds the unit at a base offset: the
/// first child before whose end the offset lies, and the last child if there
/// is none.
pub(crate) open spec fn child_past<const N: usize, L: Leaf>(
    cs: Seq<Arc<Node<N, L>>>,
    pos: int,
) -> int
    decreases cs.len(),
{
    if cs.len() <= 1 {
        0
    } else if run_content(cs.drop_last()).len() > pos {
        child_past(cs.drop_last(), pos)
    } else {
        cs.len() - 1
    }
}

/// The child before whose end an offset lies, while it does not lie
/// before the child, is the child that holds the unit at the offset.
pub(crate) proof fn lemma_child_past<const N: usize, L: Leaf>(
    cs: Seq<Arc<Node<N, L>>>,
    pos: int,
    k: int,
)
    requires
        0 <= k < cs.len(),
        run_content(cs.take(k)).len() <= pos < run_content(cs.take(k + 1)).len(),
    ensures
        child_past(cs, pos) == k,
    decreases cs.len(),
{
    if cs.len() > 1 {
        let init = cs.drop_last();
        assert(init =~= cs.take(cs.len() - 1));
        if k < cs.len() - 1 {
            lemma_run_take_split(cs, k + 1, cs.len() - 1);
            assert(init.take(k + 1) =~= cs.take(k + 1));
            assert(init.take(k) =~= cs.take(k));
            lemma_child_past(init, pos, k);
        }
    }
}

/// Finds the children of a run in which a range of base offsets starts and
/// ends, with the base offsets at which the two children begin. With `strict`
/// the range starts in the child that holds its first unit, without it in the
/// first child that ends at the start of the range or after it. The range
/// ends in the first child that ends at its end or after it.
pub(crate) fn find_ends<const N: usize, L: Leaf>(
    children: &Vec<Arc<Node<N, L>>>,
    start: usize,
    end: usize,
    strict: bool,
) -> (r: (usize, usize, usize, usize))
    requires
        all_wf(children@),
        leaves_fit(seq_leaves(children@)),
        1 <= children.len(),
        start <= end <= run_content(children@).len(),
        strict ==> start < end,
    ensures
        r.0 <= r.2 < children.len(),
        r.1 == run_content(children@.take(r.0 as int)).len(),
        r.3 == run_content(children@.take(r.2 as int)).len(),
        run_content(children@.take(r.0 + 1)).len() == r.1 + children@[r.0 as int].content().len(),
        run_content(children@.take(r.2 + 1)).len() == r.3 + children@[r.2 as int].content().len(),
        strict ==> r.1 <= start < r.1 + children@[r.0 as int].content().len() && r.0
            == child_past(children@, start as int),
        !strict ==> start <= r.1 + children@[r.0 as int].content().len() && (r.1 < start || (start
            == 0 && r.0 == 0)) && r.0 == child_index(children@, start as int),
        end <= r.3 + children@[r.2 as int].content().len(),
        r.3 < end || (end == 0 && r.2 == 0),
        r.2 == child_index(children@, end as int),
        L::fits(run_content(children@.take(r.0 as int))),
        L::fits(run_content(children@.take(r.0 + 1))),
        L::fits(run_content(children@.take(r.2 as int))),
        L::fits(run_content(children@.take(r.2 + 1))),
{
    proof {
        L::lemma_base(run_content(children@));
    }
    let (first, first_offset) = find_child::<N, L, BaseMetric>(children, start, strict);
    let (last, last_offset) = find_child::<N, L, BaseMetric>(children, end, false);
    proof {
        lemma_run_measure_step::<N, L, BaseMetric>(children@, first as int);
        lemma_run_measure_step::<N, L, BaseMetric>(children@, last as int);
        L::lemma_base(run_content(children@.take(first as int)));
        L::lemma_base(run_content(children@.take(first + 1)));
        L::lemma_base(run_content(children@.take(last as int)));
        L::lemma_base(run_content(children@.take(last + 1)));
        if last < first {
            lemma_run_measure_mono::<N, L, BaseMetric>(children@, last + 1, first as int);
        }
        if strict {
            lemma_child_past(children@, start as int, first as int);
        } else {
            lemma_child_index(children@, start as int, first as int);
        }
        lemma_child_index(children@, end as int, last as int);
    }
    (first, first_offset, last, last_offset)
}

/// The depth of the run that a cut at the start of a range gives: that of
/// the children of the node where the cut is at the start of a child or
/// leaves a child after it, and else that of the cut of the last child.
pub(crate) open spec fn first_cut_depth<const N: usize, L: Leaf>(
    node: &Node<N, L>,
    from: int,
) -> nat
    decreases node,
{
    match node {
        Node::Leaf(_) => 0,
        Node::Internal(i) => {
            let k = child_past(i.children@, from);
            if 0 <= k < i.children@.len() {
                if from == run_content(i.children@.take(k)).len() || k + 1 < i.children@.len() {
                    (i.depth - 1) as nat
                } else {
                    first_cut_depth(&*i.children@[k], from - run_content(i.children@.take(k)).len())
                }
            } else {
                0
            }
        },
    }
}

/// The depth of the run that a cut at the end of a range gives: that of
/// the children of the node where the cut is at the end of a child or leaves
/// a child before it, and else that of the cut of the first child.
pub(crate) open spec fn last_cut_depth<const N: usize, L: Leaf>(
    node: &Node<N, L>,
    up_to: int,
) -> nat
    decreases node,
{
    match node {
        Node::Leaf(_) => 0,
        Node::Internal(i) => {
            let k = child_index(i.children@, up_to);
            if 0 <= k < i.children@.len() {
                if up_to == run_content(i.children@.take(k + 1)).len() || k >= 1 {
                    (i.depth - 1) as nat
                } else {
                    last_cut_depth(&*i.children@[k], up_to)
                }
            } else {
                0
            }
        },
    }
}

/// The run that holds what a subtree holds from the base offset `from` on.
/// A cut at the start of a child gives that child and those after it. Any
/// other cut cuts the child it falls in and joins what is left of it with
/// the children after it, which stay as they are but for the first of them.
#[verifier::rlimit(60)]
pub(crate) fn cut_first_rec<const N: usize, L: Leaf>(node: &Arc<Node<N, L>>, from: usize) -> (r: (
    Vec<Arc<Node<N, L>>>,
    usize,
))
    requires
        2 <= N,
        node.sound(),
        0 < from < node.content().len(),
    ensures
        run_ok(r.0@, r.1 as nat),
        run_content(r.0@) == node.content().skip(from as int),
        1 <= r.0.len(),
        seq_leaves(r.0@).len() <= node.spec_leaves().len(),
        r.1 <= node.spec_depth(),
        r.1 == first_cut_depth(node, from as int),
        (**node) is Leaf ==> r.0.len() == 1,
        (**node) is Internal ==> {
            let cs = node.spec_children();
            let k = child_past(cs, from as int);
            &&& 0 <= k < cs.len()
            &&& from == run_content(cs.take(k)).len() ==> r.0@ == cs.skip(k)
            &&& from != run_content(cs.take(k)).len() && k + 1 < cs.len() ==> r.0.len()
                >= cs.len() - k - 2 && r.0@.skip(r.0.len() - (cs.len() - k - 2)) == cs.skip(k + 2)
        },
    decreases node.spec_depth(),
{
    proof {
        lemma_node_facts(&**node, 1);
        L::lemma_base(node.content());
    }
    match &**node {
        Node::Leaf(l) => {
            proof {
                lemma_flat_one(l.value);
            }
            let (_, right, right_summary) = <BaseMetric as SlicingMetric<L>>::split_right(
                l.value.as_slice(),
                from,
                &l.summary,
            );
            let fragment = L::from_slice(right);
            let leaf = Node::leaf_with_summary(fragment, right_summary);
            let mut run: Vec<Arc<Node<N, L>>> = Vec::new();
            run.push(leaf);
            proof {
                assert(run@ =~= seq![leaf]);
                lemma_seq_leaves_one(leaf);
                lemma_flat_one(fragment);
                assert(l.value.content().skip(from as int) =~= l.value.content().subrange(
                    from as int,
                    l.value.content().len() as int,
                ));
            }
            (run, 0)
        },
        Node::Internal(i) => {
            let children = &i.children;
            let (k, offset) = find_child::<N, L, BaseMetric>(children, from, true);
            let len = children.len();
            proof {
                lemma_run_content_at(children@, k as int);
                lemma_run_measure_step::<N, L, BaseMetric>(children@, k as int);
                L::lemma_base(run_content(children@.take(k as int)));
                L::lemma_base(run_content(children@.take(k + 1)));
                lemma_child_past(children@, from as int, k as int);
                lemma_seq_leaves_sub(children@, k + 1, len as int);
                assert(children@.subrange(k + 1, len as int) =~= children@.skip(k + 1));
                assert(children@[k as int].wf());
            }
            let rest = extend_run(Vec::new(), children, k + 1, len);
            let ghost before = run_content(children@.take(k as int));
            let ghost inside = children@[k as int].content();
            let ghost after = run_content(children@.skip(k + 1));
            proof {
                assert(rest@ =~= children@.skip(k + 1));
                assert forall|j: int| 0 <= j < rest@.len() implies (#[trigger] rest@[j]).wf()
                    && rest@[j].spec_depth() == i.depth - 1 by {
                    assert(rest@[j] == children@[k + 1 + j]);
                }
            }
            if from == offset {
                let mut head: Vec<Arc<Node<N, L>>> = Vec::new();
                head.push(arc_clone(&children[k]));
                let run = extend_run(head, &rest, 0, rest.len());
                proof {
                    assert(run@ =~= seq![children@[k as int]] + rest@);
                    lemma_seq_leaves_concat(seq![children@[k as int]], rest@);
                    lemma_seq_leaves_one(children@[k as int]);
                    lemma_flat_concat(children@[k as int].spec_leaves(), seq_leaves(rest@));
                    assert(node.content().skip(from as int) =~= inside + after);
                    assert forall|j: int| 0 <= j < run@.len() implies (#[trigger] run@[j]).wf()
                        && run@[j].spec_depth() == i.depth - 1 by {
                        if j > 0 {
                            assert(run@[j] == rest@[j - 1]);
                        }
                    }
                    assert(run@ =~= children@.skip(k as int));
                }
                (run, i.depth - 1)
            } else {
                let (sub, sub_depth) = cut_first_rec(&children[k], from - offset);
                proof {
                    lemma_flat_concat(seq_leaves(sub@), seq_leaves(rest@));
                    assert(node.content().skip(from as int) =~= inside.skip(from - offset) + after);
                    assert(node.content() =~= before + (inside + after));
                    L::lemma_concat(before, inside + after);
                    assert(inside + after =~= inside.take(from - offset) + (inside.skip(
                        from - offset,
                    ) + after));
                    L::lemma_concat(inside.take(from - offset), inside.skip(from - offset) + after);
                }
                let r = join_after_cut(sub, sub_depth, rest, i.depth - 1);
                proof {
                    if k + 1 < len {
                        assert(children@.skip(k + 1).skip(1) =~= children@.skip(k + 2));
                    }
                }
                r
            }
        },
    }
}

/// The run that holds what a subtree holds up to the base offset `up_to`.
/// A cut at the end of a child gives that child and those before it. Any
/// other cut cuts the child it falls in and joins the children before it,
/// which stay as they are but for the last of them, with what is left of
/// the child.
#[verifier::rlimit(60)]
pub(crate) fn cut_last_rec<const N: usize, L: Leaf>(node: &Arc<Node<N, L>>, up_to: usize) -> (r: (
    Vec<Arc<Node<N, L>>>,
    usize,
))
    requires
        2 <= N,
        node.sound(),
        0 < up_to < node.content().len(),
    ensures
        run_ok(r.0@, r.1 as nat),
        run_content(r.0@) == node.content().take(up_to as int),
        1 <= r.0.len(),
        seq_leaves(r.0@).len() <= node.spec_leaves().len(),
        r.1 <= node.spec_depth(),
        r.1 == last_cut_depth(node, up_to as int),
        (**node) is Leaf ==> r.0.len() == 1,
        (**node) is Internal ==> {
            let cs = node.spec_children();
            let k = child_index(cs, up_to as int);
            &&& 0 <= k < cs.len()
            &&& up_to == run_content(cs.take(k + 1)).len() ==> r.0@ == cs.take(k + 1)
            &&& up_to != run_content(cs.take(k + 1)).len() && k >= 1 ==> r.0.len() >= k - 1
                && r.0@.take(k - 1) == cs.take(k - 1)
        },
    decreases node.spec_depth(),
{
    proof {
        lemma_node_facts(&**node, 1);
        L::lemma_base(node.content());
    }
    match &**node {
        Node::Leaf(l) => {
            proof {
                lemma_flat_one(l.value);
            }
            let (left, left_summary, _) = <BaseMetric as SlicingMetric<L>>::split_left(
                l.value.as_slice(),
                up_to,
                &l.summary,
            );
            let fragment = L::from_slice(left);
            let leaf = Node::leaf_with_summary(fragment, left_summary);
            let mut run: Vec<Arc<Node<N, L>>> = Vec::new();
            run.push(leaf);
            proof {
                assert(run@ =~= seq![leaf]);
                lemma_seq_leaves_one(leaf);
                lemma_flat_one(fragment);
                assert(l.value.content().take(up_to as int) =~= l.value.content().subrange(
                    0,
                    up_to as int,
                ));
            }
            (run, 0)
        },
        Node::Internal(i) => {
            let children = &i.children;
            let (k, offset) = find_child::<N, L, BaseMetric>(children, up_to, false);
            proof {
                lemma_run_content_at(children@, k as int);
                lemma_run_measure_step::<N, L, BaseMetric>(children@, k as int);
                L::lemma_base(run_content(children@.take(k as int)));
                L::lemma_base(run_content(children@.take(k + 1)));
                lemma_child_index(children@, up_to as int, k as int);
                assert(children@[k as int].wf());
                lemma_node_facts(&*children@[k as int], min_children(N));
                L::lemma_base(children@[k as int].content());
                lemma_seq_leaves_sub(children@, 0, k as int);
                lemma_seq_leaves_sub(children@, 0, k + 1);
                assert(children@.subrange(0, k as int) =~= children@.take(k as int));
                assert(children@.subrange(0, k + 1) =~= children@.take(k + 1));
                assert(children@[k as int].wf());
            }
            let ghost before = run_content(children@.take(k as int));
            let ghost inside = children@[k as int].content();
            let ghost after = run_content(children@.skip(k + 1));
            if up_to == offset + children[k].base_measure() {
                let run = extend_run(Vec::new(), children, 0, k + 1);
                proof {
                    assert(run@ =~= children@.take(k + 1));
                    assert(node.content().take(up_to as int) =~= before + inside);
                    assert forall|j: int| 0 <= j < run@.len() implies (#[trigger] run@[j]).wf()
                        && run@[j].spec_depth() == i.depth - 1 by {
                        assert(run@[j] == children@[j]);
                    }
                }
                (run, i.depth - 1)
            } else {
                let head = extend_run(Vec::new(), children, 0, k);
                let (sub, sub_depth) = cut_last_rec(&children[k], up_to - offset);
                proof {
                    assert(head@ =~= children@.take(k as int));
                    assert forall|j: int| 0 <= j < head@.len() implies (#[trigger] head@[j]).wf()
                        && head@[j].spec_depth() == i.depth - 1 by {
                        assert(head@[j] == children@[j]);
                    }
                    lemma_flat_concat(seq_leaves(head@), seq_leaves(sub@));
                    assert(node.content().take(up_to as int) =~= before + inside.take(
                        up_to - offset,
                    ));
                    assert(node.content().take(up_to as int) =~= node.content().subrange(
                        0,
                        up_to as int,
                    ));
                    lemma_fits_sub::<L>(node.content(), 0, up_to as int);
                }
                let r = join_before_cut(head, i.depth - 1, sub, sub_depth);
                proof {
                    if k >= 1 {
                        assert(children@.take(k as int).take(k - 1) =~= children@.take(k - 1));
                    }
                }
                r
            }
        },
    }
}

/// The content and the leaves below a run, seen as what lies before one
/// node, that node, what lies between it and a later node, the later node,
/// and what lies after it.
pub(crate) proof fn lemma_span<const N: usize, L: Leaf>(
    cs: Seq<Arc<Node<N, L>>>,
    first: int,
    last: int,
)
    requires
        0 <= first < last < cs.len(),
    ensures
        run_content(cs) == run_content(cs.take(first)) + cs[first].content() + run_content(
            cs.subrange(first + 1, last),
        ) + cs[last].content() + run_content(cs.skip(last + 1)),
        run_content(cs.take(last)) == run_content(cs.take(first)) + cs[first].content()
            + run_content(cs.subrange(first + 1, last)),
        seq_leaves(cs).len() >= cs[first].spec_leaves().len() + seq_leaves(
            cs.subrange(first + 1, last),
        ).len() + cs[last].spec_leaves().len(),
{
    lemma_run_content_at(cs, last);
    lemma_run_take_split(cs, first + 1, last);
    lemma_run_content_at(cs, first);
    lemma_run_take_split(cs, first, first + 1);
    assert(cs.subrange(first, first + 1) =~= seq![cs[first]]);
    lemma_seq_leaves_one(cs[first]);
    lemma_run_take_split(cs, 0, first);
}

/// One node of a run has no more leaves than the run.
pub(crate) proof fn lemma_span_one<const N: usize, L: Leaf>(cs: Seq<Arc<Node<N, L>>>, k: int)
    requires
        0 <= k < cs.len(),
    ensures
        cs[k].spec_leaves().len() <= seq_leaves(cs).len(),
{
    lemma_run_content_at(cs, k);
}

/// The leaves below a run, seen as those before one node, those of that
/// node, those between it and a later node, those of the later node, and
/// those after it.
pub(crate) proof fn lemma_span_leaves<const N: usize, L: Leaf>(
    cs: Seq<Arc<Node<N, L>>>,
    first: int,
    last: int,
)
    requires
        0 <= first < last < cs.len(),
    ensures
        seq_leaves(cs) == seq_leaves(cs.take(first)) + cs[first].spec_leaves() + seq_leaves(
            cs.subrange(first + 1, last),
        ) + cs[last].spec_leaves() + seq_leaves(cs.skip(last + 1)),
{
    lemma_run_content_at(cs, last);
    lemma_run_take_split(cs, first + 1, last);
    lemma_run_content_at(cs.take(first + 1), first);
    assert(cs.take(first + 1).take(first) =~= cs.take(first));
    assert(cs.take(first + 1).skip(first + 1) =~= Seq::<Arc<Node<N, L>>>::empty());
    assert(seq_leaves(cs.take(first + 1)) =~= seq_leaves(cs.take(first))
        + cs[first].spec_leaves());
    assert(seq_leaves(cs) =~= seq_leaves(cs.take(first)) + cs[first].spec_leaves() + seq_leaves(
        cs.subrange(first + 1, last),
    ) + cs[last].spec_leaves() + seq_leaves(cs.skip(last + 1)));
}

/// The depth of the run that a cut of a range gives which starts in one
/// node of a run of siblings and ends in a later one: that of the siblings
/// where one of them lies between the two or one of the two is taken whole,
/// and else the greater of the depths that the cuts of the two give.
pub(crate) open spec fn across_depth<const N: usize, L: Leaf>(
    cs: Seq<Arc<Node<N, L>>>,
    depth: usize,
    first: int,
    last: int,
    start: int,
    end: int,
) -> nat {
    let left = if start == run_content(cs.take(first)).len() {
        depth as nat
    } else {
        first_cut_depth(&*cs[first], start - run_content(cs.take(first)).len())
    };
    let right = if end == run_content(cs.take(last + 1)).len() {
        depth as nat
    } else {
        last_cut_depth(&*cs[last], end - run_content(cs.take(last)).len())
    };
    if last > first + 1 {
        depth as nat
    } else if left <= right {
        right
    } else {
        left
    }
}

/// The depth of the run that a cut of a range out of a subtree gives.
pub(crate) open spec fn slice_cut_depth<const N: usize, L: Leaf>(
    node: &Node<N, L>,
    start: int,
    end: int,
) -> nat
    decreases node,
{
    match node {
        Node::Leaf(_) => 0,
        Node::Internal(i) => {
            let cs = i.children@;
            let first = child_past(cs, start);
            let last = child_index(cs, end);
            if 0 <= first < cs.len() && 0 <= last < cs.len() {
                if first != last {
                    across_depth(cs, (i.depth - 1) as usize, first, last, start, end)
                } else if start == run_content(cs.take(first)).len() && end == run_content(
                    cs.take(first + 1),
                ).len() {
                    (i.depth - 1) as nat
                } else {
                    slice_cut_depth(
                        &*cs[first],
                        start - run_content(cs.take(first)).len(),
                        end - run_content(cs.take(first)).len(),
                    )
                }
            } else {
                0
            }
        },
    }
}

/// The run that holds what a run of siblings holds between two base
/// offsets that fall in two different nodes of it. The siblings between
/// the two, but for the first and the last of them, stand in the result
/// as they are.
pub(crate) fn cut_across<const N: usize, L: Leaf>(
    children: &Vec<Arc<Node<N, L>>>,
    depth: usize,
    first: usize,
    first_offset: usize,
    last: usize,
    last_offset: usize,
    start: usize,
    end: usize,
) -> (r: (Vec<Arc<Node<N, L>>>, usize))
    requires
        2 <= N,
        run_ok(children@, depth as nat),
        leaves_fit(seq_leaves(children@)),
        first < last < children.len(),
        first_offset == run_content(children@.take(first as int)).len(),
        last_offset == run_content(children@.take(last as int)).len(),
        first_offset <= start < first_offset + children@[first as int].content().len(),
        last_offset < end <= last_offset + children@[last as int].content().len(),
    ensures
        run_ok(r.0@, r.1 as nat),
        run_content(r.0@) == run_content(children@).subrange(start as int, end as int),
        1 <= r.0.len(),
        seq_leaves(r.0@).len() <= seq_leaves(children@).len(),
        r.1 <= depth,
        r.1 == across_depth(children@, depth, first as int, last as int, start as int, end as int),
        first + 3 <= last ==> exists|at: int|
            0 <= at && at + (last - first - 3) <= r.0.len() && #[trigger] r.0@.subrange(
                at,
                at + (last - first - 3),
            ) == children@.subrange(first + 2, last - 1),
{
    let ghost whole = run_content(children@);
    let ghost wanted = whole.subrange(start as int, end as int);
    let ghost c_first = children@[first as int].content();
    let ghost c_last = children@[last as int].content();
    let ghost c_mid = run_content(children@.subrange(first + 1, last as int));
    proof {
        lemma_span(children@, first as int, last as int);
        lemma_run_content_at(children@, last as int);
        assert(wanted =~= c_first.skip(start - first_offset) + c_mid + c_last.take(
            end - last_offset,
        ));
        lemma_fits_sub::<L>(whole, start as int, end as int);
        assert(children@[first as int].wf());
        assert(children@[last as int].wf());
        lemma_node_facts(&*children@[first as int], min_children(N));
        lemma_node_facts(&*children@[last as int], min_children(N));
        L::lemma_base(c_first);
        L::lemma_base(c_last);
    }
    let (left, left_depth) = if start == first_offset {
        let mut run: Vec<Arc<Node<N, L>>> = Vec::new();
        let child = arc_clone(&children[first]);
        run.push(child);
        proof {
            assert(run@ =~= seq![child]);
            lemma_seq_leaves_one(child);
            assert(c_first.skip(0) =~= c_first);
        }
        (run, depth)
    } else {
        cut_first_rec(&children[first], start - first_offset)
    };
    let mid = extend_run(Vec::new(), children, first + 1, last);
    let (right, right_depth) = if end - last_offset == children[last].base_measure() {
        let mut run: Vec<Arc<Node<N, L>>> = Vec::new();
        let child = arc_clone(&children[last]);
        run.push(child);
        proof {
            assert(run@ =~= seq![child]);
            lemma_seq_leaves_one(child);
            assert(c_last.take(c_last.len() as int) =~= c_last);
        }
        (run, depth)
    } else {
        cut_last_rec(&children[last], end - last_offset)
    };
    proof {
        assert(mid@ =~= children@.subrange(first + 1, last as int));
        assert forall|j: int| 0 <= j < mid@.len() implies (#[trigger] mid@[j]).wf()
            && mid@[j].spec_depth() == depth by {
            assert(mid@[j] == children@[first + 1 + j]);
        }
        lemma_flat_concat(seq_leaves(left@), seq_leaves(mid@));
        lemma_flat_concat(seq_leaves(left@) + seq_leaves(mid@), seq_leaves(right@));
        L::lemma_concat(run_content(left@) + c_mid, run_content(right@));
    }
    let (joined, joined_depth) = join_after_cut(left, left_depth, mid, depth);
    proof {
        lemma_flat_concat(seq_leaves(joined@), seq_leaves(right@));
    }
    let r = join_before_cut(joined, joined_depth, right, right_depth);
    proof {
        if first + 3 <= last {
            let at = joined.len() - (mid.len() - 1);
            let kept = last - first - 3;
            assert(joined@.subrange(at, at + kept) =~= joined@.skip(at).take(kept));
            assert(r.0@.subrange(at, at + kept) =~= r.0@.take(joined.len() - 1).subrange(
                at,
                at + kept,
            ));
            assert(joined@.subrange(at, at + kept) =~= joined@.take(joined.len() - 1).subrange(
                at,
                at + kept,
            ));
            assert(mid@.skip(1).take(kept) =~= children@.subrange(first + 2, last - 1));
        }
    }
    r
}

/// The run that holds what a subtree holds between two base offsets. A
/// child that the range covers exactly is the whole run, and where the range
/// reaches over several children, those between its ends, but for the first
/// and the last of them, stand in the run as they are.
#[verifier::rlimit(60)]
pub(crate) fn cut_tree_slice<const N: usize, L: Leaf>(
    node: &Arc<Node<N, L>>,
    start: usize,
    end: usize,
) -> (r: (Vec<Arc<Node<N, L>>>, usize))
    requires
        2 <= N,
        node.sound(),
        0 <= start < end <= node.content().len(),
    ensures
        run_ok(r.0@, r.1 as nat),
        run_content(r.0@) == node.content().subrange(start as int, end as int),
        1 <= r.0.len(),
        seq_leaves(r.0@).len() <= node.spec_leaves().len(),
        r.1 <= node.spec_depth(),
        r.1 == slice_cut_depth(node, start as int, end as int),
        **node matches Node::Internal(i) ==> ({
            let cs = i.children@;
            let first = child_past(cs, start as int);
            let last = child_index(cs, end as int);
            &&& first == last && start == run_content(cs.take(first)).len() && end
                == run_content(cs.take(first + 1)).len() ==> r.0@ == seq![cs[first]]
            &&& first + 3 <= last ==> exists|at: int|
                0 <= at && at + (last - first - 3) <= r.0.len() && #[trigger] r.0@.subrange(
                    at,
                    at + (last - first - 3),
                ) == cs.subrange(first + 2, last - 1)
        }),
    decreases node.spec_depth(),
{
    proof {
        lemma_node_facts(&**node, 1);
        L::lemma_base(node.content());
    }
    match &**node {
        Node::Leaf(l) => {
            proof {
                lemma_flat_one(l.value);
            }
            let (part, part_summary) = <BaseMetric as SlicingMetric<L>>::slice(
                l.value.as_slice(),
                start,
                end,
                &l.summary,
            );
            let fragment = L::from_slice(part);
            let leaf = Node::leaf_with_summary(fragment, part_summary);
            let mut run: Vec<Arc<Node<N, L>>> = Vec::new();
            run.push(leaf);
            proof {
                assert(run@ =~= seq![leaf]);
                lemma_seq_leaves_one(leaf);
                lemma_flat_one(fragment);
            }
            (run, 0)
        },
        Node::Internal(i) => {
            let children = &i.children;
            let (first, first_offset, last, last_offset) = find_ends(children, start, end, true);
            proof {
                assert(children@[first as int].wf());
                lemma_node_facts(&*children@[first as int], min_children(N));
                L::lemma_base(children@[first as int].content());
            }
            if first == last {
                let ghost child = children@[first as int];
                proof {
                    lemma_run_content_at(children@, first as int);
                }
                if start == first_offset && end == first_offset + children[first].base_measure() {
                    let mut run: Vec<Arc<Node<N, L>>> = Vec::new();
                    run.push(arc_clone(&children[first]));
                    proof {
                        assert(run@ =~= seq![child]);
                        lemma_seq_leaves_one(child);
                        assert(node.content().subrange(start as int, end as int)
                            =~= child.content());
                    }
                    (run, i.depth - 1)
                } else {
                    let r = cut_tree_slice(
                        &children[first],
                        start - first_offset,
                        end - first_offset,
                    );
                    proof {
                        assert(node.content().subrange(start as int, end as int)
                            =~= child.content().subrange(
                            start - first_offset,
                            end - first_offset,
                        ));
                    }
                    r
                }
            } else {
                cut_across(
                    children,
                    i.depth - 1,
                    first,
                    first_offset,
                    last,
                    last_offset,
                    start,
                    end,
                )
            }
        },
    }
}

} // verus!
