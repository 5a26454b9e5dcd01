//! Runs: sequences of sibling nodes of one depth, grouped under parents
//! until a single root is left.
use super::node::{
    arc_clone, leaf_contents, leaves_fit, lemma_depth_bound, lemma_flat_concat, lemma_flat_one,
    lemma_leaves_fit_parts, lemma_run_content_concat, lemma_seq_leaves_concat,
    lemma_seq_leaves_one, lemma_seq_leaves_push, lemma_seq_leaves_split, min_children,
    pair_contents, run_content, run_ok, seq_leaves, Inode, Node,
};
use super::traits::Leaf;
use std::sync::Arc;
use vstd::prelude::*;

verus! {

/// The leaves of a run are those of any three consecutive parts of it, and
/// each part of a run that fits does fit.
pub(crate) proof fn lemma_seq_leaves_sub<const N: usize, L: Leaf>(
    cs: Seq<Arc<Node<N, L>>>,
    i: int,
    j: int,
)
    requires
        0 <= i <= j <= cs.len(),
    ensures
        seq_leaves(cs) == seq_leaves(cs.subrange(0, i)) + seq_leaves(cs.subrange(i, j))
            + seq_leaves(cs.subrange(j, cs.len() as int)),
        leaves_fit(seq_leaves(cs)) ==> leaves_fit(seq_leaves(cs.subrange(i, j))),
{
    let a = cs.subrange(0, i);
    let b = cs.subrange(i, j);
    let c = cs.subrange(j, cs.len() as int);
    assert(cs =~= (a + b) + c);
    lemma_seq_leaves_concat(a + b, c);
    lemma_seq_leaves_concat(a, b);
    if leaves_fit(seq_leaves(cs)) {
        lemma_leaves_fit_parts(seq_leaves(a + b), seq_leaves(c));
        lemma_leaves_fit_parts(seq_leaves(a), seq_leaves(b));
    }
}

/// A run of two or more nodes that fits is shallower than the greatest
/// representable depth.
pub(crate) proof fn lemma_run_depth_bound<const N: usize, L: Leaf>(
    cs: Seq<Arc<Node<N, L>>>,
    depth: nat,
)
    requires
        3 <= N,
        run_ok(cs, depth),
        2 <= cs.len(),
        leaves_fit(seq_leaves(cs)),
    ensures
        depth + 2 <= seq_leaves(cs).len(),
        depth < usize::MAX,
{
    let first = cs[0];
    let second = cs[1];
    assert(first.wf() && second.wf());
    lemma_depth_bound(&*first, min_children(N));
    lemma_depth_bound(&*second, min_children(N));
    lemma_seq_leaves_split(cs, 2);
    let head = cs.take(2);
    assert(head.drop_last() =~= seq![first]);
    lemma_seq_leaves_one(first);
    assert(seq_leaves(head) =~= first.spec_leaves() + second.spec_leaves());
}

/// One parent over the nodes of `nodes` from `from` up to `to`.
pub(crate) fn group<const N: usize, L: Leaf>(
    nodes: &Vec<Arc<Node<N, L>>>,
    from: usize,
    to: usize,
    depth: usize,
) -> (r: Arc<Node<N, L>>)
    requires
        2 <= N,
        from <= to <= nodes.len(),
        min_children(N) <= to - from <= N,
        run_ok(nodes@, depth as nat),
        leaves_fit(seq_leaves(nodes@)),
        depth < usize::MAX,
    ensures
        r.wf(),
        r.spec_depth() == depth + 1,
        r.spec_leaves() == seq_leaves(nodes@.subrange(from as int, to as int)),
        r.spec_children() == nodes@.subrange(from as int, to as int),
{
    let mut children: Vec<Arc<Node<N, L>>> = Vec::new();
    let mut k: usize = from;
    while k < to
        invariant
            from <= k <= to <= nodes.len(),
            children@ == nodes@.subrange(from as int, k as int),
        decreases to - k,
    {
        children.push(arc_clone(&nodes[k]));
        proof {
            assert(nodes@.subrange(from as int, k + 1) =~= nodes@.subrange(
                from as int,
                k as int,
            ).push(nodes@[k as int]));
        }
        k = k + 1;
    }
    proof {
        lemma_seq_leaves_sub(nodes@, from as int, to as int);
        assert forall|i: int| 0 <= i < children@.len() implies (#[trigger] children@[i]).wf()
            && children@[i].spec_depth() == depth by {
            assert(children@[i] == nodes@[from + i]);
        }
    }
    Arc::new(Node::Internal(Inode::from_children(children, depth)))
}

/// A power of a number.
pub open spec fn power(base: nat, exp: nat) -> nat
    decreases exp,
{
    if exp == 0 {
        1
    } else {
        base * power(base, (exp - 1) as nat)
    }
}

/// Groups a run under as few parents as the fanout allows. Every parent
/// but the last two is full; the last two share what is left so that both
/// have enough children.
pub(crate) fn pack<const N: usize, L: Leaf>(nodes: Vec<Arc<Node<N, L>>>, depth: usize) -> (r: Vec<
    Arc<Node<N, L>>,
>)
    requires
        2 <= N,
        min_children(N) <= nodes.len(),
        run_ok(nodes@, depth as nat),
        leaves_fit(seq_leaves(nodes@)),
        depth < usize::MAX,
    ensures
        run_ok(r@, (depth + 1) as nat),
        seq_leaves(r@) == seq_leaves(nodes@),
        1 <= r.len() <= nodes.len(),
        2 <= nodes.len() ==> r.len() < nodes.len(),
        nodes.len() <= N ==> r.len() == 1,
        (r.len() - 1) * N < nodes.len() <= r.len() * N,
        forall|k: int| 0 <= k < r.len() - 2 ==> (#[trigger] r@[k]).spec_children().len() == N,
{
    let min: usize = N / 2 + N % 2;
    let len = nodes.len();
    let mut parents: Vec<Arc<Node<N, L>>> = Vec::new();
    let mut pos: usize = 0;
    let ghost mut cap: int = 0;
    let ghost mut short: int = 0;
    proof {
        assert(nodes@.take(0) =~= Seq::<Arc<Node<N, L>>>::empty());
        assert(0 * N == 0) by (nonlinear_arith);
    }
    while pos < len
        invariant
            2 <= N,
            min == min_children(N),
            len == nodes.len(),
            0 <= pos <= len,
            pos == len || min <= len - pos,
            run_ok(nodes@, depth as nat),
            leaves_fit(seq_leaves(nodes@)),
            depth < usize::MAX,
            run_ok(parents@, (depth + 1) as nat),
            seq_leaves(parents@) == seq_leaves(nodes@.take(pos as int)),
            pos == 0 <==> parents.len() == 0,
            parents.len() <= pos,
            2 <= len && pos > 0 ==> parents.len() < pos,
            len <= N ==> (pos == 0 || (pos == len && parents.len() == 1)),
            cap == parents.len() * N,
            pos <= cap,
            pos > 0 ==> cap - N < len,
            0 <= short <= 2,
            short <= parents.len(),
            short == 0 ==> pos == cap,
            short > 0 && pos < len ==> short == 1 && cap < len && len - pos <= N,
            forall|k: int|
                0 <= k < parents.len() - short ==> (#[trigger] parents@[k]).spec_children().len()
                    == N,
        decreases len - pos,
    {
        let left = len - pos;
        let take: usize = if left <= N {
            left
        } else if left - N >= min {
            N
        } else {
            left - min
        };
        let parent = group(&nodes, pos, pos + take, depth);
        proof {
            let done = nodes@.take(pos as int);
            let part = nodes@.subrange(pos as int, pos + take);
            assert(nodes@.take(pos + take) =~= done + part);
            lemma_seq_leaves_concat(done, part);
            lemma_seq_leaves_push(parents@, parent);
            assert((parents.len() + 1) * N == parents.len() * N + N) by (nonlinear_arith);
            let before = parents@;
            assert forall|k: int|
                0 <= k < before.len() - short implies (#[trigger] before.push(
                parent,
            )[k]).spec_children().len() == N by {
                assert(before.push(parent)[k] == before[k]);
            }
            if short == 0 && take == N {
                assert(before.push(parent)[before.len() as int] == parent);
            } else {
                short = short + 1;
            }
            cap = cap + N;
        }
        parents.push(parent);
        pos = pos + take;
    }
    proof {
        assert(nodes@.take(len as int) =~= nodes@);
        assert((parents.len() - 1) * N == parents.len() * N - N) by (nonlinear_arith);
    }
    parents
}

/// Goes down from a node to the first node below it that can be a root:
/// as long as the node is an internal node with a single child, that child
/// takes its place.
pub(crate) fn pull_up_root<const N: usize, L: Leaf>(node: Arc<Node<N, L>>) -> (r: Arc<Node<N, L>>)
    requires
        2 <= N,
        node.sound(),
    ensures
        r.wf_root(),
        r.spec_leaves() == node.spec_leaves(),
        r.spec_depth() <= node.spec_depth(),
        node.wf_root() ==> r == node,
    decreases node.spec_depth(),
{
    let only = match &*node {
        Node::Internal(i) => if i.children.len() == 1 {
            proof {
                assert(i.children@ =~= seq![i.children@[0]]);
                lemma_seq_leaves_one(i.children@[0]);
                assert(i.children@[0].wf());
            }
            Some(arc_clone(&i.children[0]))
        } else {
            None
        },
        Node::Leaf(_) => None,
    };
    match only {
        Some(child) => pull_up_root(child),
        None => node,
    }
}

/// The root of a tree over a run. A run of two nodes or more is grouped
/// under parents, level by level, until one level has no more nodes than the
/// fanout allows, and that level gets the root: the tree is as shallow as the
/// fanout allows for the run. A single node is the root itself, or the first
/// node below it that can be one.
pub(crate) fn root_from_nodes<const N: usize, L: Leaf>(
    nodes: Vec<Arc<Node<N, L>>>,
    depth: usize,
) -> (r: Arc<Node<N, L>>)
    requires
        2 <= N,
        1 <= nodes.len(),
        run_ok(nodes@, depth as nat),
        leaves_fit(seq_leaves(nodes@)),
        3 <= N || depth + nodes.len() <= usize::MAX,
    ensures
        r.wf_root(),
        r.spec_leaves() == seq_leaves(nodes@),
        nodes.len() == 1 ==> r.spec_depth() <= depth && (nodes@[0].wf_root() ==> r == nodes@[0]),
        nodes.len() >= 2 ==> {
            &&& r.spec_depth() > depth
            &&& power(N as nat, (r.spec_depth() - depth) as nat) >= nodes.len()
            &&& power(N as nat, (r.spec_depth() - depth - 1) as nat) < nodes.len()
            &&& r.spec_children().len() >= 2
        },
{
    let ghost given = nodes@;
    let ghost first_depth = depth as int;
    let mut nodes = nodes;
    let mut depth = depth;
    let ghost mut levels: nat = 0;
    proof {
        assert(power(N as nat, 0) == 1);
    }
    while nodes.len() > N
        invariant
            2 <= N,
            1 <= nodes.len(),
            run_ok(nodes@, depth as nat),
            leaves_fit(seq_leaves(nodes@)),
            seq_leaves(nodes@) == seq_leaves(given),
            3 <= N || depth + nodes.len() <= usize::MAX,
            depth == first_depth + levels,
            given.len() >= 2 ==> nodes.len() >= 2,
            levels == 0 ==> nodes@ == given,
            levels > 0 ==> given.len() > N,
            nodes.len() * power(N as nat, levels) >= given.len(),
            (nodes.len() - 1) * power(N as nat, levels) < given.len(),
        decreases nodes.len(),
    {
        proof {
            if 3 <= N {
                lemma_run_depth_bound(nodes@, depth as nat);
            }
        }
        let ghost before = nodes.len() as int;
        nodes = pack(nodes, depth);
        depth = depth + 1;
        proof {
            let after = nodes.len() as int;
            let p = power(N as nat, levels) as int;
            let n = N as int;
            let total = given.len() as int;
            assert(power(N as nat, levels + 1) == n * p);
            assert(after * (n * p) >= total) by (nonlinear_arith)
                requires
                    after * n >= before,
                    before * p >= total,
                    p >= 0,
            ;
            assert((after - 1) * (n * p) < total) by (nonlinear_arith)
                requires
                    (after - 1) * n < before,
                    (before - 1) * p < total,
                    p >= 0,
                    after >= 1,
            ;
            assert(after >= 2) by (nonlinear_arith)
                requires
                    before <= after * n,
                    before > n,
                    after >= 1,
            ;
            levels = levels + 1;
        }
    }
    if nodes.len() == 1 {
        let ghost single = nodes@;
        let root = nodes.pop().unwrap();
        proof {
            lemma_seq_leaves_one(root);
            assert(single =~= seq![root]);
            assert(single[0].wf());
        }
        pull_up_root(root)
    } else {
        proof {
            if 3 <= N {
                lemma_run_depth_bound(nodes@, depth as nat);
            }
            let len = nodes.len() as int;
            let p = power(N as nat, levels) as int;
            let n = N as int;
            let total = given.len() as int;
            assert(power(N as nat, levels + 1) == n * p);
            assert(n * p >= total) by (nonlinear_arith)
                requires
                    len * p >= total,
                    len <= n,
                    p >= 0,
            ;
            assert(p < total) by (nonlinear_arith)
                requires
                    (len - 1) * p < total,
                    len >= 2,
                    p >= 0,
            ;
        }
        Arc::new(Node::Internal(Inode::from_children(nodes, depth)))
    }
}

/// `head` followed by the nodes of `tail` from `from` up to `to`.
pub(crate) fn extend_run<const N: usize, L: Leaf>(
    head: Vec<Arc<Node<N, L>>>,
    tail: &Vec<Arc<Node<N, L>>>,
    from: usize,
    to: usize,
) -> (r: Vec<Arc<Node<N, L>>>)
    requires
        from <= to <= tail.len(),
    ensures
        r@ == head@ + tail@.subrange(from as int, to as int),
{
    let mut run = head;
    let mut k: usize = from;
    proof {
        assert(tail@.subrange(from as int, from as int) =~= Seq::<Arc<Node<N, L>>>::empty());
        assert(head@ + Seq::<Arc<Node<N, L>>>::empty() =~= head@);
    }
    while k < to
        invariant
            from <= k <= to <= tail.len(),
            run@ == head@ + tail@.subrange(from as int, k as int),
        decreases to - k,
    {
        run.push(arc_clone(&tail[k]));
        proof {
            assert(head@ + tail@.subrange(from as int, k + 1) =~= (head@ + tail@.subrange(
                from as int,
                k as int,
            )).push(tail@[k as int]));
        }
        k = k + 1;
    }
    run
}

/// The children of an internal node.
pub(crate) fn children_of<const N: usize, L: Leaf>(node: &Arc<Node<N, L>>) -> (r: Vec<
    Arc<Node<N, L>>,
>)
    requires
        node.wf(),
        node.spec_depth() > 0,
    ensures
        run_ok(r@, (node.spec_depth() - 1) as nat),
        seq_leaves(r@) == node.spec_leaves(),
        min_children(N) <= r.len() <= N,
        2 <= N,
{
    match &**node {
        Node::Internal(i) => {
            let r = extend_run(Vec::new(), &i.children, 0, i.children.len());
            proof {
                assert(r@ =~= i.children@);
            }
            r
        },
        Node::Leaf(_) => {
            proof {
                assert(false);
            }
            Vec::new()
        },
    }
}

/// Joins a run with a deeper one that follows it: the shallow run goes
/// down the left edge of the deep run's first node, and what it touches is
/// grouped anew.
pub(crate) fn prepend_run<const N: usize, L: Leaf>(
    left: Vec<Arc<Node<N, L>>>,
    left_depth: usize,
    right: Vec<Arc<Node<N, L>>>,
    right_depth: usize,
) -> (r: Vec<Arc<Node<N, L>>>)
    requires
        2 <= N,
        left_depth < right_depth,
        1 <= right.len(),
        run_ok(left@, left_depth as nat),
        run_ok(right@, right_depth as nat),
        leaves_fit(seq_leaves(left@) + seq_leaves(right@)),
    ensures
        run_ok(r@, right_depth as nat),
        seq_leaves(r@) == seq_leaves(left@) + seq_leaves(right@),
        right.len() <= r.len(),
        r@.skip(r.len() - (right.len() - 1)) == right@.skip(1),
    decreases right_depth - left_depth,
{
    let kids = children_of(&right[0]);
    proof {
        lemma_seq_leaves_split(right@, 1);
        assert(right@.take(1) =~= seq![right@[0]]);
        lemma_seq_leaves_one(right@[0]);
        assert(seq_leaves(left@) + seq_leaves(right@) =~= (seq_leaves(left@) + seq_leaves(kids@))
            + seq_leaves(right@.skip(1)));
        lemma_leaves_fit_parts(
            seq_leaves(left@) + seq_leaves(kids@),
            seq_leaves(right@.skip(1)),
        );
    }
    let ghost inner_leaves = seq_leaves(left@) + seq_leaves(kids@);
    let inner = if left_depth + 1 == right_depth {
        let kids_len = kids.len();
        let inner = extend_run(left, &kids, 0, kids_len);
        proof {
            assert(kids@.subrange(0, kids_len as int) =~= kids@);
            lemma_seq_leaves_concat(left@, kids@);
        }
        inner
    } else {
        prepend_run(left, left_depth, kids, right_depth - 1)
    };
    assert(seq_leaves(inner@) == inner_leaves);
    let packed = pack(inner, right_depth - 1);
    let right_len = right.len();
    let r = extend_run(packed, &right, 1, right_len);
    proof {
        assert(right@.subrange(1, right_len as int) =~= right@.skip(1));
        lemma_seq_leaves_concat(packed@, right@.skip(1));
        assert(r@.skip(r.len() - (right.len() - 1)) =~= right@.skip(1));
    }
    r
}

/// Joins a run with a shallower one that follows it: the shallow run goes
/// down the right edge of the deep run's last node, and what it touches is
/// grouped anew.
pub(crate) fn append_run<const N: usize, L: Leaf>(
    left: Vec<Arc<Node<N, L>>>,
    left_depth: usize,
    right: Vec<Arc<Node<N, L>>>,
    right_depth: usize,
) -> (r: Vec<Arc<Node<N, L>>>)
    requires
        2 <= N,
        left_depth > right_depth,
        1 <= left.len(),
        run_ok(left@, left_depth as nat),
        run_ok(right@, right_depth as nat),
        leaves_fit(seq_leaves(left@) + seq_leaves(right@)),
    ensures
        run_ok(r@, left_depth as nat),
        seq_leaves(r@) == seq_leaves(left@) + seq_leaves(right@),
        left.len() <= r.len(),
        r@.take(left.len() - 1) == left@.take(left.len() - 1),
    decreases left_depth - right_depth,
{
    let last = left.len() - 1;
    let kids = children_of(&left[last]);
    proof {
        lemma_seq_leaves_split(left@, last as int);
        assert(left@.skip(last as int) =~= seq![left@[last as int]]);
        lemma_seq_leaves_one(left@[last as int]);
        assert(seq_leaves(left@) + seq_leaves(right@) =~= seq_leaves(left@.take(last as int)) + (
        seq_leaves(kids@) + seq_leaves(right@)));
        lemma_leaves_fit_parts(
            seq_leaves(left@.take(last as int)),
            seq_leaves(kids@) + seq_leaves(right@),
        );
    }
    let ghost inner_leaves = seq_leaves(kids@) + seq_leaves(right@);
    let inner = if right_depth + 1 == left_depth {
        let right_len = right.len();
        let inner = extend_run(kids, &right, 0, right_len);
        proof {
            assert(right@.subrange(0, right_len as int) =~= right@);
            lemma_seq_leaves_concat(kids@, right@);
        }
        inner
    } else {
        append_run(kids, left_depth - 1, right, right_depth)
    };
    assert(seq_leaves(inner@) == inner_leaves);
    let packed = pack(inner, left_depth - 1);
    let packed_len = packed.len();
    let head = extend_run(Vec::new(), &left, 0, last);
    let r = extend_run(head, &packed, 0, packed_len);
    proof {
        assert(head@ =~= left@.take(last as int));
        assert(packed@.subrange(0, packed_len as int) =~= packed@);
        lemma_seq_leaves_concat(head@, packed@);
        assert(r@.take(left.len() - 1) =~= left@.take(left.len() - 1));
    }
    r
}

/// What a join keeps of two runs. An empty run leaves the other as it is.
/// Two runs of one depth are put one after the other. Of two runs of
/// different depths the join has the greater depth, and keeps the nodes of
/// the deeper run but the one next to the shallower run.
pub(crate) open spec fn joined_as<const N: usize, L: Leaf>(
    r: Seq<Arc<Node<N, L>>>,
    depth: usize,
    left: Seq<Arc<Node<N, L>>>,
    left_depth: usize,
    right: Seq<Arc<Node<N, L>>>,
    right_depth: usize,
) -> bool {
    if left.len() == 0 {
        r == right && depth == right_depth
    } else if right.len() == 0 {
        r == left && depth == left_depth
    } else if left_depth == right_depth {
        r == left + right && depth == left_depth
    } else if left_depth < right_depth {
        &&& depth == right_depth
        &&& r.len() >= right.len()
        &&& r.skip(r.len() - (right.len() - 1)) == right.skip(1)
    } else {
        &&& depth == left_depth
        &&& r.len() >= left.len()
        &&& r.take(left.len() - 1) == left.take(left.len() - 1)
    }
}

/// Joins two runs of any depths into one run of the greater depth. An empty
/// run joins to the other run as it is.
pub(crate) fn join_runs<const N: usize, L: Leaf>(
    left: Vec<Arc<Node<N, L>>>,
    left_depth: usize,
    right: Vec<Arc<Node<N, L>>>,
    right_depth: usize,
) -> (r: (Vec<Arc<Node<N, L>>>, usize))
    requires
        2 <= N,
        run_ok(left@, left_depth as nat),
        run_ok(right@, right_depth as nat),
        leaves_fit(seq_leaves(left@) + seq_leaves(right@)),
    ensures
        run_ok(r.0@, r.1 as nat),
        seq_leaves(r.0@) == seq_leaves(left@) + seq_leaves(right@),
        r.0.len() == 0 <==> left.len() == 0 && right.len() == 0,
        r.1 == left_depth || r.1 == right_depth,
        joined_as(r.0@, r.1, left@, left_depth, right@, right_depth),
{
    if left.len() == 0 {
        proof {
            assert(seq_leaves(left@) + seq_leaves(right@) =~= seq_leaves(right@));
        }
        (right, right_depth)
    } else if right.len() == 0 {
        proof {
            assert(seq_leaves(left@) + seq_leaves(right@) =~= seq_leaves(left@));
        }
        (left, left_depth)
    } else if left_depth == right_depth {
        proof {
            lemma_seq_leaves_concat(left@, right@);
        }
        let right_len = right.len();
        let r = extend_run(left, &right, 0, right_len);
        proof {
            assert(right@.subrange(0, right_len as int) =~= right@);
            assert(r@.skip(r.len() - (right.len() - 1)) =~= right@.skip(1));
            assert(r@.take(left.len() - 1) =~= left@.take(left.len() - 1));
        }
        (r, left_depth)
    } else if left_depth < right_depth {
        (prepend_run(left, left_depth, right, right_depth), right_depth)
    } else {
        (append_run(left, left_depth, right, right_depth), left_depth)
    }
}

/// Two leaves that are neighbours, balanced: where one of them is smaller
/// than its size policy asks, their content is spread anew over one leaf or
/// two.
pub(crate) fn balance_pair<const N: usize, L: Leaf>(a: &Arc<Node<N, L>>, b: &Arc<Node<N, L>>) -> (r:
    Vec<Arc<Node<N, L>>>)
    requires
        a.wf(),
        b.wf(),
        a.spec_depth() == 0,
        b.spec_depth() == 0,
    ensures
        run_ok(r@, 0),
        run_content(r@) == a.content() + b.content(),
        1 <= r.len() <= 2,
        seq_leaves(r@).len() == r.len(),
        leaf_contents(r@) == pair_contents::<L>(a.content(), b.content()),
        L::big_enough(a.content()) && L::big_enough(b.content()) ==> r@ == seq![*a, *b],
{
    let mut run: Vec<Arc<Node<N, L>>> = Vec::new();
    proof {
        lemma_flat_one(a.spec_leaves()[0]);
        lemma_flat_one(b.spec_leaves()[0]);
        assert(a.spec_leaves() =~= seq![a.spec_leaves()[0]]);
        assert(b.spec_leaves() =~= seq![b.spec_leaves()[0]]);
    }
    match (&**a, &**b) {
        (Node::Leaf(x), Node::Leaf(y)) => {
            if x.value.is_big_enough() && y.value.is_big_enough() {
                run.push(arc_clone(a));
                run.push(arc_clone(b));
                proof {
                    assert(run@ =~= seq![*a].push(*b));
                    lemma_seq_leaves_one(*a);
                    lemma_seq_leaves_push(seq![*a], *b);
                    lemma_flat_concat(a.spec_leaves(), b.spec_leaves());
                    assert(leaf_contents(run@) =~= seq![a.content(), b.content()]);
                }
            } else {
                let (first, second) = L::balance_slices(x.value.as_slice(), y.value.as_slice());
                let first_node = Node::leaf(first);
                run.push(first_node);
                proof {
                    assert(run@ =~= seq![first_node]);
                    lemma_seq_leaves_one(first_node);
                    lemma_flat_one(first);
                    lemma_flat_one(x.value);
                    lemma_flat_one(y.value);
                }
                match second {
                    Some(second) => {
                        let second_node = Node::leaf(second);
                        proof {
                            lemma_seq_leaves_push(run@, second_node);
                            lemma_flat_one(second);
                            lemma_flat_concat(seq![first], seq![second]);
                        }
                        run.push(second_node);
                        proof {
                            assert(seq_leaves(run@) =~= seq![first, second]);
                            assert(leaf_contents(run@) =~= seq![
                                first.content(),
                                second.content(),
                            ]);
                        }
                    },
                    None => {
                        proof {
                            assert(first.content() + Seq::<L::Unit>::empty() =~= first.content());
                            assert(seq_leaves(run@) =~= seq![first]);
                            assert(leaf_contents(run@) =~= seq![first.content()]);
                        }
                    },
                }
            }
        },
        _ => {
            proof {
                assert(false);
            }
        },
    }
    run
}

/// Joins a run that is one leaf cut at its start with the run that
/// follows it. Where both are runs of leaves, the cut leaf and the leaf
/// after it are balanced.
pub(crate) fn join_after_cut<const N: usize, L: Leaf>(
    cut: Vec<Arc<Node<N, L>>>,
    cut_depth: usize,
    rest: Vec<Arc<Node<N, L>>>,
    rest_depth: usize,
) -> (r: (Vec<Arc<Node<N, L>>>, usize))
    requires
        2 <= N,
        run_ok(cut@, cut_depth as nat),
        run_ok(rest@, rest_depth as nat),
        leaves_fit(seq_leaves(cut@) + seq_leaves(rest@)),
    ensures
        run_ok(r.0@, r.1 as nat),
        run_content(r.0@) == run_content(cut@) + run_content(rest@),
        seq_leaves(r.0@).len() <= seq_leaves(cut@).len() + seq_leaves(rest@).len(),
        r.0.len() == 0 <==> cut.len() == 0 && rest.len() == 0,
        r.1 == cut_depth || r.1 == rest_depth,
        rest.len() == 0 && cut.len() >= 1 ==> r.0@ == cut@ && r.1 == cut_depth,
        cut.len() == 0 && rest.len() >= 1 ==> r.0@ == rest@ && r.1 == rest_depth,
        cut.len() >= 1 && rest.len() >= 1 ==> r.1 == if cut_depth <= rest_depth {
            rest_depth
        } else {
            cut_depth
        },
        cut.len() >= 1 && rest.len() >= 1 && cut_depth <= rest_depth ==> {
            &&& r.1 == rest_depth
            &&& r.0.len() >= rest.len() - 1
            &&& r.0@.skip(r.0.len() - (rest.len() - 1)) == rest@.skip(1)
        },
{
    proof {
        lemma_flat_concat(seq_leaves(cut@), seq_leaves(rest@));
    }
    if cut_depth == 0 && rest_depth == 0 && cut.len() == 1 && rest.len() >= 1 {
        let pair = balance_pair(&cut[0], &rest[0]);
        let rest_len = rest.len();
        let run = extend_run(pair, &rest, 1, rest_len);
        proof {
            assert(cut@ =~= seq![cut@[0]]);
            lemma_seq_leaves_one(cut@[0]);
            lemma_seq_leaves_one(rest@[0]);
            assert(rest@.subrange(1, rest_len as int) =~= rest@.skip(1));
            assert(rest@ =~= seq![rest@[0]] + rest@.skip(1));
            lemma_run_content_concat(seq![rest@[0]], rest@.skip(1));
            lemma_run_content_concat(pair@, rest@.skip(1));
            assert(run_content(run@) =~= run_content(cut@) + run_content(rest@));
            assert forall|j: int| 0 <= j < run@.len() implies (#[trigger] run@[j]).wf()
                && run@[j].spec_depth() == 0 by {
                if j < pair@.len() {
                    assert(run@[j] == pair@[j]);
                } else {
                    assert(run@[j] == rest@[1 + (j - pair@.len())]);
                }
            }
            assert(run@.skip(run@.len() - (rest@.len() - 1)) =~= rest@.skip(1));
        }
        (run, 0)
    } else {
        join_runs(cut, cut_depth, rest, rest_depth)
    }
}

/// Joins a run with the run that follows it and is one leaf cut at its
/// end. Where both are runs of leaves, the cut leaf and the leaf before it
/// are balanced.
pub(crate) fn join_before_cut<const N: usize, L: Leaf>(
    head: Vec<Arc<Node<N, L>>>,
    head_depth: usize,
    cut: Vec<Arc<Node<N, L>>>,
    cut_depth: usize,
) -> (r: (Vec<Arc<Node<N, L>>>, usize))
    requires
        2 <= N,
        run_ok(head@, head_depth as nat),
        run_ok(cut@, cut_depth as nat),
        leaves_fit(seq_leaves(head@) + seq_leaves(cut@)),
    ensures
        run_ok(r.0@, r.1 as nat),
        run_content(r.0@) == run_content(head@) + run_content(cut@),
        seq_leaves(r.0@).len() <= seq_leaves(head@).len() + seq_leaves(cut@).len(),
        r.0.len() == 0 <==> head.len() == 0 && cut.len() == 0,
        r.1 == head_depth || r.1 == cut_depth,
        head.len() == 0 && cut.len() >= 1 ==> r.0@ == cut@ && r.1 == cut_depth,
        cut.len() == 0 && head.len() >= 1 ==> r.0@ == head@ && r.1 == head_depth,
        cut.len() >= 1 && head.len() >= 1 ==> r.1 == if cut_depth <= head_depth {
            head_depth
        } else {
            cut_depth
        },
        cut.len() >= 1 && head.len() >= 1 && cut_depth <= head_depth ==> {
            &&& r.1 == head_depth
            &&& r.0.len() >= head.len() - 1
            &&& r.0@.take(head.len() - 1) == head@.take(head.len() - 1)
        },
{
    proof {
        lemma_flat_concat(seq_leaves(head@), seq_leaves(cut@));
    }
    if cut_depth == 0 && head_depth == 0 && cut.len() == 1 && head.len() >= 1 {
        let last = head.len() - 1;
        let pair = balance_pair(&head[last], &cut[0]);
        let pair_len = pair.len();
        let start = extend_run(Vec::new(), &head, 0, last);
        let run = extend_run(start, &pair, 0, pair_len);
        proof {
            assert(cut@ =~= seq![cut@[0]]);
            lemma_seq_leaves_one(cut@[0]);
            lemma_seq_leaves_one(head@[last as int]);
            assert(start@ =~= head@.take(last as int));
            assert(pair@.subrange(0, pair_len as int) =~= pair@);
            assert(head@ =~= head@.take(last as int) + seq![head@[last as int]]);
            lemma_run_content_concat(head@.take(last as int), seq![head@[last as int]]);
            lemma_run_content_concat(head@.take(last as int), pair@);
            assert(run_content(run@) =~= run_content(head@) + run_content(cut@));
            assert forall|j: int| 0 <= j < run@.len() implies (#[trigger] run@[j]).wf()
                && run@[j].spec_depth() == 0 by {
                if j < last {
                    assert(run@[j] == head@[j]);
                } else {
                    assert(run@[j] == pair@[j - last]);
                }
            }
            assert(run@.take(head@.len() - 1) =~= head@.take(head@.len() - 1));
        }
        (run, 0)
    } else {
        join_runs(head, head_depth, cut, cut_depth)
    }
}

} // verus!
