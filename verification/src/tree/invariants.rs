//! Checking the invariants of a subtree at run time.
use super::node::{
    flat, leaves_fit, lemma_flat_concat, lemma_leaves_fit_parts, lemma_node_facts,
    lemma_seq_leaves_push, lemma_seq_leaves_split, min_children, seq_leaves, Node,
};
use super::traits::{Leaf, Summary};
use std::sync::Arc;
use vstd::prelude::*;

verus! {

/// Whether a subtree is well formed with at least `lo` children at its
/// root: walks the whole subtree and computes every cached value anew.
#[verifier::loop_isolation(false)]
pub(crate) fn check_node<const N: usize, L: Leaf>(node: &Arc<Node<N, L>>, lo: usize) -> (r: bool)
    requires
        2 <= N,
    ensures
        r == node.ok(lo as nat),
    decreases node,
{
    match &**node {
        Node::Leaf(l) => {
            let summary = l.value.summarize();
            l.summary.same(&summary)
        },
        Node::Internal(i) => {
            let children = &i.children;
            let len = children.len();
            if len < lo || len > N || i.depth == 0 {
                return false;
            }
            let min: usize = N / 2 + N % 2;
            let mut summary = L::Summary::zero();
            let mut count: usize = 0;
            let mut k: usize = 0;
            proof {
                L::lemma_empty();
                assert(children@.take(0) =~= Seq::<Arc<Node<N, L>>>::empty());
            }
            while k < len
                invariant
                    2 <= N,
                    min == min_children(N),
                    len == children.len(),
                    children == &i.children,
                    0 <= k <= len,
                    1 <= i.depth,
                    forall|j: int|
                        0 <= j < k ==> (#[trigger] children@[j]).ok(min_children(N))
                            && children@[j].spec_depth() + 1 == i.depth,
                    summary == L::summary_of(flat(seq_leaves(children@.take(k as int)))),
                    L::fits(flat(seq_leaves(children@.take(k as int)))),
                    count == seq_leaves(children@.take(k as int)).len(),
                decreases len - k,
            {
                let child = &children[k];
                let ghost done = children@.take(k as int);
                let ghost next = children@.take(k + 1);
                let ghost all = seq_leaves(children@);
                proof {
                    assert(next =~= done.push(children@[k as int]));
                    lemma_seq_leaves_push(done, children@[k as int]);
                    lemma_seq_leaves_split(children@, k + 1);
                    lemma_flat_concat(seq_leaves(done), child.spec_leaves());
                }
                if !check_node(child, min) {
                    return false;
                }
                if child.depth() != i.depth - 1 {
                    return false;
                }
                proof {
                    lemma_node_facts(&**child, min_children(N));
                    if leaves_fit(all) {
                        lemma_leaves_fit_parts(seq_leaves(next), seq_leaves(children@.skip(k + 1)));
                        L::lemma_concat(flat(seq_leaves(done)), child.content());
                    }
                }
                if !summary.addable(child.summary()) {
                    return false;
                }
                if count > usize::MAX - child.leaf_count() {
                    return false;
                }
                proof {
                    L::lemma_fits_concat(flat(seq_leaves(done)), child.content());
                    L::lemma_concat(flat(seq_leaves(done)), child.content());
                }
                summary = summary.add(child.summary());
                count = count + child.leaf_count();
                k = k + 1;
            }
            proof {
                assert(children@.take(len as int) =~= children@);
            }
            i.leaf_count == count && i.summary.same(&summary)
        },
    }
}

} // verus!
