//! The metric that counts the bytes of text and never cuts inside a
//! character or inside a pair of carriage return and line feed.
use super::rope_chunk::{
    cut_between, last_splittable, split_bytes, splittable, summarize_bytes, ChunkSummary,
    RopeChunk,
};
use super::utils::{splits_crlf, valid_split};
use crate::tree::{
    flat, leaf_index_at, lemma_base_slice, lemma_flat_grows, lemma_flat_split, lemma_flat_step,
    lemma_leaf_index_bounds, seam_at, BaseMetric, Leaf, Metric, SlicingMetric, Tree,
    TreeSlice,
};
use std::ops::Range;
use vstd::prelude::*;
use vstd::slice::slice_subrange;
use vstd::utf8::{
    is_char_boundary_iff_not_is_continuation_byte, is_char_boundary_start_end_of_seq, valid_utf8,
};

verus! {

/// The metric that counts bytes. An offset at which text may not be split
/// (inside a character, or between a carriage return and the line feed that
/// follows it) is cut at the nearest offset at which it may: the next one
/// with `WITH_RIGHT_BIAS`, else the one before.
///
/// As a metric of a tree it looks at one chunk at a time, so it cuts the
/// trees whose chunks divide no character and no such pair; `can_cut_bytes`
/// tells whether a tree is one. `byte_slice` looks across chunks and slices
/// every tree of text.
pub struct ByteMetric<const WITH_RIGHT_BIAS: bool>;

/// Whether text may be cut at the offset `i`: at its start, at its end, and
/// wherever a chunk may be split.
pub open spec fn may_cut(c: Seq<u8>, i: int) -> bool {
    i == 0 || splittable(c, i)
}

/// The first offset from `at` on at which text may be cut.
pub open spec fn first_cut_from(c: Seq<u8>, at: int) -> int
    decreases c.len() - at,
{
    if at >= c.len() {
        c.len() as int
    } else if may_cut(c, at) {
        at
    } else {
        first_cut_from(c, at + 1)
    }
}

/// The offset at which text is cut for a byte offset: the offset itself
/// where text may be cut there, and else the nearest such offset after it
/// or before it.
pub open spec fn byte_cut(c: Seq<u8>, at: int, right: bool) -> int {
    if right {
        first_cut_from(c, at)
    } else {
        last_splittable(c, at)
    }
}

/// The first offset from `at` on at which text may be cut is one, and
/// there is none between `at` and it.
pub proof fn lemma_first_cut_from(c: Seq<u8>, at: int)
    requires
        0 <= at <= c.len(),
    ensures
        at <= first_cut_from(c, at) <= c.len(),
        may_cut(c, first_cut_from(c, at)),
        forall|j: int| at <= j < first_cut_from(c, at) ==> !may_cut(c, j),
    decreases c.len() - at,
{
    if at < c.len() && !may_cut(c, at) {
        lemma_first_cut_from(c, at + 1);
    }
}

/// The last offset up to `at` at which text may be cut is one, and there
/// is none between it and `at`.
pub proof fn lemma_last_cut_to(c: Seq<u8>, at: int)
    requires
        0 <= at <= c.len(),
    ensures
        0 <= last_splittable(c, at) <= at,
        may_cut(c, last_splittable(c, at)),
        forall|j: int| last_splittable(c, at) < j <= at ==> !may_cut(c, j),
    decreases at,
{
    if at > 0 && !splittable(c, at) {
        lemma_last_cut_to(c, at - 1);
    }
}

/// What the cut for a byte offset is: an offset at which text may be cut,
/// hence none inside a pair of carriage return and line feed; the offset
/// itself where text may be cut there; and else the nearest such offset on
/// the side of the bias.
pub proof fn lemma_byte_cut(c: Seq<u8>, at: int, right: bool)
    requires
        0 <= at <= c.len(),
    ensures
        0 <= byte_cut(c, at, right) <= c.len(),
        may_cut(c, byte_cut(c, at, right)),
        !splits_crlf(c, byte_cut(c, at, right)),
        may_cut(c, at) ==> byte_cut(c, at, right) == at,
        right ==> at <= byte_cut(c, at, right) && forall|j: int|
            at <= j < byte_cut(c, at, right) ==> !may_cut(c, j),
        !right ==> byte_cut(c, at, right) <= at && forall|j: int|
            byte_cut(c, at, right) < j <= at ==> !may_cut(c, j),
{
    lemma_first_cut_from(c, at);
    lemma_last_cut_to(c, at);
}

/// In text, the byte metric may cut exactly where text may be split:
/// between two characters, and not inside a pair of carriage return and line
/// feed. So the cut for a byte offset of a text is the nearest offset at
/// which the text may be split, on the side of the bias.
pub proof fn lemma_byte_cut_text(bytes: Seq<u8>, at: int, right: bool)
    requires
        valid_utf8(bytes),
        0 <= at <= bytes.len(),
    ensures
        forall|i: int| 0 <= i <= bytes.len() ==> may_cut(bytes, i) == #[trigger] valid_split(bytes, i),
        valid_split(bytes, byte_cut(bytes, at, right)),
        valid_split(bytes, at) ==> byte_cut(bytes, at, right) == at,
        right ==> at <= byte_cut(bytes, at, right) && forall|j: int|
            at <= j < byte_cut(bytes, at, right) ==> !valid_split(bytes, j),
        !right ==> byte_cut(bytes, at, right) <= at && forall|j: int|
            byte_cut(bytes, at, right) < j <= at ==> !valid_split(bytes, j),
{
    assert forall|i: int| 0 <= i <= bytes.len() implies may_cut(bytes, i) == #[trigger] valid_split(
        bytes,
        i,
    ) by {
        is_char_boundary_start_end_of_seq(bytes);
        if 0 < i < bytes.len() {
            is_char_boundary_iff_not_is_continuation_byte(bytes, i);
        }
    }
    lemma_byte_cut(bytes, at, right);
}

/// The cut for a smaller byte offset does not lie after the cut for a
/// greater one.
pub proof fn lemma_byte_cut_order(c: Seq<u8>, a: int, b: int, right: bool)
    requires
        0 <= a <= b <= c.len(),
    ensures
        byte_cut(c, a, right) <= byte_cut(c, b, right),
{
    lemma_byte_cut(c, a, right);
    lemma_byte_cut(c, b, right);
}

/// Whether text may be divided between `a` and `b` where they stand one
/// after the other: whether it may be cut where `a` ends.
pub open spec fn byte_seam(a: Seq<u8>, b: Seq<u8>) -> bool {
    may_cut(a + b, a.len() as int)
}

/// The seams of the byte metric are the offsets at which text may be cut:
/// where a tree is sliced in this metric, no end of the slice lies inside a
/// character or inside a pair of carriage return and line feed.
pub proof fn lemma_byte_seam<const MAX_BYTES: usize, const WITH_RIGHT_BIAS: bool>(
    c: Seq<u8>,
    at: int,
)
    requires
        0 <= at <= c.len(),
    ensures
        seam_at::<RopeChunk<MAX_BYTES>, ByteMetric<WITH_RIGHT_BIAS>>(c, at) == may_cut(c, at),
        may_cut(c, at) ==> !splits_crlf(c, at),
{
    assert(c.take(at) + c.skip(at) =~= c);
}

/// The first cut from an offset on is found in a part of the text alone,
/// where the text may be cut at the same offsets as the part, from that
/// offset up to the end of the part.
pub proof fn lemma_first_cut_shift(c: Seq<u8>, d: Seq<u8>, at: int, off: int)
    requires
        0 <= at <= c.len(),
        0 <= off,
        c.len() + off <= d.len(),
        forall|j: int| at <= j <= c.len() ==> may_cut(c, j) == may_cut(d, j + off),
    ensures
        first_cut_from(d, at + off) == first_cut_from(c, at) + off,
    decreases c.len() - at,
{
    if at < c.len() {
        if !may_cut(c, at) {
            lemma_first_cut_shift(c, d, at + 1, off);
        }
    } else {
        assert(may_cut(c, at));
        assert(may_cut(d, at + off));
    }
}

/// The last cut up to an offset is found in a part of the text alone,
/// where the text may be cut at the same offsets as the part, up to that
/// offset, and at the start of the part.
pub proof fn lemma_last_cut_shift(c: Seq<u8>, d: Seq<u8>, at: int, off: int)
    requires
        0 <= at <= c.len(),
        0 <= off,
        c.len() + off <= d.len(),
        forall|j: int| 0 < j <= at ==> splittable(c, j) == splittable(d, j + off),
        may_cut(d, off),
    ensures
        last_splittable(d, at + off) == last_splittable(c, at) + off,
    decreases at,
{
    if at > 0 {
        if !splittable(c, at) {
            lemma_last_cut_shift(c, d, at - 1, off);
        }
    }
}

/// A cut is local where two parts of a text meet at an offset at which
/// the text may be cut: it falls in the first part for an offset in that
/// part, and otherwise in the second.
pub proof fn lemma_byte_cut_concat(a: Seq<u8>, b: Seq<u8>, at: int, right: bool)
    requires
        0 <= at <= a.len() + b.len(),
        byte_seam(a, b),
    ensures
        at <= a.len() ==> byte_cut(a + b, at, right) == byte_cut(a, at, right),
        at > a.len() ==> byte_cut(a + b, at, right) == a.len() + byte_cut(b, at - a.len(), right),
{
    let d = a + b;
    let n = a.len() as int;
    if at <= n {
        assert forall|j: int| 0 <= j <= n implies may_cut(a, j) == may_cut(d, j) by {
            if 0 < j < n {
                assert(d[j] == a[j]);
                assert(d[j - 1] == a[j - 1]);
            }
        }
        if right {
            lemma_first_cut_shift(a, d, at, 0);
        } else {
            lemma_last_cut_shift(a, d, at, 0);
        }
    } else {
        assert forall|j: int| 0 < j <= b.len() implies splittable(b, j) == splittable(d, j + n) by {
            if j < b.len() {
                assert(d[j + n] == b[j]);
                assert(d[j + n - 1] == b[j - 1]);
            }
        }
        if right {
            lemma_first_cut_shift(b, d, at - n, n);
        } else {
            lemma_last_cut_shift(b, d, at - n, n);
        }
    }
}

/// The offset at which a slice of text is cut for a byte offset.
pub fn cut_bytes<const WITH_RIGHT_BIAS: bool>(s: &[u8], at: usize) -> (r: usize)
    requires
        at <= s@.len(),
    ensures
        r == byte_cut(s@, at as int, WITH_RIGHT_BIAS),
        r <= s@.len(),
{
    let len = s.len();
    let mut point = at;
    proof {
        lemma_byte_cut(s@, at as int, WITH_RIGHT_BIAS);
    }
    if WITH_RIGHT_BIAS {
        while point < len
            invariant
                WITH_RIGHT_BIAS,
                at <= point <= len == s@.len(),
                first_cut_from(s@, point as int) == first_cut_from(s@, at as int),
            decreases len - point,
        {
            if point == 0 {
                return point;
            }
            if cut_between(s[point - 1], s[point]) {
                return point;
            }
            point = point + 1;
        }
        point
    } else {
        while point > 0
            invariant
                !WITH_RIGHT_BIAS,
                0 <= point <= at <= len == s@.len(),
                last_splittable(s@, point as int) == last_splittable(s@, at as int),
            decreases point,
        {
            if point == len {
                return point;
            }
            if cut_between(s[point - 1], s[point]) {
                return point;
            }
            point = point - 1;
        }
        point
    }
}

impl<const MAX_BYTES: usize, const WITH_RIGHT_BIAS: bool> Metric<
    RopeChunk<MAX_BYTES>,
> for ByteMetric<WITH_RIGHT_BIAS> {
    open spec fn spec_measure(s: ChunkSummary) -> usize {
        s.bytes
    }

    proof fn lemma_measure_concat(a: Seq<u8>, b: Seq<u8>) {
    }

    fn measure(s: &ChunkSummary) -> (r: usize) {
        s.bytes
    }
}

impl<const MAX_BYTES: usize, const WITH_RIGHT_BIAS: bool> SlicingMetric<
    RopeChunk<MAX_BYTES>,
> for ByteMetric<WITH_RIGHT_BIAS> {
    open spec fn spec_cut(c: Seq<u8>, at: usize) -> nat {
        byte_cut(c, at as int, WITH_RIGHT_BIAS) as nat
    }

    /// Text is divided between two chunks only where it may be cut.
    open spec fn spec_seam(a: Seq<u8>, b: Seq<u8>) -> bool {
        byte_seam(a, b)
    }

    /// The cut for an offset at which text may not be cut is moved.
    open spec fn spec_moved(c: Seq<u8>, at: usize) -> bool {
        !may_cut(c, at as int)
    }

    proof fn lemma_cut(c: Seq<u8>, at: usize) {
        lemma_byte_cut(c, at as int, WITH_RIGHT_BIAS);
        let cut = byte_cut(c, at as int, WITH_RIGHT_BIAS);
        assert(c.subrange(0, cut) + c.subrange(cut, c.len() as int) =~= c);
    }

    proof fn lemma_cut_order(c: Seq<u8>, a: usize, b: usize) {
        lemma_byte_cut_order(c, a as int, b as int, WITH_RIGHT_BIAS);
        lemma_byte_cut(c, a as int, WITH_RIGHT_BIAS);
        lemma_byte_cut(c, b as int, WITH_RIGHT_BIAS);
    }

    proof fn lemma_seam(x: Seq<u8>, a: Seq<u8>, b: Seq<u8>, y: Seq<u8>) {
        assert(Seq::<u8>::empty() + a =~= a);
        assert(a + Seq::<u8>::empty() =~= a);
        if byte_seam(x + a, b + y) && a.len() > 0 && b.len() > 0 {
            let whole = (x + a) + (b + y);
            let at = (x.len() + a.len()) as int;
            assert(whole[at] == b[0]);
            assert(whole[at - 1] == a[a.len() - 1]);
            assert((a + b)[a.len() as int] == b[0]);
            assert((a + b)[a.len() - 1] == a[a.len() - 1]);
        }
    }

    proof fn lemma_cut_concat(a: Seq<u8>, b: Seq<u8>, at: usize) {
        lemma_byte_cut_concat(a, b, at as int, WITH_RIGHT_BIAS);
        lemma_byte_cut(b, if at > a.len() {
            at - a.len()
        } else {
            0
        }, WITH_RIGHT_BIAS);
    }

    fn slice<'a>(s: &'a [u8], start: usize, end: usize, summary: &ChunkSummary) -> (r: (
        &'a [u8],
        ChunkSummary,
    )) {
        proof {
            lemma_byte_cut_order(s@, start as int, end as int, WITH_RIGHT_BIAS);
        }
        let from = cut_bytes::<WITH_RIGHT_BIAS>(s, start);
        let to = cut_bytes::<WITH_RIGHT_BIAS>(s, end);
        let part = slice_subrange(s, from, to);
        (part, summarize_bytes(part))
    }

    fn split_left<'a>(s: &'a [u8], at: usize, summary: &ChunkSummary) -> (r: (
        &'a [u8],
        ChunkSummary,
        ChunkSummary,
    )) {
        let (left, head, _, tail) = split_bytes(s, cut_bytes::<WITH_RIGHT_BIAS>(s, at), summary);
        (left, head, tail)
    }

    fn split_right<'a>(s: &'a [u8], at: usize, summary: &ChunkSummary) -> (r: (
        ChunkSummary,
        &'a [u8],
        ChunkSummary,
    )) {
        let (_, head, right, tail) = split_bytes(s, cut_bytes::<WITH_RIGHT_BIAS>(s, at), summary);
        (head, right, tail)
    }
}

/// Whether the byte metric can cut a tree of text: whether no
/// character and no pair of carriage return and line feed is divided
/// between two of its chunks.
pub fn can_cut_bytes<const FANOUT: usize, const MAX_BYTES: usize>(
    tree: &Tree<FANOUT, RopeChunk<MAX_BYTES>>,
) -> (r: bool)
    requires
        tree.wf(),
    ensures
        r == tree.seamed::<ByteMetric<true>>(),
        r == tree.seamed::<ByteMetric<false>>(),
{
    let parts = tree.leaves();
    let n = parts.len();
    let ghost ls = tree.spec_leaves();
    let ghost whole = flat(ls);
    let mut j: usize = 0;
    let mut seen: usize = 0;
    let mut last: u8 = 0;
    proof {
        tree.lemma_invariants();
        assert(ls.take(0) =~= Seq::<RopeChunk<MAX_BYTES>>::empty());
    }
    while j < n
        invariant
            j <= n == ls.len() == parts@.len(),
            ls == tree.spec_leaves(),
            forall|k: int| 0 <= k < n ==> (#[trigger] parts@[k])@ == ls[k].content(),
            whole == flat(ls),
            whole.len() <= usize::MAX,
            seen == flat(ls.take(j as int)).len(),
            seen <= whole.len(),
            seen > 0 ==> last == whole[seen - 1],
            forall|k: int|
                0 <= k <= j && (#[trigger] flat(ls.take(k))).len() < seen ==> may_cut(
                    whole,
                    flat(ls.take(k)).len() as int,
                ),
        decreases n - j,
    {
        let part = parts[j];
        proof {
            lemma_flat_split(ls, j as int);
            lemma_flat_step(ls, j as int);
            assert forall|k: int| 0 <= k <= j implies (#[trigger] flat(ls.take(k))).len()
                <= seen by {
                lemma_flat_grows(ls, k, j as int);
            }
        }
        if part.len() > 0 {
            let first = part[0];
            proof {
                assert(whole[seen as int] == first);
            }
            if seen > 0 && !cut_between(last, first) {
                proof {
                    assert(!may_cut(whole, seen as int));
                    let a = flat(ls.take(j as int));
                    let b = flat(ls.skip(j as int));
                    assert(!byte_seam(a, b));
                }
                return false;
            }
            last = part[part.len() - 1];
            proof {
                assert(whole[seen + part@.len() - 1] == last);
            }
            seen = seen + part.len();
        }
        j = j + 1;
    }
    proof {
        assert(ls.take(n as int) =~= ls);
        assert forall|k: int| 0 <= k <= ls.len() implies byte_seam(
            #[trigger] flat(ls.take(k)),
            flat(ls.skip(k)),
        ) by {
            lemma_flat_grows(ls, k, n as int);
            lemma_flat_split(ls, k);
        }
    }
    true
}

/// The byte at an offset of the text of a tree.
pub fn byte_at<const FANOUT: usize, const MAX_BYTES: usize>(
    tree: &Tree<FANOUT, RopeChunk<MAX_BYTES>>,
    at: usize,
) -> (r: u8)
    requires
        tree.wf(),
        at < tree.content().len(),
    ensures
        r == tree.content()[at as int],
{
    let ghost ls = tree.spec_leaves();
    proof {
        tree.lemma_invariants();
        lemma_leaf_index_bounds::<RopeChunk<MAX_BYTES>, BaseMetric>(ls, at + 1);
        let idx = leaf_index_at::<RopeChunk<MAX_BYTES>, BaseMetric>(ls, at + 1);
        lemma_flat_split(ls, idx);
        lemma_flat_step(ls, idx);
    }
    let (leaf, before) = tree.leaf_at_measure::<BaseMetric>(at + 1);
    leaf[at - before]
}

/// The offset at which the text of a tree is cut for a byte offset,
/// whatever way the text is divided into chunks.
pub fn cut_text<const FANOUT: usize, const MAX_BYTES: usize, const WITH_RIGHT_BIAS: bool>(
    tree: &Tree<FANOUT, RopeChunk<MAX_BYTES>>,
    at: usize,
) -> (r: usize)
    requires
        tree.wf(),
        at <= tree.content().len(),
    ensures
        r == byte_cut(tree.content(), at as int, WITH_RIGHT_BIAS),
        r <= tree.content().len(),
{
    let ghost whole = tree.content();
    proof {
        tree.lemma_invariants();
        lemma_byte_cut(whole, at as int, WITH_RIGHT_BIAS);
    }
    let len = tree.base_measure();
    let mut point = at;
    if WITH_RIGHT_BIAS {
        while point < len
            invariant
                WITH_RIGHT_BIAS,
                tree.wf(),
                whole == tree.content(),
                at <= point <= len == whole.len(),
                first_cut_from(whole, point as int) == first_cut_from(whole, at as int),
            decreases len - point,
        {
            if point == 0 {
                return point;
            }
            if cut_between(byte_at(tree, point - 1), byte_at(tree, point)) {
                return point;
            }
            point = point + 1;
        }
        point
    } else {
        while point > 0
            invariant
                !WITH_RIGHT_BIAS,
                tree.wf(),
                whole == tree.content(),
                0 <= point <= at <= len == whole.len(),
                last_splittable(whole, point as int) == last_splittable(whole, at as int),
            decreases point,
        {
            if point == len {
                return point;
            }
            if cut_between(byte_at(tree, point - 1), byte_at(tree, point)) {
                return point;
            }
            point = point - 1;
        }
        point
    }
}

/// The slice of a tree of text between two byte offsets, each cut where
/// the text may be cut, whatever way the text is divided into chunks: no end
/// of the slice lies inside a character or inside a pair of carriage return
/// and line feed.
pub fn byte_slice<'a, const FANOUT: usize, const MAX_BYTES: usize, const WITH_RIGHT_BIAS: bool>(
    tree: &'a Tree<FANOUT, RopeChunk<MAX_BYTES>>,
    range: Range<usize>,
) -> (r: TreeSlice<'a, FANOUT, RopeChunk<MAX_BYTES>>)
    requires
        tree.wf(),
        range.start <= range.end <= tree.content().len(),
    ensures
        r.wf(),
        r.root_is_deepest(),
        r.content() == tree.content().subrange(
            byte_cut(tree.content(), range.start as int, WITH_RIGHT_BIAS),
            byte_cut(tree.content(), range.end as int, WITH_RIGHT_BIAS),
        ),
        may_cut(tree.content(), byte_cut(tree.content(), range.start as int, WITH_RIGHT_BIAS)),
        may_cut(tree.content(), byte_cut(tree.content(), range.end as int, WITH_RIGHT_BIAS)),
        !splits_crlf(tree.content(), byte_cut(tree.content(), range.start as int, WITH_RIGHT_BIAS)),
        !splits_crlf(tree.content(), byte_cut(tree.content(), range.end as int, WITH_RIGHT_BIAS)),
{
    proof {
        tree.lemma_invariants();
        lemma_byte_cut(tree.content(), range.start as int, WITH_RIGHT_BIAS);
        lemma_byte_cut(tree.content(), range.end as int, WITH_RIGHT_BIAS);
        lemma_byte_cut_order(
            tree.content(),
            range.start as int,
            range.end as int,
            WITH_RIGHT_BIAS,
        );
    }
    let start = cut_text::<FANOUT, MAX_BYTES, WITH_RIGHT_BIAS>(tree, range.start);
    let end = cut_text::<FANOUT, MAX_BYTES, WITH_RIGHT_BIAS>(tree, range.end);
    proof {
        lemma_base_slice::<RopeChunk<MAX_BYTES>>(tree.content(), start, end);
    }
    tree.slice::<BaseMetric>(start..end)
}

} // verus!
