//! A chunk of text as the leaf of a tree, and the metric that counts its
//! line breaks.
use super::utils::{splits_crlf, CR, LF};
use crate::tree::{Leaf, Metric, ReplaceableLeaf, SlicingMetric, Summary};
use vstd::prelude::*;
use vstd::slice::{slice_subrange, slice_to_vec};
use vstd::string::StringSliceAdditionalSpecFns;
use vstd::utf8::is_continuation_byte;

verus! {

/// What a tree knows of the text below one of its nodes: the number of its
/// bytes and the number of its line feeds.
#[derive(Clone, Copy, Debug, PartialEq, Eq, Default)]
pub struct ChunkSummary {
    pub bytes: usize,
    pub line_breaks: usize,
}

/// The number of line feeds among some bytes.
pub open spec fn count_lf(c: Seq<u8>) -> nat
    decreases c.len(),
{
    if c.len() == 0 {
        0
    } else {
        count_lf(c.drop_last()) + if c.last() == LF {
            1nat
        } else {
            0nat
        }
    }
}

/// Line feeds add up over concatenation, and there are no more of them
/// than there are bytes.
pub proof fn lemma_count_lf(a: Seq<u8>, b: Seq<u8>)
    ensures
        count_lf(a + b) == count_lf(a) + count_lf(b),
        count_lf(a) <= a.len(),
        count_lf(b) <= b.len(),
    decreases a.len() + b.len(),
{
    if b.len() == 0 {
        assert(a + b =~= a);
        if a.len() > 0 {
            lemma_count_lf(a.drop_last(), b);
        }
    } else {
        lemma_count_lf(a, b.drop_last());
        lemma_count_lf(b.drop_last(), Seq::empty());
        assert((a + b).drop_last() =~= a + b.drop_last());
        assert((a + b).last() == b.last());
    }
}

impl Summary for ChunkSummary {
    open spec fn spec_zero() -> Self {
        ChunkSummary { bytes: 0, line_breaks: 0 }
    }

    open spec fn spec_add(self, other: Self) -> Self {
        ChunkSummary {
            bytes: (self.bytes + other.bytes) as usize,
            line_breaks: (self.line_breaks + other.line_breaks) as usize,
        }
    }

    open spec fn can_add(self, other: Self) -> bool {
        self.bytes + other.bytes <= usize::MAX && self.line_breaks + other.line_breaks
            <= usize::MAX
    }

    open spec fn spec_sub(self, other: Self) -> Self {
        ChunkSummary {
            bytes: (self.bytes - other.bytes) as usize,
            line_breaks: (self.line_breaks - other.line_breaks) as usize,
        }
    }

    open spec fn can_sub(self, other: Self) -> bool {
        other.bytes <= self.bytes && other.line_breaks <= self.line_breaks
    }

    proof fn lemma_sub(self, other: Self) {
    }

    fn zero() -> (r: Self) {
        ChunkSummary { bytes: 0, line_breaks: 0 }
    }

    fn add(&self, other: &Self) -> (r: Self) {
        ChunkSummary {
            bytes: self.bytes + other.bytes,
            line_breaks: self.line_breaks + other.line_breaks,
        }
    }

    fn addable(&self, other: &Self) -> (r: bool) {
        self.bytes <= usize::MAX - other.bytes && self.line_breaks <= usize::MAX
            - other.line_breaks
    }

    fn sub(&self, other: &Self) -> (r: Self) {
        ChunkSummary {
            bytes: self.bytes - other.bytes,
            line_breaks: self.line_breaks - other.line_breaks,
        }
    }

    fn same(&self, other: &Self) -> (r: bool) {
        self.bytes == other.bytes && self.line_breaks == other.line_breaks
    }
}

/// The summary of some bytes.
pub open spec fn summary_of_bytes(c: Seq<u8>) -> ChunkSummary {
    ChunkSummary { bytes: c.len() as usize, line_breaks: count_lf(c) as usize }
}

/// Counts the line feeds of a slice of bytes.
pub fn summarize_bytes(s: &[u8]) -> (r: ChunkSummary)
    ensures
        r == summary_of_bytes(s@),
{
    let mut line_breaks: usize = 0;
    let mut k: usize = 0;
    let len = s.len();
    proof {
        assert(s@.take(0) =~= Seq::<u8>::empty());
    }
    while k < len
        invariant
            0 <= k <= len == s@.len(),
            line_breaks == count_lf(s@.take(k as int)),
            line_breaks <= k,
        decreases len - k,
    {
        proof {
            assert(s@.take(k + 1).drop_last() =~= s@.take(k as int));
        }
        if s[k] == LF {
            line_breaks = line_breaks + 1;
        }
        k = k + 1;
    }
    proof {
        assert(s@.take(len as int) =~= s@);
    }
    ChunkSummary { bytes: len, line_breaks }
}

/// The two parts of a slice of bytes at an offset, each with its summary.
/// The first part is summed up; the summary of the second is what is left
/// of the summary of the whole.
pub fn split_bytes<'a>(s: &'a [u8], at: usize, summary: &ChunkSummary) -> (r: (
    &'a [u8],
    ChunkSummary,
    &'a [u8],
    ChunkSummary,
))
    requires
        at <= s@.len(),
        *summary == summary_of_bytes(s@),
    ensures
        r.0@ == s@.subrange(0, at as int),
        r.1 == summary_of_bytes(r.0@),
        r.2@ == s@.subrange(at as int, s@.len() as int),
        r.3 == summary_of_bytes(r.2@),
{
    let left = slice_subrange(s, 0, at);
    let right = slice_subrange(s, at, s.len());
    let head = summarize_bytes(left);
    proof {
        assert(left@ + right@ =~= s@);
        lemma_count_lf(left@, right@);
    }
    let tail = summary.sub(&head);
    (left, head, right, tail)
}

/// Whether a chunk may be split at the offset `i`: not before a
/// continuation byte of a character and not inside a CRLF pair.
pub open spec fn splittable(bytes: Seq<u8>, i: int) -> bool {
    i == bytes.len() || (0 <= i < bytes.len() && !is_continuation_byte(bytes[i]) && !splits_crlf(
        bytes,
        i,
    ))
}

/// Whether text may be split between two bytes that follow each other: the
/// second does not go on with a character, and the two are no pair of
/// carriage return and line feed.
pub fn cut_between(before: u8, after: u8) -> (r: bool)
    ensures
        r == (!is_continuation_byte(after) && !(before == CR && after == LF)),
{
    let continues = 0x80 <= after && after <= 0xbf;
    let in_pair = before == CR && after == LF;
    !continues && !in_pair
}

/// The last offset up to `point`, and after the start of the chunk, at
/// which the chunk may be split, and 0 if there is none.
pub open spec fn last_splittable(bytes: Seq<u8>, point: int) -> int
    decreases point,
{
    if point <= 0 {
        0
    } else if splittable(bytes, point) {
        point
    } else {
        last_splittable(bytes, point - 1)
    }
}

/// The offset at which a chunk is split for a candidate offset: the last
/// offset up to the candidate at which the chunk may be split, and the
/// candidate itself if there is none.
pub open spec fn spec_split_point(bytes: Seq<u8>, candidate: int) -> int {
    if last_splittable(bytes, candidate) == 0 {
        candidate
    } else {
        last_splittable(bytes, candidate)
    }
}

/// The offset at which a chunk that has outgrown its size is split: the
/// last offset up to `candidate`, and after the start of the chunk, at
/// which the chunk may be split, and `candidate` if there is none.
pub fn split_point(bytes: &[u8], candidate: usize) -> (r: usize)
    requires
        0 < candidate <= bytes@.len(),
    ensures
        r == spec_split_point(bytes@, candidate as int),
        0 < r <= candidate,
        forall|j: int| r < j <= candidate ==> !splittable(bytes@, j),
        splittable(bytes@, r as int) || (r == candidate && forall|j: int|
            0 < j <= candidate ==> !splittable(bytes@, j)),
{
    let len = bytes.len();
    let mut point = candidate;
    while point > 0
        invariant
            0 <= point <= candidate <= bytes@.len() == len,
            forall|j: int| point < j <= candidate ==> !splittable(bytes@, j),
            last_splittable(bytes@, point as int) == last_splittable(bytes@, candidate as int),
        decreases point,
    {
        if point == len {
            return point;
        }
        if cut_between(bytes[point - 1], bytes[point]) {
            return point;
        }
        point = point - 1;
    }
    candidate
}

/// A chunk of text: the bytes of up to about `MAX_BYTES` bytes of a text.
///
/// The base metric of a tree of chunks counts bytes and cuts between any
/// two of them. Text is cut at byte offsets with `ByteMetric`, which cuts
/// inside no character and inside no pair of carriage return and line feed.
#[derive(Debug, PartialEq, Eq, Default)]
pub struct RopeChunk<const MAX_BYTES: usize> {
    pub bytes: Vec<u8>,
}

impl<const MAX_BYTES: usize> Clone for RopeChunk<MAX_BYTES> {
    fn clone(&self) -> (r: Self)
        ensures
            r.bytes@ == self.bytes@,
    {
        RopeChunk { bytes: slice_to_vec(self.bytes.as_slice()) }
    }
}

impl<const MAX_BYTES: usize> RopeChunk<MAX_BYTES> {
    /// The number of bytes over which a chunk is split in two.
    pub fn max_bytes() -> (r: usize)
        ensures
            r == MAX_BYTES,
    {
        MAX_BYTES
    }
}

impl<const MAX_BYTES: usize> Leaf for RopeChunk<MAX_BYTES> {
    type Summary = ChunkSummary;

    type Unit = u8;

    type Slice = [u8];

    open spec fn slice_content(s: &[u8]) -> Seq<u8> {
        s@
    }

    open spec fn content(&self) -> Seq<u8> {
        self.bytes@
    }

    open spec fn summary_of(c: Seq<u8>) -> ChunkSummary {
        summary_of_bytes(c)
    }

    open spec fn fits(c: Seq<u8>) -> bool {
        c.len() <= usize::MAX
    }

    open spec fn spec_base(s: ChunkSummary) -> usize {
        s.bytes
    }

    /// A chunk is big enough with half of `MAX_BYTES` bytes.
    open spec fn big_enough(c: Seq<u8>) -> bool {
        c.len() >= MAX_BYTES / 2
    }

    /// One chunk where the bytes of the two fit in one; else two chunks,
    /// split as near to the middle of their bytes as a chunk may be split.
    open spec fn balanced(first: Seq<u8>, second: Seq<u8>) -> Seq<Seq<u8>> {
        let whole = first + second;
        if whole.len() <= MAX_BYTES || whole.len() < 2 {
            seq![whole]
        } else {
            let at = spec_split_point(whole, (whole.len() / 2) as int);
            seq![whole.take(at), whole.skip(at)]
        }
    }

    proof fn lemma_empty() {
    }

    proof fn lemma_concat(a: Seq<u8>, b: Seq<u8>) {
        lemma_count_lf(a, b);
    }

    proof fn lemma_fits_concat(a: Seq<u8>, b: Seq<u8>) {
    }

    proof fn lemma_base(c: Seq<u8>) {
    }

    proof fn lemma_leaf_fits(&self) {
        assert(self.bytes@.len() == self.bytes.len());
    }

    proof fn lemma_slice_fits(s: &[u8]) {
        assert(s@.len() == s.len());
    }

    fn summarize(&self) -> (r: ChunkSummary) {
        summarize_bytes(self.bytes.as_slice())
    }

    fn as_slice(&self) -> (r: &[u8]) {
        self.bytes.as_slice()
    }

    fn from_slice(s: &[u8]) -> (r: Self) {
        RopeChunk { bytes: slice_to_vec(s) }
    }

    fn empty_slice<'a>() -> (r: &'a [u8]) {
        let r: &'a [u8] = "".as_bytes();
        proof {
            reveal_strlit("");
            assert(""@ =~= Seq::<char>::empty());
            assert(r@ =~= Seq::<u8>::empty());
        }
        r
    }

    fn base_measure(s: &ChunkSummary) -> (r: usize) {
        s.bytes
    }

    fn slice_range<'a>(s: &'a [u8], start: usize, end: usize, summary: &ChunkSummary) -> (r: (
        &'a [u8],
        ChunkSummary,
    )) {
        let part = slice_subrange(s, start, end);
        (part, summarize_bytes(part))
    }

    fn is_big_enough(&self) -> (r: bool) {
        self.bytes.len() >= MAX_BYTES / 2
    }

    /// One chunk where the two slices fit in one; else two chunks, split as
    /// near to the middle of their bytes as a chunk may be split.
    fn balance_slices(first: &[u8], second: &[u8]) -> (r: (Self, Option<Self>)) {
        let mut bytes = slice_to_vec(first);
        let mut tail = slice_to_vec(second);
        bytes.append(&mut tail);
        let len = bytes.len();
        if len <= MAX_BYTES || len < 2 {
            proof {
                assert(bytes@ + Seq::<u8>::empty() =~= bytes@);
            }
            (RopeChunk { bytes }, None)
        } else {
            let ghost whole = bytes@;
            let at = split_point(bytes.as_slice(), len / 2);
            let rest = bytes.split_off(at);
            proof {
                assert(bytes@ + rest@ =~= whole);
                assert(bytes@ =~= whole.take(at as int));
                assert(rest@ =~= whole.skip(at as int));
            }
            (RopeChunk { bytes }, Some(RopeChunk { bytes: rest }))
        }
    }
}

impl<const MAX_BYTES: usize> ReplaceableLeaf for RopeChunk<MAX_BYTES> {
    /// Replaces a range of the bytes of the chunk. A chunk that comes to
    /// hold more than `MAX_BYTES` bytes keeps its start, up to the last
    /// offset within `MAX_BYTES` at which it may be split, and hands back the
    /// rest.
    fn replace(&mut self, start: usize, end: usize, with: &[u8]) -> (extra: Option<Self>) {
        let ghost before = self.bytes@;
        let len = self.bytes.len();
        let mut bytes = slice_to_vec(slice_subrange(self.bytes.as_slice(), 0, start));
        let mut new = slice_to_vec(with);
        let mut tail = slice_to_vec(slice_subrange(self.bytes.as_slice(), end, len));
        bytes.append(&mut new);
        bytes.append(&mut tail);
        if bytes.len() <= MAX_BYTES || MAX_BYTES == 0 {
            self.bytes = bytes;
            proof {
                assert(self.bytes@ + Seq::<u8>::empty() =~= self.bytes@);
            }
            None
        } else {
            let ghost whole = bytes@;
            let at = split_point(bytes.as_slice(), MAX_BYTES);
            let rest = bytes.split_off(at);
            self.bytes = bytes;
            proof {
                assert(self.bytes@ + rest@ =~= whole);
            }
            Some(RopeChunk { bytes: rest })
        }
    }
}

/// The metric that counts line feeds. The cut for an offset lies right
/// after that many line feeds.
pub struct LineMetric;

/// The offset right after the first `at` line feeds of some bytes.
pub open spec fn after_lf(c: Seq<u8>, at: nat) -> nat
    decreases c.len(),
{
    if at == 0 || c.len() == 0 {
        0
    } else if c[0] == LF {
        1 + after_lf(c.drop_first(), (at - 1) as nat)
    } else {
        1 + after_lf(c.drop_first(), at)
    }
}

/// The line feeds of some bytes are that of the first byte and those of
/// the rest.
pub proof fn lemma_count_lf_first(c: Seq<u8>)
    requires
        c.len() > 0,
    ensures
        count_lf(c) == count_lf(c.drop_first()) + if c[0] == LF {
            1nat
        } else {
            0nat
        },
{
    let head = seq![c[0]];
    assert(c =~= head + c.drop_first());
    lemma_count_lf(head, c.drop_first());
    assert(head.drop_last() =~= Seq::<u8>::empty());
    assert(count_lf(head) == if c[0] == LF {
        1nat
    } else {
        0nat
    }) by {
        reveal_with_fuel(count_lf, 2);
    }
}

/// The cut for an offset lies in the bytes and has that many line feeds
/// before it.
pub proof fn lemma_after_lf(c: Seq<u8>, at: nat)
    requires
        at <= count_lf(c),
    ensures
        after_lf(c, at) <= c.len(),
        count_lf(c.take(after_lf(c, at) as int)) == at,
    decreases c.len(),
{
    if at == 0 || c.len() == 0 {
        assert(c.take(0) =~= Seq::<u8>::empty());
    } else {
        lemma_count_lf_first(c);
        let rest = c.drop_first();
        let left = if c[0] == LF {
            (at - 1) as nat
        } else {
            at
        };
        lemma_after_lf(rest, left);
        let cut = after_lf(c, at) as int;
        let taken = c.take(cut);
        assert(taken.drop_first() =~= rest.take(cut - 1));
        lemma_count_lf_first(taken);
    }
}

/// A cut falls in the first of two parts when that part has enough line
/// feeds, and otherwise in the second.
pub proof fn lemma_after_lf_concat(a: Seq<u8>, b: Seq<u8>, at: nat)
    requires
        at <= count_lf(a + b),
    ensures
        at <= count_lf(a) ==> after_lf(a + b, at) == after_lf(a, at),
        at > count_lf(a) ==> after_lf(a + b, at) == a.len() + after_lf(
            b,
            (at - count_lf(a)) as nat,
        ),
    decreases a.len(),
{
    lemma_count_lf(a, b);
    if a.len() == 0 {
        assert(a + b =~= b);
    } else if at == 0 {
    } else {
        lemma_count_lf_first(a);
        lemma_count_lf_first(a + b);
        let left = if a[0] == LF {
            (at - 1) as nat
        } else {
            at
        };
        assert((a + b).drop_first() =~= a.drop_first() + b);
        lemma_after_lf_concat(a.drop_first(), b, left);
    }
}

/// The cut for a smaller offset does not lie after the cut for a greater
/// one.
pub proof fn lemma_after_lf_monotone(c: Seq<u8>, a: nat, b: nat)
    requires
        a <= b,
    ensures
        after_lf(c, a) <= after_lf(c, b),
    decreases c.len(),
{
    if a == 0 || c.len() == 0 {
    } else if c[0] == LF {
        lemma_after_lf_monotone(c.drop_first(), (a - 1) as nat, (b - 1) as nat);
    } else {
        lemma_after_lf_monotone(c.drop_first(), a, b);
    }
}

/// The offset right after the first `at` line feeds of a slice of bytes.
pub fn offset_after_lf(s: &[u8], at: usize) -> (r: usize)
    requires
        at <= count_lf(s@),
    ensures
        r == after_lf(s@, at as nat),
        r <= s@.len(),
{
    let len = s.len();
    let mut seen: usize = 0;
    let mut pos: usize = 0;
    proof {
        lemma_after_lf(s@, at as nat);
        assert(s@.skip(0) =~= s@);
    }
    while seen < at
        invariant
            0 <= pos <= len == s@.len(),
            seen <= at,
            at - seen <= count_lf(s@.skip(pos as int)),
            after_lf(s@, at as nat) == pos + after_lf(s@.skip(pos as int), (at - seen) as nat),
        decreases len - pos,
    {
        proof {
            let rest = s@.skip(pos as int);
            if rest.len() == 0 {
                assert(count_lf(rest) == 0);
            }
            lemma_count_lf_first(rest);
            assert(rest.drop_first() =~= s@.skip(pos + 1));
            assert(rest[0] == s@[pos as int]);
        }
        if s[pos] == LF {
            seen = seen + 1;
        }
        pos = pos + 1;
    }
    pos
}

impl<const MAX_BYTES: usize> Metric<RopeChunk<MAX_BYTES>> for LineMetric {
    open spec fn spec_measure(s: ChunkSummary) -> usize {
        s.line_breaks
    }

    proof fn lemma_measure_concat(a: Seq<u8>, b: Seq<u8>) {
        lemma_count_lf(a, b);
        lemma_count_lf(a + b, Seq::empty());
    }

    fn measure(s: &ChunkSummary) -> (r: usize) {
        s.line_breaks
    }
}

impl<const MAX_BYTES: usize> SlicingMetric<RopeChunk<MAX_BYTES>> for LineMetric {
    open spec fn spec_cut(c: Seq<u8>, at: usize) -> nat {
        after_lf(c, at as nat)
    }

    /// The line metric cuts after any line feed, whatever follows it.
    open spec fn spec_seam(a: Seq<u8>, b: Seq<u8>) -> bool {
        true
    }

    /// The line metric moves no cut.
    open spec fn spec_moved(c: Seq<u8>, at: usize) -> bool {
        false
    }

    proof fn lemma_cut(c: Seq<u8>, at: usize) {
        lemma_count_lf(c, Seq::empty());
        lemma_after_lf(c, at as nat);
        let cut = after_lf(c, at as nat) as int;
        assert(c.subrange(0, cut) =~= c.take(cut));
        lemma_count_lf(c.take(cut), Seq::empty());
    }

    proof fn lemma_cut_order(c: Seq<u8>, a: usize, b: usize) {
        lemma_count_lf(c, Seq::empty());
        lemma_after_lf_monotone(c, a as nat, b as nat);
    }

    proof fn lemma_seam(x: Seq<u8>, a: Seq<u8>, b: Seq<u8>, y: Seq<u8>) {
    }

    proof fn lemma_cut_concat(a: Seq<u8>, b: Seq<u8>, at: usize) {
        lemma_count_lf(a, b);
        lemma_count_lf(a + b, Seq::empty());
        lemma_after_lf_concat(a, b, at as nat);
    }

    fn slice<'a>(s: &'a [u8], start: usize, end: usize, summary: &ChunkSummary) -> (r: (
        &'a [u8],
        ChunkSummary,
    )) {
        proof {
            lemma_count_lf(s@, Seq::empty());
            lemma_after_lf_monotone(s@, start as nat, end as nat);
        }
        let from = offset_after_lf(s, start);
        let to = offset_after_lf(s, end);
        let part = slice_subrange(s, from, to);
        (part, summarize_bytes(part))
    }

    fn split_left<'a>(s: &'a [u8], at: usize, summary: &ChunkSummary) -> (r: (
        &'a [u8],
        ChunkSummary,
        ChunkSummary,
    )) {
        proof {
            lemma_count_lf(s@, Seq::empty());
        }
        let (left, head, _, tail) = split_bytes(s, offset_after_lf(s, at), summary);
        (left, head, tail)
    }

    fn split_right<'a>(s: &'a [u8], at: usize, summary: &ChunkSummary) -> (r: (
        ChunkSummary,
        &'a [u8],
        ChunkSummary,
    )) {
        proof {
            lemma_count_lf(s@, Seq::empty());
        }
        let (_, head, right, tail) = split_bytes(s, offset_after_lf(s, at), summary);
        (head, right, tail)
    }
}

} // verus!
