//! The contracts a tree consumes: summaries, leaves and the metrics that
//! measure them.
//!
//! The mathematical model of a leaf is its *content*: a sequence of units.
//! A summary is a statistic of a content that is additive over
//! concatenation, and a metric reads one scalar out of a summary. The base
//! measure of a content is its length.
use vstd::prelude::*;

verus! {

/// An aggregable statistic with an additive identity, closed under
/// addition and subtraction.
pub trait Summary: Sized + Copy {
    /// The additive identity.
    spec fn spec_zero() -> Self;

    /// The sum of two summaries.
    spec fn spec_add(self, other: Self) -> Self;

    /// Whether the sum of two summaries is representable.
    spec fn can_add(self, other: Self) -> bool;

    /// What is left of a summary when another is taken from it.
    spec fn spec_sub(self, other: Self) -> Self;

    /// Whether a summary can be taken from this one.
    spec fn can_sub(self, other: Self) -> bool;

    /// Subtraction undoes addition: what was added to a summary can be
    /// taken from the sum, and leaves the summary.
    proof fn lemma_sub(self, other: Self)
        requires
            self.can_add(other),
        ensures
            self.spec_add(other).can_sub(other),
            self.spec_add(other).spec_sub(other) == self,
    ;

    /// The additive identity.
    fn zero() -> (r: Self)
        ensures
            r == Self::spec_zero(),
    ;

    /// The sum of two summaries.
    fn add(&self, other: &Self) -> (r: Self)
        requires
            self.can_add(*other),
        ensures
            r == self.spec_add(*other),
    ;

    /// Whether the sum of two summaries is representable.
    fn addable(&self, other: &Self) -> (r: bool)
        ensures
            r == self.can_add(*other),
    ;

    /// What is left of this summary when another is taken from it.
    fn sub(&self, other: &Self) -> (r: Self)
        requires
            self.can_sub(*other),
        ensures
            r == self.spec_sub(*other),
    ;

    /// Structural equality of two summaries.
    fn same(&self, other: &Self) -> (r: bool)
        ensures
            r == (*self == *other),
    ;
}

/// The payload stored at the leaves of a tree.
pub trait Leaf: Sized {
    type Summary: Summary;

    /// One unit of content; the base metric counts these.
    type Unit;

    /// A borrowed part of a leaf.
    type Slice: ?Sized;

    /// The units a slice holds.
    spec fn slice_content(s: &Self::Slice) -> Seq<Self::Unit>;

    /// The units a leaf holds.
    spec fn content(&self) -> Seq<Self::Unit>;

    /// The summary of a content.
    spec fn summary_of(c: Seq<Self::Unit>) -> Self::Summary;

    /// Whether the summary of a content is representable.
    spec fn fits(c: Seq<Self::Unit>) -> bool;

    /// The base measure recorded in a summary.
    spec fn spec_base(s: Self::Summary) -> usize;

    /// The size policy of the leaf type: whether a leaf with this content
    /// is big enough to stand among neighbours.
    spec fn big_enough(c: Seq<Self::Unit>) -> bool;

    /// The size policy of the leaf type: the content of the one leaf, or of
    /// the two, over which the content of two adjacent leaves is spread when
    /// they are balanced.
    spec fn balanced(first: Seq<Self::Unit>, second: Seq<Self::Unit>) -> Seq<Seq<Self::Unit>>;

    /// The empty content fits and its summary is the identity.
    proof fn lemma_empty()
        ensures
            Self::fits(Seq::empty()),
            Self::summary_of(Seq::empty()) == <Self::Summary as Summary>::spec_zero(),
    ;

    /// Summaries are additive over concatenation, and every part of a
    /// content that fits does fit.
    proof fn lemma_concat(a: Seq<Self::Unit>, b: Seq<Self::Unit>)
        requires
            Self::fits(a + b),
        ensures
            Self::fits(a),
            Self::fits(b),
            Self::summary_of(a).can_add(Self::summary_of(b)),
            Self::summary_of(a).spec_add(Self::summary_of(b)) == Self::summary_of(a + b),
    ;

    /// Two contents that fit and whose summaries can be added fit together.
    proof fn lemma_fits_concat(a: Seq<Self::Unit>, b: Seq<Self::Unit>)
        requires
            Self::fits(a),
            Self::fits(b),
            Self::summary_of(a).can_add(Self::summary_of(b)),
        ensures
            Self::fits(a + b),
    ;

    /// The base measure of a content is its length.
    proof fn lemma_base(c: Seq<Self::Unit>)
        requires
            Self::fits(c),
        ensures
            Self::spec_base(Self::summary_of(c)) == c.len(),
    ;

    /// Whatever a leaf holds fits.
    proof fn lemma_leaf_fits(&self)
        ensures
            Self::fits(self.content()),
    ;

    /// Whatever a slice holds fits.
    proof fn lemma_slice_fits(s: &Self::Slice)
        ensures
            Self::fits(Self::slice_content(s)),
    ;

    /// The summary of the leaf.
    fn summarize(&self) -> (r: Self::Summary)
        ensures
            r == Self::summary_of(self.content()),
    ;

    /// All of the leaf, as a slice.
    fn as_slice(&self) -> (r: &Self::Slice)
        ensures
            Self::slice_content(r) == self.content(),
    ;

    /// An owned leaf with the content of a slice.
    fn from_slice(s: &Self::Slice) -> (r: Self)
        ensures
            r.content() == Self::slice_content(s),
    ;

    /// The slice without content.
    fn empty_slice<'a>() -> (r: &'a Self::Slice)
        ensures
            Self::slice_content(r) == Seq::<Self::Unit>::empty(),
    ;

    /// The base measure recorded in a summary.
    fn base_measure(s: &Self::Summary) -> (r: usize)
        ensures
            r == Self::spec_base(*s),
    ;

    /// The part of `s` between two base offsets, with its summary.
    fn slice_range<'a>(s: &'a Self::Slice, start: usize, end: usize, summary: &Self::Summary) -> (r: (
        &'a Self::Slice,
        Self::Summary,
    ))
        requires
            start <= end <= Self::slice_content(s).len(),
            *summary == Self::summary_of(Self::slice_content(s)),
        ensures
            Self::slice_content(r.0) == Self::slice_content(s).subrange(start as int, end as int),
            r.1 == Self::summary_of(Self::slice_content(r.0)),
    ;

    /// Whether the leaf is as big as the size policy of its type asks of a
    /// leaf that has neighbours.
    fn is_big_enough(&self) -> (r: bool)
        ensures
            r == Self::big_enough(self.content()),
    ;

    /// Redistributes the content of two adjacent slices over one or two
    /// leaves, as the leaf's own size policy sees fit.
    fn balance_slices(first: &Self::Slice, second: &Self::Slice) -> (r: (Self, Option<Self>))
        ensures
            r.0.content() + (match r.1 {
                Some(l) => l.content(),
                None => Seq::empty(),
            }) == Self::slice_content(first) + Self::slice_content(second),
            (match r.1 {
                Some(l) => seq![r.0.content(), l.content()],
                None => seq![r.0.content()],
            }) == Self::balanced(Self::slice_content(first), Self::slice_content(second)),
    ;
}

/// A leaf that can overwrite a range of its own content.
pub trait ReplaceableLeaf: Leaf {
    /// Replaces the units between two base offsets with the content of
    /// `with`. When the result outgrows the leaf, the excess comes back as a
    /// second leaf that follows this one.
    fn replace(&mut self, start: usize, end: usize, with: &Self::Slice) -> (extra: Option<Self>)
        requires
            start <= end <= old(self).content().len(),
        ensures
            final(self).content() + (match extra {
                Some(l) => l.content(),
                None => Seq::empty(),
            }) == old(self).content().subrange(0, start as int) + Self::slice_content(with) + old(
                self,
            ).content().subrange(end as int, old(self).content().len() as int),
    ;
}

/// A coordinate system over the leaves of type `L`: a scalar read out of a
/// summary.
pub trait Metric<L: Leaf> {
    /// The measure recorded in a summary.
    spec fn spec_measure(s: L::Summary) -> usize;

    /// Measures are additive over concatenation.
    proof fn lemma_measure_concat(a: Seq<L::Unit>, b: Seq<L::Unit>)
        requires
            L::fits(a + b),
        ensures
            Self::spec_measure(L::summary_of(a + b)) == Self::spec_measure(L::summary_of(a))
                + Self::spec_measure(L::summary_of(b)),
    ;

    /// The measure recorded in a summary.
    fn measure(s: &L::Summary) -> (r: usize)
        ensures
            r == Self::spec_measure(*s),
    ;
}

/// A metric that can cut a slice at one of its own offsets.
///
/// A metric may keep units together that belong together, and move a cut
/// that would part them. Such a metric cuts a content by cutting its parts
/// only where the parts meet at a *seam*: a place at which it would cut.
pub trait SlicingMetric<L: Leaf>: Metric<L> {
    /// The base offset at which the content is cut for the offset `at` of
    /// this metric.
    spec fn spec_cut(c: Seq<L::Unit>, at: usize) -> nat;

    /// Whether this metric would cut between `a` and `b` where they stand
    /// one after the other: whether it keeps nothing together that ends `a`
    /// and starts `b`.
    spec fn spec_seam(a: Seq<L::Unit>, b: Seq<L::Unit>) -> bool;

    /// Whether this metric moves the cut for the offset `at` away from the
    /// place that has exactly `at` of its units to the left, to keep together
    /// what belongs together.
    spec fn spec_moved(c: Seq<L::Unit>, at: usize) -> bool;

    /// A cut lies inside the content, at a seam, and leaves exactly `at`
    /// units of this metric to its left unless the metric moves it.
    proof fn lemma_cut(c: Seq<L::Unit>, at: usize)
        requires
            L::fits(c),
            at <= Self::spec_measure(L::summary_of(c)),
        ensures
            Self::spec_cut(c, at) <= c.len(),
            Self::spec_seam(
                c.subrange(0, Self::spec_cut(c, at) as int),
                c.subrange(Self::spec_cut(c, at) as int, c.len() as int),
            ),
            !Self::spec_moved(c, at) ==> Self::spec_measure(
                L::summary_of(c.subrange(0, Self::spec_cut(c, at) as int)),
            ) == at,
    ;

    /// The cut for a smaller offset does not lie after the cut for a
    /// greater one.
    proof fn lemma_cut_order(c: Seq<L::Unit>, a: usize, b: usize)
        requires
            L::fits(c),
            a <= b <= Self::spec_measure(L::summary_of(c)),
        ensures
            Self::spec_cut(c, a) <= Self::spec_cut(c, b),
    ;

    /// The two ends of a content are seams, and a seam of a content is a
    /// seam of what stands right before it and right after it.
    proof fn lemma_seam(x: Seq<L::Unit>, a: Seq<L::Unit>, b: Seq<L::Unit>, y: Seq<L::Unit>)
        ensures
            Self::spec_seam(Seq::empty(), a),
            Self::spec_seam(a, Seq::empty()),
            Self::spec_seam(x + a, b + y) ==> Self::spec_seam(a, b),
    ;

    /// A cut is local where two parts meet at a seam: it falls in the
    /// first of the two when that part measures at least `at`, and otherwise
    /// in the second.
    proof fn lemma_cut_concat(a: Seq<L::Unit>, b: Seq<L::Unit>, at: usize)
        requires
            L::fits(a + b),
            at <= Self::spec_measure(L::summary_of(a + b)),
            Self::spec_seam(a, b),
        ensures
            at <= Self::spec_measure(L::summary_of(a)) ==> Self::spec_cut(a + b, at)
                == Self::spec_cut(a, at),
            at > Self::spec_measure(L::summary_of(a)) ==> Self::spec_cut(a + b, at) == a.len()
                + Self::spec_cut(
                b,
                (at - Self::spec_measure(L::summary_of(a))) as usize,
            ),
    ;

    /// The part of `s` between the cuts for two offsets, with its summary.
    fn slice<'a>(s: &'a L::Slice, start: usize, end: usize, summary: &L::Summary) -> (r: (
        &'a L::Slice,
        L::Summary,
    ))
        requires
            *summary == L::summary_of(L::slice_content(s)),
            start <= end <= Self::spec_measure(*summary),
        ensures
            L::slice_content(r.0) == L::slice_content(s).subrange(
                Self::spec_cut(L::slice_content(s), start) as int,
                Self::spec_cut(L::slice_content(s), end) as int,
            ),
            r.1 == L::summary_of(L::slice_content(r.0)),
    ;

    /// The part of `s` to the left of the cut for `at`, with its summary,
    /// and the summary of the rest.
    fn split_left<'a>(s: &'a L::Slice, at: usize, summary: &L::Summary) -> (r: (
        &'a L::Slice,
        L::Summary,
        L::Summary,
    ))
        requires
            *summary == L::summary_of(L::slice_content(s)),
            at <= Self::spec_measure(*summary),
        ensures
            L::slice_content(r.0) == L::slice_content(s).subrange(
                0,
                Self::spec_cut(L::slice_content(s), at) as int,
            ),
            r.1 == L::summary_of(L::slice_content(r.0)),
            r.2 == L::summary_of(
                L::slice_content(s).subrange(
                    Self::spec_cut(L::slice_content(s), at) as int,
                    L::slice_content(s).len() as int,
                ),
            ),
    ;

    /// The summary of the part of `s` to the left of the cut for `at`, and
    /// the part to its right with its summary.
    fn split_right<'a>(s: &'a L::Slice, at: usize, summary: &L::Summary) -> (r: (
        L::Summary,
        &'a L::Slice,
        L::Summary,
    ))
        requires
            *summary == L::summary_of(L::slice_content(s)),
            at <= Self::spec_measure(*summary),
        ensures
            r.0 == L::summary_of(
                L::slice_content(s).subrange(0, Self::spec_cut(L::slice_content(s), at) as int),
            ),
            L::slice_content(r.1) == L::slice_content(s).subrange(
                Self::spec_cut(L::slice_content(s), at) as int,
                L::slice_content(s).len() as int,
            ),
            r.2 == L::summary_of(L::slice_content(r.1)),
    ;
}

/// The metric that counts units of content. Every leaf type has it.
pub struct BaseMetric;

impl<L: Leaf> Metric<L> for BaseMetric {
    open spec fn spec_measure(s: L::Summary) -> usize {
        L::spec_base(s)
    }

    proof fn lemma_measure_concat(a: Seq<L::Unit>, b: Seq<L::Unit>) {
        L::lemma_concat(a, b);
        L::lemma_base(a);
        L::lemma_base(b);
        L::lemma_base(a + b);
    }

    fn measure(s: &L::Summary) -> (r: usize) {
        L::base_measure(s)
    }
}

impl<L: Leaf> SlicingMetric<L> for BaseMetric {
    open spec fn spec_cut(c: Seq<L::Unit>, at: usize) -> nat {
        at as nat
    }

    /// The base metric cuts between any two units.
    open spec fn spec_seam(a: Seq<L::Unit>, b: Seq<L::Unit>) -> bool {
        true
    }

    /// The base metric moves no cut.
    open spec fn spec_moved(c: Seq<L::Unit>, at: usize) -> bool {
        false
    }

    proof fn lemma_cut(c: Seq<L::Unit>, at: usize) {
        L::lemma_base(c);
        let left = c.subrange(0, at as int);
        let right = c.subrange(at as int, c.len() as int);
        assert(left + right =~= c);
        L::lemma_concat(left, right);
        L::lemma_base(left);
    }

    proof fn lemma_cut_order(c: Seq<L::Unit>, a: usize, b: usize) {
    }

    proof fn lemma_seam(x: Seq<L::Unit>, a: Seq<L::Unit>, b: Seq<L::Unit>, y: Seq<L::Unit>) {
    }

    proof fn lemma_cut_concat(a: Seq<L::Unit>, b: Seq<L::Unit>, at: usize) {
        L::lemma_concat(a, b);
        L::lemma_base(a);
    }

    fn slice<'a>(s: &'a L::Slice, start: usize, end: usize, summary: &L::Summary) -> (r: (
        &'a L::Slice,
        L::Summary,
    )) {
        proof {
            L::lemma_slice_fits(s);
            L::lemma_base(L::slice_content(s));
        }
        L::slice_range(s, start, end, summary)
    }

    fn split_left<'a>(s: &'a L::Slice, at: usize, summary: &L::Summary) -> (r: (
        &'a L::Slice,
        L::Summary,
        L::Summary,
    )) {
        proof {
            L::lemma_slice_fits(s);
            L::lemma_base(L::slice_content(s));
        }
        let len = L::base_measure(summary);
        let (left, left_summary) = L::slice_range(s, 0, at, summary);
        let (_, right_summary) = L::slice_range(s, at, len, summary);
        (left, left_summary, right_summary)
    }

    fn split_right<'a>(s: &'a L::Slice, at: usize, summary: &L::Summary) -> (r: (
        L::Summary,
        &'a L::Slice,
        L::Summary,
    )) {
        proof {
            L::lemma_slice_fits(s);
            L::lemma_base(L::slice_content(s));
        }
        let len = L::base_measure(summary);
        let (_, left_summary) = L::slice_range(s, 0, at, summary);
        let (right, right_summary) = L::slice_range(s, at, len, summary);
        (left_summary, right, right_summary)
    }
}

} // verus!
