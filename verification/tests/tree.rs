use crop::tree::{BaseMetric, Leaf, Metric, ReplaceableLeaf, SlicingMetric, Summary, Tree};
use vstd::seq::Seq;

/// The most units a leaf of the tests holds after an edit.
const CAPACITY: usize = 4;

#[derive(Copy, Clone, Default, Debug, Eq, PartialEq)]
pub struct Count {
    count: usize,
    leaves: usize,
    breaks: usize,
}

impl Summary for Count {
    fn spec_zero() -> Self {
        unreachable!()
    }

    fn spec_add(self, _other: Self) -> Self {
        unreachable!()
    }

    fn can_add(self, _other: Self) -> bool {
        unreachable!()
    }

    fn spec_sub(self, _other: Self) -> Self {
        unreachable!()
    }

    fn can_sub(self, _other: Self) -> bool {
        unreachable!()
    }

    fn lemma_sub(self, _other: Self) {
        unreachable!()
    }

    fn zero() -> Self {
        Count::default()
    }

    fn sub(&self, other: &Self) -> Self {
        Count {
            count: self.count - other.count,
            leaves: self.leaves - other.leaves,
            breaks: self.breaks - other.breaks,
        }
    }

    fn add(&self, other: &Self) -> Self {
        Count {
            count: self.count + other.count,
            leaves: self.leaves + other.leaves,
            breaks: self.breaks + other.breaks,
        }
    }

    fn addable(&self, other: &Self) -> bool {
        self.count.checked_add(other.count).is_some()
            && self.leaves.checked_add(other.leaves).is_some()
            && self.breaks.checked_add(other.breaks).is_some()
    }

    fn same(&self, other: &Self) -> bool {
        self == other
    }
}

/// A leaf that holds a few numbers. A number that five divides is a break.
#[derive(Clone, Default, Debug, Eq, PartialEq)]
pub struct Nums(Vec<usize>);

fn count_of(units: &[usize]) -> Count {
    Count {
        count: units.iter().sum(),
        leaves: units.len(),
        breaks: units.iter().filter(|u| **u % 5 == 0).count(),
    }
}

impl Leaf for Nums {
    type Summary = Count;
    type Unit = usize;
    type Slice = [usize];

    fn slice_content(_s: &[usize]) -> Seq<usize> {
        unreachable!()
    }

    fn content(&self) -> Seq<usize> {
        unreachable!()
    }

    fn summary_of(_c: Seq<usize>) -> Count {
        unreachable!()
    }

    fn fits(_c: Seq<usize>) -> bool {
        unreachable!()
    }

    fn spec_base(_s: Count) -> usize {
        unreachable!()
    }

    fn big_enough(_c: Seq<usize>) -> bool {
        unreachable!()
    }

    fn balanced(_first: Seq<usize>, _second: Seq<usize>) -> Seq<Seq<usize>> {
        unreachable!()
    }

    fn lemma_empty() {
        unreachable!()
    }

    fn lemma_concat(_a: Seq<usize>, _b: Seq<usize>) {
        unreachable!()
    }

    fn lemma_fits_concat(_a: Seq<usize>, _b: Seq<usize>) {
        unreachable!()
    }

    fn lemma_base(_c: Seq<usize>) {
        unreachable!()
    }

    fn lemma_leaf_fits(&self) {
        unreachable!()
    }

    fn lemma_slice_fits(_s: &[usize]) {
        unreachable!()
    }

    fn summarize(&self) -> Count {
        count_of(&self.0)
    }

    fn as_slice(&self) -> &[usize] {
        &self.0
    }

    fn from_slice(s: &[usize]) -> Self {
        Nums(s.to_vec())
    }

    fn empty_slice<'a>() -> &'a [usize] {
        &[]
    }

    fn base_measure(s: &Count) -> usize {
        s.leaves
    }

    fn slice_range<'a>(
        s: &'a [usize],
        start: usize,
        end: usize,
        _summary: &Count,
    ) -> (&'a [usize], Count) {
        let part = &s[start..end];
        (part, count_of(part))
    }

    fn is_big_enough(&self) -> bool {
        self.0.len() >= CAPACITY / 2
    }

    fn balance_slices(first: &[usize], second: &[usize]) -> (Self, Option<Self>) {
        if first.len() + second.len() <= CAPACITY {
            let mut all = first.to_vec();
            all.extend_from_slice(second);
            (Nums(all), None)
        } else {
            (Nums(first.to_vec()), Some(Nums(second.to_vec())))
        }
    }
}

impl ReplaceableLeaf for Nums {
    fn replace(&mut self, start: usize, end: usize, with: &[usize]) -> Option<Self> {
        self.0.splice(start..end, with.iter().copied());
        if self.0.len() > CAPACITY {
            Some(Nums(self.0.split_off(CAPACITY)))
        } else {
            None
        }
    }
}

/// Counts the breaks. The cut for an offset lies right after that many
/// breaks.
pub struct BreakMetric;

fn after_breaks(s: &[usize], at: usize) -> usize {
    let mut seen = 0;
    let mut pos = 0;
    while seen < at {
        if s[pos] % 5 == 0 {
            seen += 1;
        }
        pos += 1;
    }
    pos
}

impl Metric<Nums> for BreakMetric {
    fn spec_measure(_s: Count) -> usize {
        unreachable!()
    }

    fn lemma_measure_concat(_a: Seq<usize>, _b: Seq<usize>) {
        unreachable!()
    }

    fn measure(s: &Count) -> usize {
        s.breaks
    }
}

impl SlicingMetric<Nums> for BreakMetric {
    fn spec_cut(_c: Seq<usize>, _at: usize) -> vstd::prelude::nat {
        unreachable!()
    }

    fn spec_seam(_a: Seq<usize>, _b: Seq<usize>) -> bool {
        unreachable!()
    }

    fn spec_moved(_c: Seq<usize>, _at: usize) -> bool {
        unreachable!()
    }

    fn lemma_cut(_c: Seq<usize>, _at: usize) {
        unreachable!()
    }

    fn lemma_cut_order(_c: Seq<usize>, _a: usize, _b: usize) {
        unreachable!()
    }

    fn lemma_seam(_x: Seq<usize>, _a: Seq<usize>, _b: Seq<usize>, _y: Seq<usize>) {
        unreachable!()
    }

    fn lemma_cut_concat(_a: Seq<usize>, _b: Seq<usize>, _at: usize) {
        unreachable!()
    }

    fn slice<'a>(s: &'a [usize], start: usize, end: usize, _summary: &Count) -> (&'a [usize], Count) {
        let part = &s[after_breaks(s, start)..after_breaks(s, end)];
        (part, count_of(part))
    }

    fn split_left<'a>(s: &'a [usize], at: usize, _summary: &Count) -> (&'a [usize], Count, Count) {
        let (left, right) = s.split_at(after_breaks(s, at));
        (left, count_of(left), count_of(right))
    }

    fn split_right<'a>(s: &'a [usize], at: usize, _summary: &Count) -> (Count, &'a [usize], Count) {
        let (left, right) = s.split_at(after_breaks(s, at));
        (count_of(left), right, count_of(right))
    }
}

type Toy = Tree<4, Nums>;

fn singles(range: std::ops::Range<usize>) -> Vec<Nums> {
    range.map(|v| Nums(vec![v])).collect()
}

fn content(tree: &Toy) -> Vec<usize> {
    let mut all = Vec::new();
    for leaf in tree.leaves() {
        all.extend_from_slice(leaf);
    }
    all
}

fn check(tree: &Toy, expected: &[usize]) {
    assert!(tree.assert_invariants());
    assert_eq!(content(tree), expected);
    assert_eq!(*tree.summary(), count_of(expected));
    assert_eq!(tree.base_measure(), expected.len());
    assert_eq!(tree.leaf_count(), tree.leaves().len());
}

#[test]
fn easy() {
    let tree = Tree::<4, Nums>::from_leaves(singles(0..20));
    assert_eq!(190, tree.summary().count);
}

#[test]
fn from_leaves_counts_leaves() {
    let tree = Toy::from_leaves(singles(0..20));
    assert_eq!(20, tree.leaf_count());
    assert_eq!(20, tree.base_measure());
    assert_eq!(20, tree.measure::<BaseMetric>());
    assert_eq!(4, tree.measure::<BreakMetric>());
    check(&tree, &(0..20).collect::<Vec<_>>());
}

#[test]
fn from_leaves_of_every_size() {
    for n in 1..200 {
        let tree = Toy::from_leaves(singles(0..n));
        assert_eq!(n, tree.leaf_count());
        check(&tree, &(0..n).collect::<Vec<_>>());
    }
}

#[test]
fn from_no_leaves_is_one_empty_leaf() {
    let tree = Toy::from_leaves(Vec::new());
    assert_eq!(1, tree.leaf_count());
    assert_eq!(0, tree.base_measure());
    check(&tree, &[]);
}

#[test]
fn slice_of_leaves_one_to_five() {
    let tree = Toy::from_leaves(singles(0..20));
    let slice = tree.slice::<BaseMetric>(1..5);
    assert_eq!(10, slice.summary().count);
    assert_eq!(4, slice.summary().leaves);
}

#[test]
fn every_slice_holds_its_range() {
    let n = 23;
    let tree = Toy::from_leaves(singles(0..n));
    let all: Vec<usize> = (0..n).collect();
    for start in 0..=n {
        for end in start..=n {
            let slice = tree.slice::<BaseMetric>(start..end);
            assert_eq!(*slice.summary(), count_of(&all[start..end]));
            assert_eq!(slice.base_measure(), end - start);
            assert_eq!(slice.measure::<BreakMetric>(), count_of(&all[start..end]).breaks);
            let mut seen = Vec::new();
            for part in slice.leaves() {
                seen.extend_from_slice(part);
            }
            assert_eq!(seen, &all[start..end]);
            let promoted = Toy::from(slice);
            check(&promoted, &all[start..end]);
            assert_eq!(promoted.base_measure(), end - start);
        }
    }
}

#[test]
fn slices_of_leaves_with_several_units() {
    let leaves = vec![
        Nums(vec![1, 2, 3]),
        Nums(vec![4]),
        Nums(vec![]),
        Nums(vec![5, 6]),
        Nums(vec![7, 8, 9, 10]),
        Nums(vec![11]),
        Nums(vec![12, 13]),
    ];
    let tree = Toy::from_leaves(leaves);
    let all: Vec<usize> = (1..14).collect();
    check(&tree, &all);
    for start in 0..=all.len() {
        for end in start..=all.len() {
            let slice = tree.slice::<BaseMetric>(start..end);
            let promoted = Toy::from(slice);
            check(&promoted, &all[start..end]);
            for inner_start in 0..=(end - start) {
                for inner_end in inner_start..=(end - start) {
                    let inner = slice.slice::<BaseMetric>(inner_start..inner_end);
                    let expected = &all[start + inner_start..start + inner_end];
                    assert_eq!(*inner.summary(), count_of(expected));
                    check(&Toy::from(inner), expected);
                }
            }
        }
    }
}

#[test]
fn full_span_slice_shares_the_root() {
    let tree = Toy::from_leaves(singles(0..20));
    let promoted = Toy::from(tree.slice::<BaseMetric>(0..tree.base_measure()));
    assert!(promoted.shares_root(&tree));
    let part = Toy::from(tree.slice::<BaseMetric>(0..19));
    assert!(!part.shares_root(&tree));
    let copy = tree.clone();
    assert!(copy.shares_root(&tree));
}

#[test]
fn replace_gives_the_spliced_content() {
    let n = 17;
    let all: Vec<usize> = (0..n).collect();
    let new: Vec<Vec<usize>> = vec![vec![100, 101], vec![102], vec![], vec![103, 104, 105], vec![106]];
    for start in 0..=n {
        for end in start..=n {
            for used in 0..=new.len() {
                let mut tree = Toy::from_leaves(singles(0..n));
                let untouched = tree.clone();
                let slices: Vec<&[usize]> = new[..used].iter().map(|v| v.as_slice()).collect();
                tree.replace::<BaseMetric>(start..end, slices);
                let mut expected = all[..start].to_vec();
                for v in &new[..used] {
                    expected.extend_from_slice(v);
                }
                expected.extend_from_slice(&all[end..]);
                check(&tree, &expected);
                check(&untouched, &all);
            }
        }
    }
}

#[test]
fn replacing_nothing_with_nothing_changes_nothing() {
    let all: Vec<usize> = (0..20).collect();
    for at in 0..=20 {
        let mut tree = Toy::from_leaves(singles(0..20));
        let before = *tree.summary();
        tree.replace::<BaseMetric>(at..at, Vec::new());
        check(&tree, &all);
        assert_eq!(before, *tree.summary());
    }
}

#[test]
fn repeated_edits_keep_the_content() {
    let mut tree = Toy::from_leaves(singles(0..8));
    let mut model: Vec<usize> = (0..8).collect();
    let mut seed: usize = 12345;
    for round in 0..300 {
        seed = seed.wrapping_mul(6364136223846793005).wrapping_add(1442695040888963407);
        let len = model.len();
        let start = (seed >> 33) % (len + 1);
        let end = start + (seed >> 17) % (len - start + 1).min(6);
        let fresh: Vec<usize> = (0..(seed >> 7) % 7).map(|k| 1000 + round * 10 + k).collect();
        let pieces: Vec<&[usize]> = fresh.chunks(2).collect();
        tree.replace::<BaseMetric>(start..end, pieces);
        model.splice(start..end, fresh.iter().copied());
        check(&tree, &model);
    }
}

#[test]
fn convert_measure_between_metrics() {
    let tree = Toy::from_leaves(singles(0..20));
    assert_eq!(0, tree.convert_measure::<BreakMetric, BaseMetric>(0));
    assert_eq!(1, tree.convert_measure::<BreakMetric, BaseMetric>(1));
    assert_eq!(6, tree.convert_measure::<BreakMetric, BaseMetric>(2));
    assert_eq!(11, tree.convert_measure::<BreakMetric, BaseMetric>(3));
    assert_eq!(16, tree.convert_measure::<BreakMetric, BaseMetric>(4));
    assert_eq!(0, tree.convert_measure::<BaseMetric, BreakMetric>(0));
    assert_eq!(1, tree.convert_measure::<BaseMetric, BreakMetric>(5));
    assert_eq!(2, tree.convert_measure::<BaseMetric, BreakMetric>(6));
    assert_eq!(4, tree.convert_measure::<BaseMetric, BreakMetric>(20));
}

#[test]
fn units_of_the_break_metric() {
    let tree = Toy::from_leaves(singles(0..20));
    let units = tree.units::<BreakMetric>();
    assert_eq!(4, units.len());
    let expected: Vec<Vec<usize>> = vec![vec![0], (1..6).collect(), (6..11).collect(), (11..16).collect()];
    for (unit, want) in units.iter().zip(expected.iter()) {
        let mut seen = Vec::new();
        for part in unit.leaves() {
            seen.extend_from_slice(part);
        }
        assert_eq!(&seen, want);
    }
    let slice = tree.slice::<BreakMetric>(1..3);
    assert_eq!(slice.summary().leaves, 10);
    let inner = slice.units::<BaseMetric>();
    assert_eq!(10, inner.len());
    assert_eq!(1, inner[0].summary().count);
}

#[test]
fn leaf_at_measure_finds_the_leaf() {
    let leaves = vec![
        Nums(vec![1, 2, 3]),
        Nums(vec![5]),
        Nums(vec![]),
        Nums(vec![6, 7]),
        Nums(vec![10, 15, 9]),
    ];
    let tree = Toy::from_leaves(leaves);
    let (leaf, before) = tree.leaf_at_measure::<BaseMetric>(0);
    assert_eq!((leaf, before), (&[1usize, 2, 3][..], 0));
    let (leaf, before) = tree.leaf_at_measure::<BaseMetric>(3);
    assert_eq!((leaf, before), (&[1usize, 2, 3][..], 0));
    let (leaf, before) = tree.leaf_at_measure::<BaseMetric>(4);
    assert_eq!((leaf, before), (&[5usize][..], 3));
    let (leaf, before) = tree.leaf_at_measure::<BaseMetric>(5);
    assert_eq!((leaf, before), (&[6usize, 7][..], 4));
    let (leaf, before) = tree.leaf_at_measure::<BaseMetric>(9);
    assert_eq!((leaf, before), (&[10usize, 15, 9][..], 6));
    let (leaf, before) = tree.leaf_at_measure::<BreakMetric>(1);
    assert_eq!((leaf, before), (&[5usize][..], 0));
    let (leaf, before) = tree.leaf_at_measure::<BreakMetric>(2);
    assert_eq!((leaf, before), (&[10usize, 15, 9][..], 1));
    let (leaf, before) = tree.leaf_at_measure::<BreakMetric>(3);
    assert_eq!((leaf, before), (&[10usize, 15, 9][..], 1));
}

#[test]
fn a_tree_of_many_leaves_is_balanced() {
    let tree = Tree::<8, Nums>::from_leaves((0..5000).map(|v| Nums(vec![v])).collect());
    assert!(tree.assert_invariants());
    assert_eq!(5000, tree.leaf_count());
    assert_eq!(5000 * 4999 / 2, tree.summary().count);
    let tree = Tree::<3, Nums>::from_leaves((0..1000).map(|v| Nums(vec![v])).collect());
    assert!(tree.assert_invariants());
    assert_eq!(1000, tree.leaf_count());
}

#[test]
fn an_edit_leaves_the_clones_as_they_were() {
    let all: Vec<usize> = (0..40).collect();
    let mut tree = Toy::from_leaves(singles(0..40));
    let copy = tree.clone();
    assert!(tree.shares_root(&copy));
    tree.replace::<BaseMetric>(7..9, vec![&[70usize, 80, 90][..]]);
    assert!(!tree.shares_root(&copy));
    check(&copy, &all);
    let mut expected = all.clone();
    expected.splice(7..9, [70, 80, 90]);
    check(&tree, &expected);
    let slice = copy.slice::<BaseMetric>(5..30);
    tree.replace::<BaseMetric>(0..1, Vec::new());
    check(&Toy::from(slice), &all[5..30]);
}

#[test]
fn edits_of_a_tree_that_nothing_shares() {
    let mut tree = Toy::from_leaves(vec![Nums(vec![1, 2, 3])]);
    tree.replace::<BaseMetric>(1..2, vec![&[7usize][..]]);
    check(&tree, &[1, 7, 3]);
    assert_eq!(1, tree.leaf_count());
    tree.replace::<BaseMetric>(3..3, vec![&[8usize, 9, 10][..]]);
    check(&tree, &[1, 7, 3, 8, 9, 10]);
    assert_eq!(2, tree.leaf_count());
    let mut model = vec![1, 7, 3, 8, 9, 10];
    for round in 0..200 {
        let at = (round * 7) % (model.len() + 1);
        tree.replace::<BaseMetric>(at..at, vec![&[round][..]]);
        model.insert(at, round);
        check(&tree, &model);
    }
    for round in 0..150 {
        let at = (round * 5) % model.len();
        tree.replace::<BaseMetric>(at..at + 1, Vec::new());
        model.remove(at);
        check(&tree, &model);
    }
}

#[test]
fn a_cut_leaf_is_balanced_with_its_neighbour() {
    let leaves = vec![Nums(vec![1, 2, 3, 4]), Nums(vec![5, 6]), Nums(vec![7, 8, 9, 10])];
    let tree = Toy::from_leaves(leaves);
    let part = Toy::from(tree.slice::<BaseMetric>(3..10));
    check(&part, &[4, 5, 6, 7, 8, 9, 10]);
    let sizes: Vec<usize> = part.leaves().iter().map(|leaf| leaf.len()).collect();
    assert_eq!(sizes, vec![3, 4]);
    let part = Toy::from(tree.slice::<BaseMetric>(0..7));
    check(&part, &[1, 2, 3, 4, 5, 6, 7]);
    let sizes: Vec<usize> = part.leaves().iter().map(|leaf| leaf.len()).collect();
    assert_eq!(sizes, vec![4, 3]);
}

#[test]
fn a_slice_hands_out_one_part_for_each_leaf_it_reaches() {
    let leaves = vec![
        Nums(vec![1, 2, 3]),
        Nums(vec![4]),
        Nums(vec![]),
        Nums(vec![5, 6]),
        Nums(vec![7, 8, 9, 10]),
        Nums(vec![11]),
        Nums(vec![12, 13]),
    ];
    let tree = Toy::from_leaves(leaves);
    let parts = tree.slice::<BaseMetric>(2..5).leaves();
    assert_eq!(parts, vec![&[3usize][..], &[4][..], &[5][..]]);
    let parts = tree.slice::<BaseMetric>(0..13).leaves();
    assert_eq!(
        parts,
        vec![&[1usize, 2, 3][..], &[4][..], &[5, 6][..], &[7, 8, 9, 10][..], &[11][..], &[12, 13][..]]
    );
    let parts = tree.slice::<BaseMetric>(7..9).leaves();
    assert_eq!(parts, vec![&[8usize, 9][..]]);
    let parts = tree.slice::<BaseMetric>(4..4).leaves();
    assert!(parts.is_empty());
    let all = tree.leaves();
    assert_eq!(7, all.len());
    assert!(all[2].is_empty());
}

#[test]
fn a_leaf_that_an_edit_leaves_small_is_balanced() {
    let leaves = vec![Nums(vec![1, 2]), Nums(vec![3, 4]), Nums(vec![5, 6]), Nums(vec![7, 8])];
    let mut tree = Toy::from_leaves(leaves);
    tree.replace::<BaseMetric>(0..1, Vec::new());
    check(&tree, &[2, 3, 4, 5, 6, 7, 8]);
    let sizes: Vec<usize> = tree.leaves().iter().map(|leaf| leaf.len()).collect();
    assert_eq!(sizes, vec![3, 2, 2]);
    tree.replace::<BaseMetric>(6..7, Vec::new());
    check(&tree, &[2, 3, 4, 5, 6, 7]);
    let sizes: Vec<usize> = tree.leaves().iter().map(|leaf| leaf.len()).collect();
    assert_eq!(sizes, vec![3, 3]);
    tree.replace::<BaseMetric>(0..2, Vec::new());
    check(&tree, &[4, 5, 6, 7]);
    let sizes: Vec<usize> = tree.leaves().iter().map(|leaf| leaf.len()).collect();
    assert_eq!(sizes, vec![1, 3]);
    let shared = tree.clone();
    tree.replace::<BaseMetric>(1..2, Vec::new());
    check(&tree, &[4, 6, 7]);
    check(&shared, &[4, 5, 6, 7]);
}

#[test]
fn a_range_is_extracted_as_a_tree() {
    let tree = Toy::from_leaves(singles(0..20));
    let part = tree.extract::<BaseMetric>(3..11);
    check(&part, &(3..11).collect::<Vec<_>>());
    assert_eq!(8, part.base_measure());
    let all = tree.extract::<BaseMetric>(0..20);
    assert!(all.shares_root(&tree));
    let lines = tree.extract::<BreakMetric>(1..3);
    check(&lines, &(1..11).collect::<Vec<_>>());
}

#[test]
fn a_built_tree_is_as_shallow_as_its_fanout_allows() {
    let tree = Toy::from_leaves(singles(0..20));
    assert_eq!(3, tree.depth());
    assert_eq!(0, Toy::from_leaves(singles(0..1)).depth());
    assert_eq!(0, Toy::from_leaves(Vec::new()).depth());
    assert_eq!(1, Toy::from_leaves(singles(0..4)).depth());
    assert_eq!(2, Toy::from_leaves(singles(0..5)).depth());
    assert_eq!(2, Toy::from_leaves(singles(0..16)).depth());
    assert_eq!(3, Toy::from_leaves(singles(0..17)).depth());
    for n in 2..300usize {
        let depth = Tree::<3, Nums>::from_leaves(singles(0..n)).depth() as u32;
        assert!(3usize.pow(depth) >= n && 3usize.pow(depth - 1) < n);
        let depth = Tree::<2, Nums>::from_leaves(singles(0..n)).depth() as u32;
        assert!(2usize.pow(depth) >= n && 2usize.pow(depth - 1) < n);
    }
}

#[test]
fn a_tree_of_fanout_two() {
    type Two = Tree<2, Nums>;
    for n in 0..70usize {
        let tree = Two::from_leaves(singles(0..n));
        assert!(tree.assert_invariants());
        assert_eq!(tree.leaf_count(), n.max(1));
        let all: Vec<usize> = (0..n).collect();
        let mut seen = Vec::new();
        for leaf in tree.leaves() {
            seen.extend_from_slice(leaf);
        }
        assert_eq!(seen, all);
    }
    let n = 19;
    let all: Vec<usize> = (0..n).collect();
    let tree = Two::from_leaves(singles(0..n));
    for start in 0..=n {
        for end in start..=n {
            let part = Two::from(tree.slice::<BaseMetric>(start..end));
            assert!(part.assert_invariants());
            let mut seen = Vec::new();
            for leaf in part.leaves() {
                seen.extend_from_slice(leaf);
            }
            assert_eq!(seen, &all[start..end]);
            let mut edited = tree.clone();
            edited.replace::<BaseMetric>(start..end, vec![&[100usize, 101][..], &[102][..]]);
            assert!(edited.assert_invariants());
            let mut expected = all[..start].to_vec();
            expected.extend_from_slice(&[100, 101, 102]);
            expected.extend_from_slice(&all[end..]);
            let mut seen = Vec::new();
            for leaf in edited.leaves() {
                seen.extend_from_slice(leaf);
            }
            assert_eq!(seen, expected);
        }
    }
    let mut tree = Two::from_leaves(singles(0..3));
    let mut model: Vec<usize> = (0..3).collect();
    for round in 0..400usize {
        let at = (round * 7) % (model.len() + 1);
        let end = (at + round % 3).min(model.len());
        tree.replace::<BaseMetric>(at..end, vec![&[round][..]]);
        model.splice(at..end, [round]);
        assert!(tree.assert_invariants());
        let mut seen = Vec::new();
        for leaf in tree.leaves() {
            seen.extend_from_slice(leaf);
        }
        assert_eq!(seen, model);
    }
}

#[test]
fn an_edit_of_nothing_keeps_every_leaf() {
    let leaves = vec![Nums(vec![1]), Nums(vec![2, 3]), Nums(vec![]), Nums(vec![4])];
    for at in 0..=4 {
        let mut tree = Toy::from_leaves(leaves.clone());
        let before = tree.clone();
        tree.replace::<BaseMetric>(at..at, Vec::new());
        assert!(tree.shares_root(&before));
        assert_eq!(4, tree.leaf_count());
    }
}

#[test]
fn a_slice_in_one_or_two_leaves_becomes_a_small_tree() {
    let leaves = vec![
        Nums(vec![1, 2, 3, 4]),
        Nums(vec![5, 6, 7, 8]),
        Nums(vec![9, 10, 11, 12]),
        Nums(vec![13, 14, 15, 16]),
        Nums(vec![17, 18, 19, 20]),
    ];
    let tree = Toy::from_leaves(leaves);
    let part = Toy::from(tree.slice::<BaseMetric>(5..7));
    assert_eq!(part.leaves(), vec![&[6usize, 7][..]]);
    assert_eq!(0, part.depth());
    let part = Toy::from(tree.slice::<BaseMetric>(7..9));
    assert_eq!(part.leaves(), vec![&[8usize, 9][..]]);
    assert_eq!(0, part.depth());
    let part = Toy::from(tree.slice::<BaseMetric>(5..12));
    assert_eq!(part.leaves(), vec![&[6usize, 7, 8][..], &[9, 10, 11, 12][..]]);
    assert_eq!(1, part.depth());
    let part = Toy::from(tree.slice::<BaseMetric>(4..8));
    assert_eq!(part.leaves(), vec![&[5usize, 6, 7, 8][..]]);
    for at in 0..=20 {
        let nothing = tree.slice::<BaseMetric>(at..at);
        assert_eq!(0, nothing.base_measure());
        assert!(nothing.leaves().is_empty());
        let part = Toy::from(nothing);
        assert_eq!(1, part.leaf_count());
        assert_eq!(0, part.depth());
        assert_eq!(0, part.base_measure());
        assert!(part.assert_invariants());
    }
}

#[test]
fn a_slice_over_many_leaves_keeps_the_leaves_between_its_ends() {
    let leaves: Vec<Nums> = (0..12usize).map(|k| Nums(vec![4 * k, 4 * k + 1, 4 * k + 2, 4 * k + 3])).collect();
    let tree = Toy::from_leaves(leaves);
    let part = Toy::from(tree.slice::<BaseMetric>(2..45));
    assert!(part.assert_invariants());
    check(&part, &(2..45).collect::<Vec<_>>());
    let got = part.leaves();
    let whole = tree.leaves();
    for k in 2..10 {
        assert!(got.iter().any(|leaf| leaf == &whole[k]));
    }
}

#[test]
fn summaries_are_added_and_taken_away() {
    let a = count_of(&[1, 5, 7]);
    let b = count_of(&[10, 2]);
    let both = a.add(&b);
    assert_eq!(both, count_of(&[1, 5, 7, 10, 2]));
    assert_eq!(both.sub(&b), a);
    assert_eq!(both.sub(&a), b);
    assert_eq!(a.sub(&Count::zero()), a);
    assert_eq!(a.sub(&a), Count::zero());
}
