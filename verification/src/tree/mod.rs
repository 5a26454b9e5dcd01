//! The balanced tree, its nodes and the contracts its leaves must meet.
mod cut;
mod invariants;
mod leaves;
mod measure;
mod node;
mod replace;
mod runs;
pub mod traits;
mod tree;
mod tree_slice;

pub use leaves::{
    clip, contents_of, lemma_parts_clip, lemma_parts_concat, lemma_parts_one,
    lemma_parts_outside, lemma_parts_total, lemma_total_ends, parts_in_range, total_len,
};
pub use measure::{
    cut_or_end, leaf_index_at, leaves_measure, lemma_cut_monotone, lemma_cut_or_end_monotone,
    lemma_leaf_index_bounds, lemma_leaf_index_past, lemma_leaf_index_prefix,
    lemma_leaf_index_suffix,
    lemma_cut_or_end_seam, lemma_leaves_measure_concat, lemma_seams_part, seam_at, seams_ok,
};
pub use node::{
    contents, flat, leaves_fit, lemma_fits_sub, lemma_flat_concat, lemma_flat_grows,
    lemma_flat_one, lemma_flat_split, lemma_flat_step, lemma_inode_invariants,
    lemma_leaves_fit_parts, min_children, pair_contents, Inode, Lnode, Node,
};
pub use replace::{
    lemma_slices_content_concat, lemma_slices_content_one, slices_content, spliced,
};
pub use runs::power;
pub use traits::{BaseMetric, Leaf, Metric, ReplaceableLeaf, SlicingMetric, Summary};
pub use tree::{
    is_least_depth, lemma_base_slice, lemma_least_depth, lemma_power_grows, lemma_replace_nothing,
    Tree,
};
pub use tree_slice::{borrowed_ends, lies_at, TreeSlice};
