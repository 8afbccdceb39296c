//! A static segment tree stored as a flat array of `i64` values.
//!
//! The tree is a complete binary tree over a power-of-two number of leaf
//! slots, navigated purely by index arithmetic: node `k` has children
//! `2k + 1` and `2k + 2`, and leaf slots occupy the second half of the
//! buffer. It supports building from a sequence of elements, point reads
//! and writes, and range-sum queries, each in logarithmic time.

pub mod laws;
pub mod sums;
pub mod tree;

pub use sums::all_range_sums_fit;
pub use sums::fits_i64;
pub use sums::range_sum;
pub use sums::seq_sum;
pub use sums::sums_fit;
pub use tree::is_seg_tree;
pub use tree::leaf_count;
pub use tree::leaves;
pub use tree::nth;
pub use tree::segment_tree;
pub use tree::set_nth;
pub use tree::sum;
pub use tree::try_segment_tree;
pub use tree::try_set_nth;
