//! Merge sort over slices of copyable values, with machine-checked contracts.
//!
//! [`merge_sort`] sorts a slice in place: [`merge_helper`] splits it in
//! halves and sorts each half, and [`merge`] combines two sorted halves.
//! Every function carries a contract that Verus proves. The output is in
//! non-descending order, it holds exactly the values of the input, and values
//! that compare as equivalent keep the order in which the input held them.
//! Together these fix the output, whatever the element type.
//!
//! The element type's comparison has to rank all values in one line; see
//! [`order::total_preorder`]. The built-in integer types meet this.

pub mod merging;
pub mod order;
pub mod sortedness;
pub mod sorting;

pub use merging::merge;
pub use sorting::{merge_helper, merge_sort};
