//! Bubble sort and merge sort on slices, with proofs that they sort, keep every
//! element, and keep elements of the same sort key in the order they came in; and
//! the data set that the command line tool sorts: random numbers and their text
//! form.

pub mod algorithms;
pub mod arrangement;
pub mod bubble;
pub mod dataset;
pub mod merge;
pub mod order;
pub mod text;

pub use algorithms::sort;
pub use algorithms::Algorithms;
pub use bubble::bubble_sort;
pub use dataset::generate;
pub use merge::merge;
pub use merge::merge_sort;
pub use text::parse;
pub use text::render;
