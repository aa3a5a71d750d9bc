//! A small rendering pipeline: a document tree and a stylesheet are resolved
//! into a styled tree, the styled tree into a tree of layout boxes, the boxes
//! are given their geometry, and the geometry is flattened into paint
//! commands that a canvas carries out.
//!
//! Every length is a whole number of layout units, held in an `i64`.  Sums
//! and differences of lengths are taken exactly, and a result that lies
//! outside the range of `i64` is held at the end of the range that it
//! passed, so that no stage can fail on large numbers.
//!
//! Each stage is stated over a mathematical model of its data and proved
//! against it.

pub mod css;
pub mod dom;
pub mod layout;
pub mod painting;
pub mod style;
