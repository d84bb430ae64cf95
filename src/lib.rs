//! Splits an exported note archive into size-bounded batches: the decisions
//! of the migration (which images an HTML note refers to, where they are found
//! in the image pool, and in which batch each note lands) as verified code.

pub mod batch;
pub mod html;
pub mod names;
pub mod order;
