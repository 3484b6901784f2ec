//! Line-level differences between two documents: an edit-distance table
//! over the lines and the edit script read back from it.

pub mod laws;
pub mod matrix;
pub mod report;
pub mod script;

pub use matrix::{edit_distance, memo_min, Direction, EditCell};
pub use script::{reconstruct, EditOperation};
pub use report::{process_edit_distance_to_file, render};
