//! The two traits that callers need, in one import.

pub use crate::order::HumaneOrder;
pub use crate::sort::HumaneSortable;
