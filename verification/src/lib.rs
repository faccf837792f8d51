//! Ordering of strings the way a person would expect it.
//!
//! A string is cut into runs of decimal digits and runs of everything else.
//! Two strings are compared run by run: digit runs by their numeric value,
//! other runs by their characters, and a digit run sorts before any other run.
//! So `"item-2"` comes before `"item-11"`.
//!
//! Every function here carries a contract over the mathematical model in
//! [`token`] and [`order`], and is proved against it.

pub mod digits;
pub mod order;
pub mod prelude;
pub mod segment;
pub mod sort;
pub mod token;
pub mod total_order;

pub use crate::order::HumaneOrder;
pub use crate::sort::HumaneSortable;
pub use crate::token::sorting_type;
pub use crate::token::ByFn;
pub use crate::token::Classifier;
pub use crate::token::DigitRuns;
pub use crate::token::SortingType;
pub use crate::token::TokenIterator;
