pub mod merge;
pub mod predicate;
pub mod stream;
