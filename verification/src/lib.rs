pub mod cache;
pub mod table;
pub mod transition;

pub use cache::TransitionCache;
pub use transition::{apply, PartialStateTransition};
