//! What holds of the results of the library's functions, stated over their arguments alone.
//!
//! Each law speaks of the outcome of a call, or of several calls together, and of the events, texts
//! and bytes that went into it.
pub mod building;
pub mod format;
pub mod machine;
pub mod matching;
pub mod places;
pub mod selection;
pub mod summary;
pub mod texts;
