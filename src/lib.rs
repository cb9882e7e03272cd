//! A cursor over time intervals ("spans") that keeps track of which of them overlap a window
//! as the window moves back and forth in time.

pub mod cursor;
pub mod laws;
mod multisets;
pub mod order;
mod sorting;
pub mod span;

pub use cursor::Cursor;
pub use span::Span;
