//! A fixed-capacity sliding window over a stream of items, and a scan that
//! finds the first position of a byte stream at which the trailing window
//! holds no byte twice.

pub mod marker;
pub mod sliding_window;
