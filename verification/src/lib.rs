//! Sliding windows over the scalar values of a string.
//!
//! [`str_windows`] walks a `&str` and hands out every substring that holds a
//! fixed number of Unicode scalar values, from left to right, each one a
//! borrowed slice of the input. Window lengths are counted in scalar values,
//! never in bytes, so the cursor arithmetic is done on UTF-8 boundaries and
//! is proved against the encoding of the text.

pub mod boundary;
pub mod iter;
pub mod model;

pub use crate::boundary::{next_indice, nth_indice};
pub use crate::iter::{str_windows, StrWindowsIter};
pub use crate::model::{window_count, windows, Cursor};
