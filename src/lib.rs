//! A NaN-boxed value: one 64-bit slot that holds either an IEEE-754 double
//! (as its bit pattern) or a key into a side table of boxed payloads.

pub mod bits;
pub mod registry;
pub mod nan_box;
pub use registry::{Entry, Registry};
pub use nan_box::NanBox;

pub use bits::{is_nan, CANONICAL_NAN, KEY_MASK};


