//! Property lists: a value model, the binary `bplist00` form, and the
//! markup form.
//!
//! A real number is held as the bits of its double. A date is held as
//! its instant, in seconds and nanoseconds; the double that the binary
//! form stores for it is made and read in integer arithmetic.
pub mod bytes;
pub mod date;
pub mod error;
pub mod ieee;
pub mod plist;
pub mod stream;
pub mod text;
pub mod write;
pub mod xml;
