//! A fixed-capacity UTF-8 string type.
//!
//! [`string::StaticString`] stores at most `N` bytes of UTF-8 encoded text and
//! never allocates beyond that bound.  Every operation either keeps the whole
//! content within the capacity or reports a [`error::StringError`]; truncating
//! variants silently drop data at the last character boundary that fits.

pub mod convert;
pub mod error;
pub mod laws;
pub mod string;
pub mod string_utils;
pub mod utf16;

pub use error::StringError;
pub use string::StaticString;
