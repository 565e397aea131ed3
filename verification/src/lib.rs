//! A codec for LTSV, the labeled tab-separated values line format.
//!
//! One record is one line of text: fields separated by tabs, each field
//! written `label:value`.  Decoding splits a line into labeled raw values and
//! infers a scalar type for each value; encoding renders a tagged value as a
//! single line, rejecting shapes the format cannot carry.

pub mod de;
pub mod error;
pub mod float;
pub mod laws;
pub mod num;
pub mod ser;
pub mod text;
pub mod value;

pub use de::from_str;
pub use de::try_detect_type;
pub use error::LtsvError;
pub use error::LtsvResult;
pub use ser::to_string;
pub use value::Value;
