//! A mixed-radix coordinate encoder.
//!
//! A multi-dimensional key (one `u32` coordinate per dimension) is mapped
//! onto a single `u64` linear index. Each dimension declares its allowed
//! values up front; a dimension with exactly one allowed value is *fixed*
//! and contributes nothing, while a dimension with two or more values is
//! *ranged* and contributes `stride * (coordinate - min_value)`, where the
//! stride is the product of the range sizes of all earlier ranged
//! dimensions. Membership is approximated by the numeric range
//! `[min_value, max_value]` of the declared values, not by the exact set.

pub mod encoder;
pub mod laws;
pub mod model;

pub use encoder::ConverterError;
pub use encoder::LongConverter;
pub use encoder::MemberMap;
