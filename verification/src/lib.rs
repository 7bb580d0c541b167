//! SBON: the binary value encoding of a game engine's asset and save
//! files, and the two containers built on it.
//!
//! * [`dynamic`] — the dynamic value and its model; [`keyed`] — the model
//!   of its mappings; [`cast`] — taking a value for what it should be.
//! * [`varint`] — variable-length integers; [`endian`] — fixed-width ones.
//! * [`source`] and [`sink`] — the byte streams that decoders read and
//!   encoders fill.
//! * [`encode`] and [`decode`] — the wire form of every value, and
//!   [`roundtrip`] — what holds between the two.
//! * [`formats`] — the versioned document and the asset archive.

pub mod cast;
pub mod decode;
pub mod dynamic;
pub mod encode;
pub mod endian;
pub mod error;
pub mod formats;
pub mod keyed;
pub mod roundtrip;
pub mod sink;
pub mod source;
pub mod varint;

pub use crate::cast::TryFromDynamicError;
pub use crate::dynamic::{Dynamic, DynamicMap, List, Value};
pub use crate::error::{IoError, SbonError};
pub use crate::sink::ByteSink;
pub use crate::source::ByteSource;
