//! A strict codec for an XDR-style wire format: big-endian scalars, 4-byte
//! alignment with zero padding, bounded containers, optionals, tagged unions
//! and enums, decoded under explicit depth and length limits.
use vstd::prelude::*;

pub mod error;
pub mod primitive;
pub mod opaque;
pub mod types;
pub mod model;
pub mod codec;
pub mod properties;
pub mod schema;
pub mod laws;
pub mod cli;

pub use cli::{Catalog, Cmd, Entry, Error, Kind, ListCmd, Output, SchemaCmd, SchemaError, Sub};
pub use error::DecodeError;
pub use schema::{decode, decode_prefix, encode, Limits, Schema};
pub use types::{Arm, Ty, Value};

verus! {

} // verus!
