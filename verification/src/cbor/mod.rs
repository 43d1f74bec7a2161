//! The HTLK deterministic CBOR profile: value model, limits, errors and codec.

pub mod accounting;
pub mod error;
pub mod limits;

pub use accounting::{add, check};
pub use error::{CanonicalityReason, Error, ErrorKind, LimitKind};
pub use limits::Limits;
pub mod value;
pub mod header;
pub mod encode;
pub mod decode;
pub mod keys;
pub mod float;
pub mod map;
pub mod size;

pub use value::{FiniteFloat, Value, ValueMap};
pub use encode::encode;
pub use decode::decode;
