//! A minimal content-addressable object store.
//!
//! Objects are immutable, typed byte payloads. Each object has a canonical
//! byte encoding `"<format> <len>\0<payload>"`; its identifier is the
//! lowercase-hex digest of that encoding, and its storage location is derived
//! from the identifier alone. Structured metadata objects carry an ordered
//! key/multi-value header block followed by a free-text message (KVLM).
//!
//! The crate is organised leaves first: [`errors`] defines the error
//! taxonomy, [`kvlm`] the header+message codec, [`digest`] the identifier
//! computation, [`compress`] the on-disk compression, [`object`] the
//! canonical encoding of typed objects, and [`store`] the operations that
//! tie them together. All file placement and I/O is left to callers: the
//! store functions compute identifiers, encodings and locations from plain
//! values.

pub(crate) mod bytes;
pub mod compress;
pub mod digest;
pub mod errors;
pub mod kvlm;
pub mod object;
pub mod store;
