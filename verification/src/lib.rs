//! A schemaless decoder for length-prefixed, tag/wire-type encoded binary
//! messages (the Protocol-Buffers wire format), for buffers whose schema is
//! unknown at decode time.
//!
//! Given an opaque byte buffer, [`inspect::decode`] reconstructs a structured
//! tree: numeric fields in every plausible interpretation, nested sub-messages
//! recovered recursively, and opaque length-delimited fields recovered as text
//! or raw bytes.  The decoder never panics on malformed input, terminates on
//! every buffer, and produces a canonical representation that is stable under
//! reordering of same-tag field groups.

pub mod canon;
pub mod inspect;
pub mod inspector;
pub mod models;
pub mod options;
pub mod visit;
pub mod wire;
