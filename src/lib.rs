//! A codec for ISO 8583-style financial messages: a message type indicator,
//! a presence bitmap, and numbered fields framed by declarative field specs.
//!
//! - `wire`: text-level reading of a message head (MTI, hex bitmap, a field
//!   with a two-digit length).
//! - `codec`, `prefix`, `pad`: the content encodings, length prefixes and
//!   padding that a field spec composes.
//! - `spec`: field specs and the pipeline that reads and writes one field.
//! - `bitmap`: the presence bitmap with its secondary half.
//! - `message`: message specs, and reading and writing whole messages.
//! - `numeric`: numeric fields that hold an integer.
//! - `laws`: what holds of reading and writing whole messages.

pub mod wire;
pub mod error;
pub mod codec;
pub mod prefix;
pub mod pad;
pub mod spec;
pub mod bitmap;
pub mod numeric;
pub mod message;
pub mod laws;
