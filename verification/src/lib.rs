//! A verified core for a line-oriented Turtle-subset triple pipeline: a line
//! grammar proved against its character-level specification, a stream
//! assembler whose state machine is written out as a specification and whose
//! `load` is proved to follow it, a name resolver whose split and join rules
//! are proved inverse, an interned triple store with proved idempotent
//! interning and faithful per-subject reconstruction, and a serializer whose
//! rendered blocks provably replay to the subject they came from.

pub mod api;
pub mod csv;
pub mod data;
pub mod resolver;
pub mod store;
pub mod ttl_file;
pub mod turtle;
pub mod turtle_stream;
