//! A verified field projector for delimited key=value records.
//!
//! The library parses newline-terminated records of comma-separated
//! `name=value` tokens, keeps a caller-selected, caller-ordered subset of the
//! fields, and re-serializes each record as one projected line.  A model of
//! the three-stage bounded-queue pipeline (source, projector, sink) proves
//! that any interleaving of the stages emits the projected lines in input
//! order, whatever the queue capacity.

pub mod bytes;
pub mod depth;
pub mod errors;
pub mod pipeline;
pub mod project;
pub mod record;
pub mod stable;
pub mod stream;
