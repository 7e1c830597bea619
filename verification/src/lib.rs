//! Log record store and filtered-view engine.
//!
//! The crate ingests newline-delimited JSON text into structured records,
//! derives a stable per-record display representation with a hash-keyed
//! cache, maintains a filtered subset of records as an index-indirection
//! layer over the full record set, keeps a selection cursor consistent
//! across filter, unfilter and reload transitions, and answers navigation
//! queries. Record contents can be serialized to and restored from a
//! deterministic text form with a proved round trip.

pub mod codec;
pub mod data;
pub mod filter;
pub mod ingest;
pub mod options;
pub mod record;
pub mod text;
pub mod value;
