//! A Count-Min Sketch: a fixed-size table of counters that estimates how often
//! each key of a stream occurred, never from below as long as no counter wraps.
//!
//! The table has one row per hash mixer. A key is counted once in every row, in
//! the column its row's mixer assigns to it; its estimate is the smallest of the
//! counters it was counted in.
//!
//! There are two kinds of sketch with the same contracts. [`CountMinSketch`]
//! holds plain counters: its workers count their chunks of a batch into tables
//! of their own, which are then added up. [`CountMinSketchSafe`] holds atomic
//! counters that all workers increment in place. Both are described by one
//! mathematical model, [`model::SketchModel`], and [`laws`] proves what holds of
//! every sketch from that model.
//!
//! Counters are 32 bits wide and wrap. Every contract says what happens when
//! they do; the laws that compare counts hold as long as none does.

pub mod config;
pub mod counter;
pub mod hashing;
pub mod laws;
pub mod model;
pub mod partition;
pub mod safe;
pub mod sketch;

pub use config::ConfigError;
pub use safe::CountMinSketchSafe;
pub use sketch::CountMinSketch;
