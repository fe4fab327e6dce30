//! A verified recursive-descent parser for the Kaldi nnet3 text-format
//! model dump: a bracketed, whitespace-delimited envelope holding a raw
//! configuration section and a declared number of component blocks, each a
//! class name with named tensor-valued attributes (scalars, vectors and
//! matrices of 32-bit floats).
//!
//! The grammar is stated once, as total specification functions over byte
//! sequences (`grammar`); the executable parser (`parser`) is proved to
//! return exactly what those functions describe, and `laws` proves the
//! properties that hold of the grammar as a whole.  Floats are scanned by
//! an outside float scanner and carried as IEEE-754 bit patterns; nothing
//! here computes with them.
pub mod grammar;
pub mod laws;
pub mod model;
pub mod parser;
mod scan;
