//! Renaming-resistant source-code similarity detection by document
//! fingerprinting (winnowing).
//!
//! The pipeline: a token stream (produced by an external grammar engine and
//! handed in as plain values) is normalized into a canonical text over a small
//! alphabet, every k-gram of the canonical text is hashed, a sliding window
//! selects representative hashes (winnowing), and two fingerprints are
//! compared by shared-hash discovery, span merging, offset translation and
//! coverage-based similarity scoring.

pub mod algorithms;
pub mod detector;
pub mod tokenize;
