//! Reconciles two independently time-stamped streams of capture files (an
//! "RGB" stream and a "NIR" stream) produced by a dual-camera rig that is not
//! perfectly synchronized.
//!
//! The crate decides, for every file of each stream: which RGB file pairs
//! with which NIR file (nearest capture instant, within a tolerance), which
//! files have no acceptable partner, and which files are degenerate
//! (zero-byte) and are set aside before pairing.
//!
//! The pipeline is a pure function of its inputs: paths and file sizes go in,
//! a classification report comes out. Directory traversal, file-size reads and
//! physical file moves are left to the caller.

use vstd::prelude::*;

pub mod catalog;
pub mod classify;
pub mod correlate;
pub mod files;
pub mod order;
pub mod timestamp;

verus! {

/// The error kinds of the pipeline. All of them are fatal to the run they
/// arise in: no partial catalog is ever built and no partial classification
/// is ever reported.
#[derive(Debug)]
pub enum StreamError {
    /// A required source directory does not exist; raised by the caller
    /// before any catalog build.
    InputError,
    /// A file stem does not match the expected timestamp pattern; aborts the
    /// catalog build for its whole stream.
    ParseError { stem: String },
    /// A file size could not be read; raised by the caller while it gathers
    /// the catalog entries of a stream.
    IoError { path: String },
}

} // verus!
