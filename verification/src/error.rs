//! Error type shared by the analysis routines.

use vstd::prelude::*;

verus! {

/// Errors the analysis routines can report.
#[derive(Debug, PartialEq, Eq, Clone)]
pub enum XorError {
    /// No key-length candidate was found during analysis.
    AnalysisError { msg: String },
    /// An unrecognized letter was used to compose a character set.
    CharsetError { charset: char },
    /// Data could not be read or written.
    IO { msg: String },
    /// A directory could not be created.
    MkdirError { msg: String },
    /// Input bytes could not be decoded (for instance, not valid hex).
    UnicodeDecode { msg: String },
    /// A command line argument could not be parsed.
    ArgParser { msg: String },
}

} // verus!
