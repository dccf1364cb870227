//! What can go wrong when a cube description or a precomputed table is taken in.

use vstd::prelude::*;

verus! {

/// Why a cube description was refused.
#[derive(Debug)]
pub enum ParseError {
    /// No `LUT_3D_SIZE` line gave an edge length of at least one.
    MissingSize,
    /// The number of samples is not the cube of the edge length.
    SizeMismatch { size: usize, found: usize },
    /// A token that should be a number is none. `line` counts from one.
    MalformedNumber { line: usize, token: String },
}

/// A `ParseError` as mathematics.
pub ghost enum ParseFault {
    MissingSize,
    SizeMismatch { size: nat, found: nat },
    MalformedNumber { line: nat, token: Seq<char> },
}

impl View for ParseError {
    type V = ParseFault;

    open spec fn view(&self) -> ParseFault {
        match self {
            ParseError::MissingSize => ParseFault::MissingSize,
            ParseError::SizeMismatch { size, found } => ParseFault::SizeMismatch {
                size: *size as nat,
                found: *found as nat,
            },
            ParseError::MalformedNumber { line, token } => ParseFault::MalformedNumber {
                line: *line as nat,
                token: token@,
            },
        }
    }
}

/// Why a byte buffer was refused as a precomputed table.
#[derive(Debug)]
pub enum TableError {
    /// The buffer does not hold three bytes for each of the 2^24 colours.
    CorruptTable { len: usize },
}

} // verus!
