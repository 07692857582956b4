//! The error kinds that the library's operations report.

use vstd::prelude::*;

verus! {

/// Every failure of the parsing, codec and region operations is reported as
/// one of these kinds; none of the verified operations panics.
#[derive(Debug, Clone, PartialEq, Eq)]
pub enum ScalpelError {
    /// A file could not be opened.
    OpeningError,
    /// A file could not be read.
    ReadingError,
    /// A file could not be written.
    WritingError,
    /// A path could not be resolved to text.
    PathError,
    /// The content of an input is not in the expected form (malformed HEX line).
    ContentError,
    /// Arguments do not fit together (paired vectors of unequal length).
    ArgumentError,
    /// A byte-count or range literal could not be parsed; carries the offending text.
    ParsingError { r: String },
    /// A stitch offset collides with bytes already written.
    OverlapError,
    /// A replacement block is larger than the window it must fit into.
    ReplaceError,
    /// A HEX record has a type this codec does not support.
    HexError,
    /// A file name has an extension no operation knows.
    UnknownFileFormat,
    /// A start or size lies outside the buffer where clamping is not permitted.
    RangeError,
    /// A HEX record's checksum does not match its bytes.
    ChecksumError,
}

} // verus!
