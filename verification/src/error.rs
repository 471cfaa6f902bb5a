//! The ways in which reading or replaying a dump fails.

use vstd::prelude::*;

verus! {

/// Every failure is final: the operation that met it gives no partial result.
#[derive(Debug, Clone, Copy, PartialEq, Eq, Structural)]
pub enum DumpError {
    /// No whole record where one was to be read: the data ends, the prefix
    /// is cut short, or it declares a length that is negative or longer than
    /// what is left.
    Framing,
    /// A record that has to be JSON of a given shape is not, or the
    /// serializer refused to write a value back.
    JsonParse,
    /// The stream ended before a record of the wanted type was found.
    MissingHeader,
    /// The number of frames to announce does not fit in 64 bits.
    FrameCount,
}

impl DumpError {
    /// A line of text for a diagnostic.
    pub fn describe(&self) -> (line: String)
        ensures
            line@ == match *self {
                DumpError::Framing => "no complete record at the read position"@,
                DumpError::JsonParse => "record is not JSON of the expected shape"@,
                DumpError::MissingHeader => "no record of the wanted type before end of stream"@,
                DumpError::FrameCount => "frame count does not fit in 64 bits"@,
            },
    {
        match self {
            DumpError::Framing => "no complete record at the read position".to_owned(),
            DumpError::JsonParse => "record is not JSON of the expected shape".to_owned(),
            DumpError::MissingHeader => "no record of the wanted type before end of stream".to_owned(),
            DumpError::FrameCount => "frame count does not fit in 64 bits".to_owned(),
        }
    }
}

} // verus!
