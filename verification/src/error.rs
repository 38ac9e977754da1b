//! The errors that reading, writing and validating can report.

use vstd::prelude::*;

verus! {

/// Names the value that a validation error is about.
#[derive(Debug, Clone, Copy, PartialEq, Eq)]
pub enum Value {
    /// A text: an attribute name, a type name, a channel name or a string value.
    Text,
    /// The type of an attribute or of a layer, by its field name.
    Type(&'static str),
    /// A number that stands for one of a fixed set of choices, by its field name.
    Enum(&'static str),
    /// An attribute or one of its parts, by name.
    Attribute(&'static str),
}

/// Says what a value would have had to be.
#[derive(Debug, Clone, Copy, PartialEq, Eq)]
pub enum Required {
    /// At least this much.
    Min(usize),
    /// At most this much.
    Max(usize),
    /// Between `min` and `max`, both included.
    Range { min: usize, max: usize },
    /// Exactly this.
    Exact(&'static str),
    /// One of the choices listed, separated by commas.
    OneOf(&'static str),
}

/// Why an operation failed.
#[derive(Debug, Clone, Copy, PartialEq, Eq)]
pub enum Error {
    /// The byte stream failed: here, it ended before the value was complete.
    Io,
    /// The file does not start with the magic number.
    InvalidMagic,
    /// The file was written for a format version that is not supported.
    UnsupportedVersion,
    /// A value is out of range or of the wrong kind.
    InvalidContent { what: Value, required: Required },
    /// A required header attribute is absent.
    MissingAttribute { name: &'static str },
    /// A required header attribute is present but wrong.
    InvalidAttribute { name: &'static str },
    /// The type of an attribute is not known; its value takes `bytes_to_skip` bytes.
    UnknownAttributeType { bytes_to_skip: u32 },
    /// A size field is negative or larger than the limit that applies to it.
    InvalidSize,
    /// Decompression gave the wrong number of bytes.
    InvalidCompressedData,
    /// A line names a resolution level that the image does not have.
    InvalidLevelIndex,
    /// A line names a channel that the layer does not have.
    InvalidChannelIndex,
    /// A line names a layer that the image does not have.
    InvalidPartIndex,
    /// Samples were asked for in a type other than the one they are stored in.
    TypeMismatch,
}

/// The outcome of a validation.
pub type Validity = Result<(), Error>;

/// The outcome of writing into a buffer.
pub type WriteResult = Result<(), Error>;

/// The outcome of reading a value.
pub type ReadResult<T> = Result<T, Error>;

} // verus!
