use vstd::prelude::*;

verus! {

/// An error raised while writing a table.
#[derive(Clone, Copy, Debug, PartialEq, Eq, Structural)]
pub enum SerializationError {
    /// An offset, count or length does not fit its field's declared width.
    WidthOverflow,
    /// The table graph refers back to a table that encloses it.
    CyclicGraph,
    /// A name record names a platform/encoding pair without a text encoding.
    UnsupportedEncoding,
}

/// An error raised while reading a table.
#[derive(Clone, Copy, Debug, PartialEq, Eq, Structural)]
pub enum DeserializationError {
    /// The buffer is shorter than a required read.
    UnexpectedEof,
    /// An offset leads past the end of the buffer.
    OffsetOutOfRange,
    /// A name record names a platform/encoding pair without a text encoding.
    UnsupportedEncoding,
    /// A tag is not four printable ASCII characters.
    InvalidTag,
}

} // verus!
