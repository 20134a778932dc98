use vstd::prelude::*;

verus! {

/// Failures reported by the codec, the record parser and the record encoder.
#[derive(Debug, Clone, Copy, PartialEq, Eq, Structural)]
pub enum CodecError {
    /// The buffer is shorter than the record layout requires.
    TruncatedInput,
    /// A character given to the encoder is not `'0'..='9'`, or a nibble
    /// that the decoder must keep is above 9.
    InvalidDigit,
    /// A text field's bytes are not valid UTF-8.
    Encoding,
    /// More digits were requested than the bytes hold.
    Length,
    /// A field given to the encoder does not fit its fixed slot.
    FieldTooLong,
}

} // verus!
