//! The errors of the codec.

use vstd::prelude::*;

verus! {

/// Everything that can go wrong while building a dictionary, encoding text or
/// decoding bytes. None of these is transient: the operation that reports one
/// has failed as a whole.
#[derive(Debug, Clone, Copy, PartialEq, Eq, Structural)]
pub enum Error {
    /// A buffered text fragment is not a word of any dictionary, neither in the
    /// active orthography nor in the default one.
    UnknownWord,
    /// A byte of the encoded stream is not the encoding of any instruction.
    InvalidByte,
    /// The word has no single-byte encoding. Longer encodings do not exist yet.
    UnsupportedEncodingRange,
    /// The dictionary table does not start with the default orthography, or
    /// names an orthography that is not known.
    MalformedDictionarySource,
}

} // verus!
