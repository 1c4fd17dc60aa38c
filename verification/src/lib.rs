//! A verified codec for a rhythm-game replay file format.
//!
//! The library decodes the binary replay record into an in-memory
//! [`replay::Replay`], lets the caller edit its fields, and re-encodes it
//! byte-exactly.  The applied-modifier bitfield and the tick-based timestamp
//! have codecs of their own in [`mods`] and [`timestamp`].

use vstd::prelude::*;
use vstd::string::StrSliceExecFns;

pub mod codec;
pub mod mods;
pub mod replay;
pub mod timestamp;

verus! {

/// Everything that can go wrong while decoding, encoding, or parsing the
/// textual mod and timestamp forms.  File I/O failures are the caller's
/// concern and have no variant here.
#[derive(Clone, Copy, Debug, PartialEq, Eq, Structural)]
pub enum Error {
    /// Decoding ran out of bytes before a field was fully read.
    TruncatedInput,
    /// A length-prefixed string's bytes are not valid UTF-8.
    MalformedString,
    /// A marker byte, length prefix, or enumerated field holds a value the
    /// format does not allow, or data remains after the final field.
    InvalidEncoding,
    /// A textual mod token does not match any known short name.
    UnknownModName,
    /// A date-time string does not match the expected format, or denotes an
    /// instant before the tick epoch.
    MalformedTimestamp,
    /// A field's content exceeds the width its encoding can represent.
    FieldTooLarge,
}

/// Collects the characters of a string slice, so parsers can walk them by
/// index.
pub(crate) fn chars_of(s: &str) -> (v: Vec<char>)
    ensures
        v@ == s@,
{
    let n = s.unicode_len();
    let mut v: Vec<char> = Vec::new();
    let mut i: usize = 0;
    while i < n
        invariant
            i <= n,
            n == s@.len(),
            v@ == s@.take(i as int),
        decreases n - i,
    {
        v.push(s.get_char(i));
        i = i + 1;
        proof {
            assert(v@ =~= s@.take(i as int));
        }
    }
    proof {
        assert(v@ =~= s@);
    }
    v
}

} // verus!
