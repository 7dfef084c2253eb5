//! The string of the settings format: absent, or a run of bytes that need not
//! be UTF-8.

use crate::endian::{read_u32_at, u32_at, u32_le, u32_le_bytes};
use crate::error::LoadError;
use vstd::prelude::*;
use vstd::utf8::*;

verus! {

/// A string as the settings format stores it: `None` for an absent string,
/// else its bytes, which need not be valid UTF-8.
#[derive(Debug, Clone, PartialEq)]
pub struct ImmutableString(pub Option<Vec<u8>>);

impl View for ImmutableString {
    type V = Option<Seq<u8>>;

    open spec fn view(&self) -> Option<Seq<u8>> {
        match self.0 {
            Some(bytes) => Some(bytes@),
            None => None,
        }
    }
}

/// What a load returns matches what the format's spec reads: the same value
/// (by its view) and the same number of bytes on success, the same error on
/// failure.
pub open spec fn load_matches<T: View>(
    r: Result<(T, usize), LoadError>,
    spec: Result<(T::V, nat), LoadError>,
) -> bool {
    match spec {
        Ok((v, n)) => r matches Ok((x, m)) && x@ == v && m == n,
        Err(e) => r == Err::<(T, usize), LoadError>(e),
    }
}

/// Reads a string from the start of `s`. A first byte other than 0 marks an
/// absent string. Otherwise a length byte follows; the length byte `0xff`
/// means that the length is the little-endian `u32` after it. The string's
/// bytes come last. Returns the string and the number of bytes it took.
pub open spec fn parse_immutable_string(s: Seq<u8>) -> Result<(Option<Seq<u8>>, nat), LoadError> {
    if s.len() < 1 {
        Err(LoadError::UnexpectedEof)
    } else if s[0] != 0 {
        Ok((None, 1))
    } else if s.len() < 2 {
        Err(LoadError::UnexpectedEof)
    } else if s[1] != 0xff {
        let n = s[1] as nat;
        if s.len() < 2 + n {
            Err(LoadError::UnexpectedEof)
        } else {
            Ok((Some(s.subrange(2, 2 + n as int)), 2 + n))
        }
    } else if s.len() < 6 {
        Err(LoadError::UnexpectedEof)
    } else {
        let n = u32_at(s, 2) as nat;
        if s.len() < 6 + n {
            Err(LoadError::UnexpectedEof)
        } else {
            Ok((Some(s.subrange(6, 6 + n as int)), 6 + n))
        }
    }
}

/// The bytes written for a string: `1` for an absent one; else `0`, the
/// length (one byte below `0xff`, else `0xff` and the length as a
/// little-endian `u32`, cut to 32 bits) and the bytes.
pub open spec fn serialize_immutable_string(v: Option<Seq<u8>>) -> Seq<u8> {
    match v {
        None => seq![1u8],
        Some(b) => if b.len() >= 0xff {
            seq![0u8, 0xffu8] + u32_le(b.len() as u32) + b
        } else {
            seq![0u8, b.len() as u8] + b
        },
    }
}

/// `String::from_utf8_lossy`, taken into an owned `String`: the bytes decoded
/// as UTF-8, each invalid sequence replaced by U+FFFD. Stated: valid UTF-8
/// decodes to exactly the characters it encodes; for other bytes the result
/// is a function of the bytes alone. Which characters the replacement gives
/// is not stated.
#[verifier::external_body]
fn utf8_lossy_string(bytes: &[u8]) -> (r: String)
    ensures
        valid_utf8(bytes@) ==> r@ == decode_utf8(bytes@),
        !valid_utf8(bytes@) ==> r@ == utf8_lossy(bytes@),
{
    String::from_utf8_lossy(bytes).into_owned()
}

/// What `String::from_utf8_lossy` gives for bytes that are not valid UTF-8.
pub uninterp spec fn utf8_lossy(bytes: Seq<u8>) -> Seq<char>;

/// The text of bytes as `String::from_utf8_lossy` decodes them: the
/// characters that valid UTF-8 encodes, else the lossy decoding.
pub open spec fn lossy_decode(b: Seq<u8>) -> Seq<char> {
    if valid_utf8(b) {
        decode_utf8(b)
    } else {
        utf8_lossy(b)
    }
}

fn copy_bytes(src: &[u8]) -> (r: Vec<u8>)
    ensures
        r@ == src@,
{
    let mut r: Vec<u8> = Vec::new();
    let mut i: usize = 0;
    while i < src.len()
        invariant
            i <= src@.len(),
            r@ == src@.subrange(0, i as int),
        decreases src@.len() - i,
    {
        r.push(src[i]);
        i = i + 1;
        assert(r@ =~= src@.subrange(0, i as int));
    }
    assert(r@ =~= src@);
    r
}

/// Appends `src` to `out`.
pub(crate) fn append_bytes(out: &mut Vec<u8>, src: &[u8])
    ensures
        final(out)@ == old(out)@ + src@,
{
    let mut i: usize = 0;
    while i < src.len()
        invariant
            i <= src@.len(),
            out@ == old(out)@ + src@.subrange(0, i as int),
        decreases src@.len() - i,
    {
        out.push(src[i]);
        i = i + 1;
        assert(out@ =~= old(out)@ + src@.subrange(0, i as int));
    }
    assert(src@.subrange(0, src@.len() as int) =~= src@);
}

impl ImmutableString {
    /// Reads a string from the start of `input`; returns it and the number of
    /// bytes it took.
    pub fn load(input: &[u8]) -> (r: Result<(ImmutableString, usize), LoadError>)
        ensures
            load_matches(r, parse_immutable_string(input@)),
            r matches Ok((_, n)) ==> 1 <= n <= input@.len(),
    {
        if input.len() < 1 {
            return Err(LoadError::UnexpectedEof);
        }
        if input[0] != 0 {
            return Ok((ImmutableString(None), 1));
        }
        if input.len() < 2 {
            return Err(LoadError::UnexpectedEof);
        }
        let short_len = input[1];
        let (len, start): (usize, usize) = if short_len == 0xff {
            if input.len() < 6 {
                return Err(LoadError::UnexpectedEof);
            }
            (read_u32_at(input, 2) as usize, 6)
        } else {
            (short_len as usize, 2)
        };
        if input.len() - start < len {
            return Err(LoadError::UnexpectedEof);
        }
        let bytes = copy_bytes(&input[start..start + len]);
        Ok((ImmutableString(Some(bytes)), start + len))
    }

    /// Appends the string's bytes in the settings format to `out`.
    pub fn save(&self, out: &mut Vec<u8>)
        ensures
            final(out)@ == old(out)@ + serialize_immutable_string(self@),
    {
        match &self.0 {
            None => {
                out.push(1);
                assert(out@ =~= old(out)@ + serialize_immutable_string(self@));
            },
            Some(bytes) => {
                out.push(0);
                if bytes.len() >= 0xff {
                    out.push(0xff);
                    let len_bytes = u32_le_bytes(bytes.len() as u32);
                    append_bytes(out, len_bytes.as_slice());
                } else {
                    out.push(bytes.len() as u8);
                }
                append_bytes(out, bytes.as_slice());
                assert(out@ =~= old(out)@ + serialize_immutable_string(self@));
            },
        }
    }

    /// A present string holding the UTF-8 bytes of `s`.
    pub fn from_string(s: String) -> (r: ImmutableString)
        ensures
            r@ == Some(encode_utf8(s@)),
    {
        let bytes = copy_bytes(s.as_str().as_bytes());
        ImmutableString(Some(bytes))
    }

    /// The string's text, its bytes decoded as UTF-8 with each invalid
    /// sequence replaced by U+FFFD; `None` for an absent string.
    pub fn to_string_lossy(&self) -> (r: Option<String>)
        ensures
            (match self@ {
                Some(b) => r is Some && r->0@ == lossy_decode(b),
                None => r is None,
            }),
    {
        match &self.0 {
            Some(bytes) => Some(utf8_lossy_string(bytes.as_slice())),
            None => None,
        }
    }
}

} // verus!
