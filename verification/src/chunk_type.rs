//! The four-letter type of a chunk and the flags that its letters carry.

use vstd::prelude::*;
use vstd::string::*;
use vstd::utf8::*;
use crate::chunk::ChunkError;

verus! {

/// An ASCII capital letter.
pub open spec fn is_upper(b: u8) -> bool {
    65 <= b <= 90
}

/// An ASCII small letter.
pub open spec fn is_lower(b: u8) -> bool {
    97 <= b <= 122
}

/// An ASCII decimal digit.
pub open spec fn is_digit(b: u8) -> bool {
    48 <= b <= 57
}

/// The bytes of a well-formed chunk type: exactly four ASCII letters.
pub open spec fn valid_type_bytes(bytes: Seq<u8>) -> bool {
    &&& bytes.len() == 4
    &&& forall|i: int| 0 <= i < 4 ==> is_upper(#[trigger] bytes[i]) || is_lower(bytes[i])
}

/// The four bytes that a chunk type contributes to a serialized chunk and to
/// its checksum: the first four bytes of the text's UTF-8 encoding.
pub open spec fn type_bytes(text: Seq<char>) -> Seq<u8>
    recommends
        encode_utf8(text).len() >= 4,
{
    encode_utf8(text).subrange(0, 4)
}

/// An ASCII letter, as a character.
pub open spec fn is_letter(c: char) -> bool {
    'A' <= c <= 'Z' || 'a' <= c <= 'z'
}

/// The text of a well-formed chunk type: exactly four ASCII letters.
pub open spec fn valid_type_text(text: Seq<char>) -> bool {
    &&& text.len() == 4
    &&& forall|i: int| 0 <= i < 4 ==> is_letter(#[trigger] text[i])
}

proof fn lemma_low_char_is_ascii(c: char)
    requires
        c as u32 <= 0x7F,
    ensures
        '\0' <= c <= '\u{7f}',
{
}

/// A text whose encoding holds no byte above 127 is made of ASCII characters.
pub proof fn lemma_low_bytes_are_ascii(text: Seq<char>)
    requires
        forall|i: int| 0 <= i < encode_utf8(text).len() ==> #[trigger] encode_utf8(text)[i] < 128,
    ensures
        is_ascii_chars(text),
    decreases text.len(),
{
    if text.len() > 0 {
        let c = text[0] as u32;
        let head = encode_scalar(c);
        let rest = text.drop_first();
        let all = encode_utf8(text);
        assert(all == head + encode_utf8(rest));
        assert(head.len() >= 1);
        assert(all[0] == head[0]);
        assert(all[0] < 128);
        assert(has_width_1_encoding(c)) by {
            assert((0xC0u8 | ((c >> 6) & 0x1F) as u8) >= 128) by (bit_vector);
            assert((0xE0u8 | ((c >> 12) & 0x0F) as u8) >= 128) by (bit_vector);
            assert((0xF0u8 | ((c >> 18) & 0x7) as u8) >= 128) by (bit_vector);
        }
        assert forall|i: int| 0 <= i < encode_utf8(rest).len() implies #[trigger] encode_utf8(
            rest,
        )[i] < 128 by {
            assert(encode_utf8(rest)[i] == all[i + head.len()]);
        }
        lemma_low_bytes_are_ascii(rest);
        assert forall|i: int| 0 <= i < text.len() implies '\0' <= #[trigger] text[i]
            <= '\u{7f}' by {
            if i > 0 {
                assert(text[i] == rest[i - 1]);
            } else {
                lemma_low_char_is_ascii(text[0]);
            }
        }
    }
}

/// The encoding of a text is four ASCII letters exactly when the text is
/// four ASCII letters.
pub proof fn lemma_valid_type_text(text: Seq<char>)
    ensures
        valid_type_bytes(encode_utf8(text)) <==> valid_type_text(text),
{
    let bytes = encode_utf8(text);
    if valid_type_text(text) {
        assert(is_ascii_chars(text));
        is_ascii_chars_encode_utf8(text);
        assert forall|i: int| 0 <= i < 4 implies is_upper(#[trigger] bytes[i]) || is_lower(
            bytes[i],
        ) by {
            assert(is_letter(text[i]));
            assert(text[i] as u8 == bytes[i]);
        }
    }
    if valid_type_bytes(bytes) {
        assert forall|i: int| 0 <= i < bytes.len() implies #[trigger] bytes[i] < 128 by {
            assert(is_upper(bytes[i]) || is_lower(bytes[i]));
        }
        lemma_low_bytes_are_ascii(text);
        is_ascii_chars_encode_utf8(text);
        assert forall|i: int| 0 <= i < 4 implies is_letter(#[trigger] text[i]) by {
            assert(is_upper(bytes[i]) || is_lower(bytes[i]));
            assert(text[i] as u8 == bytes[i]);
        }
    }
}

fn byte_is_upper(b: u8) -> (r: bool)
    ensures
        r == is_upper(b),
{
    65 <= b && b <= 90
}

fn byte_is_lower(b: u8) -> (r: bool)
    ensures
        r == is_lower(b),
{
    97 <= b && b <= 122
}

fn four_letters(bytes: &[u8]) -> (r: bool)
    ensures
        r == valid_type_bytes(bytes@),
{
    if bytes.len() != 4 {
        return false;
    }
    let mut i: usize = 0;
    while i < 4
        invariant
            i <= 4,
            bytes@.len() == 4,
            forall|j: int| 0 <= j < i ==> is_upper(#[trigger] bytes@[j]) || is_lower(bytes@[j]),
        decreases 4 - i,
    {
        let b: u8 = bytes[i];
        if !byte_is_upper(b) && !byte_is_lower(b) {
            return false;
        }
        i += 1;
    }
    true
}

/// Whether `s` can name a chunk type: four characters, each an ASCII letter;
/// which is to say four bytes, each an ASCII letter.
pub fn is_valid(s: &str) -> (r: bool)
    ensures
        r == valid_type_text(s@),
        r == valid_type_bytes(s.spec_bytes()),
{
    proof {
        lemma_valid_type_text(s@);
    }
    four_letters(s.as_bytes())
}

/// Whether `byte` is an ASCII letter or an ASCII digit.
pub fn is_valid_byte(byte: u8) -> (r: bool)
    ensures
        r == (is_upper(byte) || is_lower(byte) || is_digit(byte)),
{
    byte_is_upper(byte) || byte_is_lower(byte) || (48 <= byte && byte <= 57)
}

/// `String::from_utf8` of std: the bytes become a `String` exactly when they
/// are well-formed UTF-8, and the string's encoding is then those bytes.
#[verifier::external_body]
pub(crate) fn text_from_utf8(bytes: Vec<u8>) -> (r: Option<String>)
    ensures
        r is Some <==> valid_utf8(bytes@),
        r matches Some(s) ==> encode_utf8(s@) == bytes@,
{
    match String::from_utf8(bytes) {
        Ok(s) => Some(s),
        Err(_) => None,
    }
}

/// Decodes `bytes` as text, or reports that they are not text.
pub(crate) fn decode_text(bytes: Vec<u8>) -> (r: Option<String>)
    ensures
        r is Some <==> valid_utf8(bytes@),
        r matches Some(s) ==> s@ == decode_utf8(bytes@) && encode_utf8(s@) == bytes@,
{
    let r = text_from_utf8(bytes);
    proof {
        if r is Some {
            encode_utf8_decode_utf8(r->Some_0@);
        }
    }
    r
}

/// The type of a chunk, kept as the text it was made from.
#[derive(Debug)]
pub struct ChunkType {
    signature: String,
}

impl View for ChunkType {
    type V = Seq<char>;

    closed spec fn view(&self) -> Seq<char> {
        self.signature@
    }
}

impl ChunkType {
    /// The UTF-8 encoding of the whole text.
    pub open spec fn encoding(&self) -> Seq<u8> {
        encode_utf8(self@)
    }

    /// Keeps `s` as it is; whether it names a valid type is asked separately.
    pub fn from_str(s: &str) -> (r: Result<ChunkType, ChunkError>)
        ensures
            r matches Ok(t) && t@ == s@,
    {
        Ok(ChunkType { signature: s.to_owned() })
    }

    /// The type whose text these four bytes encode.
    pub fn try_from(bytes: [u8; 4]) -> (r: Result<ChunkType, ChunkError>)
        ensures
            valid_utf8(bytes@) ==> (r matches Ok(t) && t@ == decode_utf8(bytes@) && t.encoding()
                == bytes@),
            !valid_utf8(bytes@) ==> r == Err::<ChunkType, ChunkError>(ChunkError::TypeEncoding),
    {
        let mut v: Vec<u8> = Vec::new();
        v.push(bytes[0]);
        v.push(bytes[1]);
        v.push(bytes[2]);
        v.push(bytes[3]);
        assert(v@ =~= bytes@);
        match decode_text(v) {
            Some(s) => Ok(ChunkType { signature: s }),
            None => Err(ChunkError::TypeEncoding),
        }
    }

    /// The first four bytes of the text.
    pub fn bytes(&self) -> (r: [u8; 4])
        requires
            self.encoding().len() >= 4,
        ensures
            r@ == type_bytes(self@),
    {
        let b = self.signature.as_str().as_bytes();
        let r: [u8; 4] = [b[0], b[1], b[2], b[3]];
        assert(r@ =~= type_bytes(self@));
        r
    }

    /// The text of the type.
    pub fn to_string(&self) -> (r: String)
        ensures
            r@ == self@,
    {
        self.signature.clone()
    }

    /// A chunk is critical when the first letter of its type is a capital.
    pub fn is_critical(&self) -> (r: bool)
        requires
            self.encoding().len() >= 1,
        ensures
            r == is_upper(self.encoding()[0]),
    {
        byte_is_upper(self.signature.as_str().as_bytes()[0])
    }

    /// A chunk is public when the second letter of its type is a capital.
    pub fn is_public(&self) -> (r: bool)
        requires
            self.encoding().len() >= 2,
        ensures
            r == is_upper(self.encoding()[1]),
    {
        byte_is_upper(self.signature.as_str().as_bytes()[1])
    }

    /// The reserved bit is as it must be when the third letter is small.
    pub fn is_reserved_bit_valid(&self) -> (r: bool)
        requires
            self.encoding().len() >= 3,
        ensures
            r == is_lower(self.encoding()[2]),
    {
        byte_is_lower(self.signature.as_str().as_bytes()[2])
    }

    /// A chunk is safe to copy when the fourth letter of its type is small.
    pub fn is_safe_to_copy(&self) -> (r: bool)
        requires
            self.encoding().len() >= 4,
        ensures
            r == is_lower(self.encoding()[3]),
    {
        byte_is_lower(self.signature.as_str().as_bytes()[3])
    }

    /// Whether the text is four ASCII letters.
    pub fn is_valid(&self) -> (r: bool)
        ensures
            r == valid_type_text(self@),
            r == valid_type_bytes(self.encoding()),
    {
        is_valid(self.signature.as_str())
    }
}

} // verus!
