//! Chunks: their fields, their byte layout and their checksum.

use vstd::prelude::*;
use vstd::slice::*;
use vstd::utf8::*;
use crate::chunk_type::{decode_text, type_bytes, ChunkType};

verus! {

/// Why a chunk or a container could not be read, or a chunk not found.
#[derive(Debug, Clone, Copy, PartialEq, Eq)]
pub enum ChunkError {
    /// The stored checksum is not the checksum of the type and the data.
    CRC,
    /// The stream does not start with the container's signature.
    Header,
    /// The stream ends before the record that it announces.
    Truncated,
    /// The four type bytes are not text.
    TypeEncoding,
    /// The data bytes are not text.
    DataEncoding,
    /// No chunk has the type that was asked for.
    NotFound,
}

/// The CRC-32 of `bytes` with the IEEE 802.3 polynomial.
pub uninterp spec fn ieee_checksum(bytes: Seq<u8>) -> u32;

/// `crc::crc32::checksum_ieee` of the crc crate: a pure function of the
/// bytes, here given the name `ieee_checksum`; nothing more is claimed of it.
#[verifier::external_body]
fn checksum(bytes: &[u8]) -> (r: u32)
    ensures
        r == ieee_checksum(bytes@),
{
    crc::crc32::checksum_ieee(bytes)
}

/// The four bytes of `x`, most significant first.
pub open spec fn be_bytes(x: u32) -> Seq<u8> {
    seq![(x >> 24) as u8, (x >> 16) as u8, (x >> 8) as u8, x as u8]
}

/// The number that four bytes spell, most significant first.
pub open spec fn be_value(b: Seq<u8>) -> u32
    recommends
        b.len() == 4,
{
    ((b[0] as u32) << 24) | ((b[1] as u32) << 16) | ((b[2] as u32) << 8) | (b[3] as u32)
}

/// Reading back the big-endian bytes of a number gives the number.
pub proof fn lemma_be_round_trip(x: u32)
    ensures
        be_value(be_bytes(x)) == x,
{
    assert(((((x >> 24) as u8) as u32) << 24) | ((((x >> 16) as u8) as u32) << 16) | ((((x
        >> 8) as u8) as u32) << 8) | ((x as u8) as u32) == x) by (bit_vector);
}

/// Four bytes are the big-endian bytes of the number that they spell.
pub proof fn lemma_be_bytes_of_value(b: Seq<u8>)
    requires
        b.len() == 4,
    ensures
        be_bytes(be_value(b)) == b,
{
    let b0 = b[0];
    let b1 = b[1];
    let b2 = b[2];
    let b3 = b[3];
    let x = ((b0 as u32) << 24) | ((b1 as u32) << 16) | ((b2 as u32) << 8) | (b3 as u32);
    assert((x >> 24) as u8 == b0 && (x >> 16) as u8 == b1 && (x >> 8) as u8 == b2 && x as u8
        == b3) by (bit_vector)
        requires
            x == ((b0 as u32) << 24) | ((b1 as u32) << 16) | ((b2 as u32) << 8) | (b3 as u32),
    ;
    assert(be_bytes(be_value(b)) =~= b);
}

fn push_be(out: &mut Vec<u8>, x: u32)
    ensures
        final(out)@ == old(out)@ + be_bytes(x),
{
    out.push(#[verifier::truncate] ((x >> 24) as u8));
    out.push(#[verifier::truncate] ((x >> 16) as u8));
    out.push(#[verifier::truncate] ((x >> 8) as u8));
    out.push(#[verifier::truncate] (x as u8));
    assert(out@ =~= old(out)@ + be_bytes(x));
}

pub(crate) fn read_be(bytes: &[u8], at: usize) -> (r: u32)
    requires
        at + 4 <= bytes@.len(),
    ensures
        r == be_value(bytes@.subrange(at as int, at + 4)),
{
    let b0: u32 = bytes[at] as u32;
    let b1: u32 = bytes[at + 1] as u32;
    let b2: u32 = bytes[at + 2] as u32;
    let b3: u32 = bytes[at + 3] as u32;
    (b0 << 24) | (b1 << 16) | (b2 << 8) | b3
}

fn push_all(out: &mut Vec<u8>, src: &[u8])
    ensures
        final(out)@ == old(out)@ + src@,
{
    let mut i: usize = 0;
    while i < src.len()
        invariant
            i <= src@.len(),
            out@ == old(out)@ + src@.subrange(0, i as int),
        decreases src@.len() - i,
    {
        out.push(src[i]);
        i += 1;
        assert(out@ =~= old(out)@ + src@.subrange(0, i as int));
    }
    assert(src@.subrange(0, i as int) =~= src@);
}

/// What a chunk holds.
pub struct ChunkView {
    /// The declared length of the data.
    pub length: u32,
    /// The text of the chunk's type.
    pub tag: Seq<char>,
    /// The data.
    pub data: Seq<u8>,
    /// The stored checksum.
    pub crc: u32,
}

impl ChunkView {
    /// The bytes that the checksum covers: the type's four bytes, then the data.
    pub open spec fn covered(self) -> Seq<u8> {
        type_bytes(self.tag) + self.data
    }

    /// The declared length is the data's, the type has its four bytes, and
    /// the stored checksum is that of the covered bytes.
    pub open spec fn wf(self) -> bool {
        &&& self.length as int == self.data.len()
        &&& encode_utf8(self.tag).len() >= 4
        &&& self.crc == ieee_checksum(self.covered())
    }

    /// The chunk on the wire: length, type, data, checksum.
    pub open spec fn wire(self) -> Seq<u8> {
        be_bytes(self.length) + type_bytes(self.tag) + self.data + be_bytes(self.crc)
    }
}

/// The chunk that `bytes` start with. Bytes behind the record are not read.
pub open spec fn parse_chunk(bytes: Seq<u8>) -> Result<ChunkView, ChunkError> {
    if bytes.len() < 12 {
        Err(ChunkError::Truncated)
    } else {
        let length = be_value(bytes.subrange(0, 4));
        if bytes.len() < 12 + length {
            Err(ChunkError::Truncated)
        } else if !valid_utf8(bytes.subrange(4, 8)) {
            Err(ChunkError::TypeEncoding)
        } else {
            let crc = be_value(bytes.subrange(8 + length, 12 + length));
            if crc != ieee_checksum(bytes.subrange(4, 8 + length)) {
                Err(ChunkError::CRC)
            } else {
                Ok(
                    ChunkView {
                        length,
                        tag: decode_utf8(bytes.subrange(4, 8)),
                        data: bytes.subrange(8, 8 + length),
                        crc,
                    },
                )
            }
        }
    }
}

/// What `parse_chunk` accepts is well formed, and its type has exactly four
/// bytes.
pub proof fn lemma_parsed_chunk_wf(bytes: Seq<u8>)
    ensures
        parse_chunk(bytes) matches Ok(v) ==> v.wf() && encode_utf8(v.tag) == bytes.subrange(4, 8)
            && bytes.len() >= 12 + v.length,
{
    if let Ok(v) = parse_chunk(bytes) {
        let length = be_value(bytes.subrange(0, 4));
        decode_utf8_encode_utf8(bytes.subrange(4, 8));
        assert(type_bytes(v.tag) =~= bytes.subrange(4, 8));
        assert(v.covered() =~= bytes.subrange(4, 8 + length));
    }
}

/// Reading loses nothing: the wire form of the chunk that was read is the
/// record that it was read from, byte for byte.
pub proof fn lemma_parsed_chunk_wire(bytes: Seq<u8>)
    ensures
        parse_chunk(bytes) matches Ok(v) ==> v.wire() == bytes.subrange(0, 12 + v.length),
{
    if let Ok(v) = parse_chunk(bytes) {
        let n = v.length as int;
        lemma_parsed_chunk_wf(bytes);
        lemma_be_bytes_of_value(bytes.subrange(0, 4));
        lemma_be_bytes_of_value(bytes.subrange(8 + n, 12 + n));
        assert(type_bytes(v.tag) =~= bytes.subrange(4, 8));
        assert(v.wire() =~= bytes.subrange(0, 12 + n));
    }
}

/// Reading a chunk looks at its own record only: the bytes up to the end of
/// the record that the length field announces decide the result.
pub proof fn lemma_parse_chunk_span(bytes: Seq<u8>)
    requires
        bytes.len() >= 12 + be_value(bytes.subrange(0, 4)),
    ensures
        parse_chunk(bytes.subrange(0, 12 + be_value(bytes.subrange(0, 4)))) == parse_chunk(bytes),
{
    let n = be_value(bytes.subrange(0, 4)) as int;
    let record = bytes.subrange(0, 12 + n);
    assert(record.subrange(0, 4) =~= bytes.subrange(0, 4));
    assert(record.subrange(4, 8) =~= bytes.subrange(4, 8));
    assert(record.subrange(8, 8 + n) =~= bytes.subrange(8, 8 + n));
    assert(record.subrange(8 + n, 12 + n) =~= bytes.subrange(8 + n, 12 + n));
    assert(record.subrange(4, 8 + n) =~= bytes.subrange(4, 8 + n));
}

/// A well-formed chunk whose type has exactly four bytes is read back from
/// its wire form, whatever bytes follow it, and those bytes are what is left.
pub proof fn lemma_chunk_round_trip_prefix(v: ChunkView, tail: Seq<u8>)
    requires
        v.wf(),
        encode_utf8(v.tag).len() == 4,
    ensures
        parse_chunk(v.wire() + tail) == Ok::<ChunkView, ChunkError>(v),
        v.wire().len() == 12 + v.length,
        (v.wire() + tail).skip(12 + v.length) == tail,
{
    let bytes = v.wire() + tail;
    let n = v.length as int;
    let tag = encode_utf8(v.tag);
    assert(type_bytes(v.tag) =~= tag);
    assert(bytes.subrange(0, 4) =~= be_bytes(v.length));
    lemma_be_round_trip(v.length);
    assert(bytes.subrange(4, 8) =~= tag);
    encode_utf8_valid_utf8(v.tag);
    encode_utf8_decode_utf8(v.tag);
    assert(bytes.subrange(8, 8 + n) =~= v.data);
    assert(bytes.subrange(8 + n, 12 + n) =~= be_bytes(v.crc));
    lemma_be_round_trip(v.crc);
    assert(bytes.subrange(4, 8 + n) =~= v.covered());
    assert(bytes.skip(12 + n) =~= tail);
}

/// Round trip: the wire form of a well-formed chunk whose type has exactly
/// four bytes parses to that chunk, with the same length, type, data and
/// checksum.
pub proof fn lemma_chunk_round_trip(v: ChunkView)
    requires
        v.wf(),
        encode_utf8(v.tag).len() == 4,
    ensures
        parse_chunk(v.wire()) == Ok::<ChunkView, ChunkError>(v),
{
    lemma_chunk_round_trip_prefix(v, Seq::empty());
    assert(v.wire() + Seq::<u8>::empty() =~= v.wire());
}

/// A record whose type and data were replaced by as many other bytes, the
/// type still being text, is accepted exactly when the checksum of the new
/// bytes is the stored one, and is otherwise refused for its checksum.
pub proof fn lemma_altered_content_refused(v: ChunkView, altered: Seq<u8>)
    requires
        v.length as int == v.data.len(),
        altered.len() == 4 + v.length,
        valid_utf8(altered.subrange(0, 4)),
    ensures
        ieee_checksum(altered) != v.crc ==> parse_chunk(
            be_bytes(v.length) + altered + be_bytes(v.crc),
        ) == Err::<ChunkView, ChunkError>(ChunkError::CRC),
        ieee_checksum(altered) == v.crc ==> parse_chunk(
            be_bytes(v.length) + altered + be_bytes(v.crc),
        ) is Ok,
{
    let bytes = be_bytes(v.length) + altered + be_bytes(v.crc);
    let n = v.length as int;
    assert(bytes.subrange(0, 4) =~= be_bytes(v.length));
    lemma_be_round_trip(v.length);
    assert(bytes.subrange(4, 8) =~= altered.subrange(0, 4));
    assert(bytes.subrange(8 + n, 12 + n) =~= be_bytes(v.crc));
    lemma_be_round_trip(v.crc);
    assert(bytes.subrange(4, 8 + n) =~= altered);
}

/// A record whose four type bytes are not text is refused for that, whatever
/// its checksum.
pub proof fn lemma_type_checked_before_checksum(bytes: Seq<u8>)
    requires
        bytes.len() >= 12 + be_value(bytes.subrange(0, 4)),
        !valid_utf8(bytes.subrange(4, 8)),
    ensures
        parse_chunk(bytes) == Err::<ChunkView, ChunkError>(ChunkError::TypeEncoding),
{
}

/// The integrity gate: a stored checksum passes exactly when it equals the
/// checksum computed from the content.
pub fn check_crc(stored: u32, computed: u32) -> (r: Result<(), ChunkError>)
    ensures
        r == (if stored == computed {
            Ok::<(), ChunkError>(())
        } else {
            Err::<(), ChunkError>(ChunkError::CRC)
        }),
{
    if stored == computed {
        Ok(())
    } else {
        Err(ChunkError::CRC)
    }
}

fn content_checksum(tag: &[u8; 4], data: &Vec<u8>) -> (r: u32)
    ensures
        r == ieee_checksum(tag@ + data@),
{
    let mut covered: Vec<u8> = Vec::new();
    push_all(&mut covered, tag.as_slice());
    push_all(&mut covered, data.as_slice());
    assert(covered@ =~= tag@ + data@);
    checksum(covered.as_slice())
}

/// One record of the container: a type, data, and the checksum of both.
#[derive(Debug)]
pub struct Chunk {
    length: u32,
    chunk_t: ChunkType,
    chunk_data: Vec<u8>,
    crc: u32,
}

impl View for Chunk {
    type V = ChunkView;

    closed spec fn view(&self) -> ChunkView {
        ChunkView {
            length: self.length,
            tag: self.chunk_t@,
            data: self.chunk_data@,
            crc: self.crc,
        }
    }
}

impl Chunk {
    /// Every chunk is well formed: `new` and `try_from` make no other.
    #[verifier::type_invariant]
    spec fn inv(self) -> bool {
        self@.wf()
    }

    /// A chunk of type `chunk_t` that holds `chunk_data`, with its checksum.
    pub fn new(chunk_t: String, chunk_data: Vec<u8>) -> (r: Chunk)
        requires
            encode_utf8(chunk_t@).len() >= 4,
            chunk_data@.len() <= u32::MAX,
        ensures
            r@.length as int == chunk_data@.len(),
            r@.tag == chunk_t@,
            r@.data == chunk_data@,
            r@.crc == ieee_checksum(type_bytes(chunk_t@) + chunk_data@),
            r@.wf(),
    {
        let chunk_t = ChunkType::from_str(chunk_t.as_str()).unwrap();
        let length: u32 = chunk_data.len() as u32;
        let crc = content_checksum(&chunk_t.bytes(), &chunk_data);
        Chunk { length, chunk_t, chunk_data, crc }
    }

    /// The declared length, which is the length of the data.
    pub fn length(&self) -> (r: u32)
        ensures
            r == self@.length,
            r as int == self@.data.len(),
    {
        proof {
            use_type_invariant(self);
        }
        self.length
    }

    /// The chunk's type, which has the four bytes that serializing needs.
    pub fn chunk_type(&self) -> (r: &ChunkType)
        ensures
            r@ == self@.tag,
            r.encoding().len() >= 4,
    {
        proof {
            use_type_invariant(self);
        }
        &self.chunk_t
    }

    /// The data.
    pub fn data(&self) -> (r: &[u8])
        ensures
            r@ == self@.data,
    {
        self.chunk_data.as_slice()
    }

    /// The data as text, where it is text.
    pub fn data_as_string(&self) -> (r: Result<String, ChunkError>)
        ensures
            valid_utf8(self@.data) ==> (r matches Ok(s) && s@ == decode_utf8(self@.data)),
            !valid_utf8(self@.data) ==> r == Err::<String, ChunkError>(ChunkError::DataEncoding),
    {
        match decode_text(slice_to_vec(self.chunk_data.as_slice())) {
            Some(s) => Ok(s),
            None => Err(ChunkError::DataEncoding),
        }
    }

    /// The checksum of the type and the data, computed anew; it is the stored
    /// one.
    pub fn crc(&self) -> (r: u32)
        ensures
            r == ieee_checksum(self@.covered()),
            r == self@.crc,
    {
        proof {
            use_type_invariant(self);
        }
        content_checksum(&self.chunk_t.bytes(), &self.chunk_data)
    }

    /// The chunk as it stands in a stream. Every chunk is well formed, which
    /// is stated here for callers that go on to read the bytes back.
    pub fn as_bytes(&self) -> (r: Vec<u8>)
        ensures
            r@ == self@.wire(),
            self@.wf(),
    {
        proof {
            use_type_invariant(self);
        }
        let mut out: Vec<u8> = Vec::new();
        push_be(&mut out, self.length);
        let tag = self.chunk_t.bytes();
        push_all(&mut out, tag.as_slice());
        push_all(&mut out, self.chunk_data.as_slice());
        push_be(&mut out, self.crc);
        assert(out@ =~= self@.wire());
        out
    }

    /// Reads the chunk that `bytes` start with and checks its checksum.
    pub fn try_from(bytes: &[u8]) -> (r: Result<Chunk, ChunkError>)
        ensures
            match r {
                Ok(c) => parse_chunk(bytes@) == Ok::<ChunkView, ChunkError>(c@) && c@.wf(),
                Err(e) => parse_chunk(bytes@) == Err::<ChunkView, ChunkError>(e),
            },
    {
        if bytes.len() < 12 {
            return Err(ChunkError::Truncated);
        }
        let length: u32 = read_be(bytes, 0);
        let n: usize = length as usize;
        if bytes.len() - 12 < n {
            return Err(ChunkError::Truncated);
        }
        let tag: [u8; 4] = [bytes[4], bytes[5], bytes[6], bytes[7]];
        assert(tag@ =~= bytes@.subrange(4, 8));
        let chunk_t = match ChunkType::try_from(tag) {
            Ok(t) => t,
            Err(e) => {
                return Err(e);
            },
        };
        let chunk_data: Vec<u8> = slice_to_vec(slice_subrange(bytes, 8, 8 + n));
        let crc: u32 = read_be(bytes, 8 + n);
        let computed: u32 = content_checksum(&chunk_t.bytes(), &chunk_data);
        assert(type_bytes(chunk_t@) =~= tag@);
        assert(tag@ + chunk_data@ =~= bytes@.subrange(4, 8 + n));
        match check_crc(crc, computed) {
            Ok(()) => Ok(Chunk { length, chunk_t, chunk_data, crc }),
            Err(e) => Err(e),
        }
    }
}

} // verus!
