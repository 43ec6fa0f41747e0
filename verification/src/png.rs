//! The container: a signature and the chunks behind it, in order.

use vstd::prelude::*;
use vstd::slice::*;
use crate::chunk::{
    be_value, lemma_chunk_round_trip_prefix, lemma_parse_chunk_span, lemma_parsed_chunk_wf,
    lemma_parsed_chunk_wire, parse_chunk, read_be, Chunk, ChunkError, ChunkView,
};

verus! {

/// The eight bytes that every container starts with.
pub open spec fn signature() -> Seq<u8> {
    seq![137u8, 80u8, 78u8, 71u8, 13u8, 10u8, 26u8, 10u8]
}

/// The wire forms of `chunks`, one after the other.
pub open spec fn records_wire(chunks: Seq<ChunkView>) -> Seq<u8>
    decreases chunks.len(),
{
    if chunks.len() == 0 {
        Seq::empty()
    } else {
        chunks[0].wire() + records_wire(chunks.drop_first())
    }
}

/// The container on the wire: the signature, then the chunks in order.
pub open spec fn png_wire(chunks: Seq<ChunkView>) -> Seq<u8> {
    signature() + records_wire(chunks)
}

/// `first` put before what `rest` holds, or the error that `rest` is.
pub open spec fn prepend(first: Seq<ChunkView>, rest: Result<Seq<ChunkView>, ChunkError>) -> Result<
    Seq<ChunkView>,
    ChunkError,
> {
    match rest {
        Ok(s) => Ok(first + s),
        Err(e) => Err(e),
    }
}

/// The chunks that `bytes` hold, read one record after the other until no
/// byte is left; the first record that cannot be read decides the error.
pub open spec fn parse_records(bytes: Seq<u8>) -> Result<Seq<ChunkView>, ChunkError>
    decreases bytes.len(),
{
    if bytes.len() == 0 {
        Ok(Seq::empty())
    } else {
        match parse_chunk(bytes) {
            Err(e) => Err(e),
            Ok(c) => prepend(seq![c], parse_records(bytes.skip(12 + c.length))),
        }
    }
}

/// The chunks of the container that `bytes` are: the signature must come
/// first, and everything behind it must be whole records.
pub open spec fn parse_png(bytes: Seq<u8>) -> Result<Seq<ChunkView>, ChunkError> {
    if bytes.len() < 8 || bytes.subrange(0, 8) != signature() {
        Err(ChunkError::Header)
    } else {
        parse_records(bytes.skip(8))
    }
}

/// Whether `i` is the place of the first chunk of `chunks` whose type reads
/// `text`.
pub open spec fn first_of_type(chunks: Seq<ChunkView>, text: Seq<char>, i: int) -> bool {
    &&& 0 <= i < chunks.len()
    &&& chunks[i].tag == text
    &&& forall|j: int| 0 <= j < i ==> (#[trigger] chunks[j]).tag != text
}

/// Whether no chunk of `chunks` has a type that reads `text`.
pub open spec fn none_of_type(chunks: Seq<ChunkView>, text: Seq<char>) -> bool {
    forall|j: int| 0 <= j < chunks.len() ==> (#[trigger] chunks[j]).tag != text
}

/// The wire form of a list with one more chunk is the list's, then the
/// chunk's.
pub proof fn lemma_records_wire_push(chunks: Seq<ChunkView>, c: ChunkView)
    ensures
        records_wire(chunks.push(c)) == records_wire(chunks) + c.wire(),
    decreases chunks.len(),
{
    if chunks.len() == 0 {
        assert(chunks.push(c).drop_first() =~= Seq::<ChunkView>::empty());
        assert(records_wire(chunks.push(c).drop_first()) =~= Seq::<u8>::empty());
        assert(records_wire(chunks.push(c)) =~= c.wire());
        assert(records_wire(chunks) + c.wire() =~= c.wire());
    } else {
        lemma_records_wire_push(chunks.drop_first(), c);
        assert(chunks.push(c).drop_first() =~= chunks.drop_first().push(c));
        assert(records_wire(chunks.push(c)) =~= records_wire(chunks) + c.wire());
    }
}

/// Every list of well-formed chunks whose types have exactly four bytes is
/// read back from its records, in order and in content.
pub proof fn lemma_records_round_trip(chunks: Seq<ChunkView>)
    requires
        forall|i: int|
            0 <= i < chunks.len() ==> (#[trigger] chunks[i]).wf() && vstd::utf8::encode_utf8(
                chunks[i].tag,
            ).len() == 4,
    ensures
        parse_records(records_wire(chunks)) == Ok::<Seq<ChunkView>, ChunkError>(chunks),
    decreases chunks.len(),
{
    if chunks.len() == 0 {
        assert(chunks =~= Seq::<ChunkView>::empty());
    } else {
        let c = chunks[0];
        let rest = chunks.drop_first();
        assert forall|i: int| 0 <= i < rest.len() implies (#[trigger] rest[i]).wf()
            && vstd::utf8::encode_utf8(rest[i].tag).len() == 4 by {
            assert(rest[i] == chunks[i + 1]);
        }
        lemma_records_round_trip(rest);
        lemma_chunk_round_trip_prefix(c, records_wire(rest));
        assert(seq![c] + rest =~= chunks);
    }
}

/// Bytes put behind the signature start with it and are what follows it.
pub proof fn lemma_behind_signature(tail: Seq<u8>)
    ensures
        (signature() + tail).len() == 8 + tail.len(),
        (signature() + tail).subrange(0, 8) == signature(),
        (signature() + tail).skip(8) == tail,
{
    assert((signature() + tail).subrange(0, 8) =~= signature());
    assert((signature() + tail).skip(8) =~= tail);
}

/// Container round trip: the wire form of a container whose chunks are well
/// formed, each type of exactly four bytes, parses to the same chunks in the
/// same order.
pub proof fn lemma_png_round_trip(chunks: Seq<ChunkView>)
    requires
        forall|i: int|
            0 <= i < chunks.len() ==> (#[trigger] chunks[i]).wf() && vstd::utf8::encode_utf8(
                chunks[i].tag,
            ).len() == 4,
    ensures
        parse_png(png_wire(chunks)) == Ok::<Seq<ChunkView>, ChunkError>(chunks),
{
    lemma_records_round_trip(chunks);
    lemma_behind_signature(records_wire(chunks));
}

/// What is read from records is well formed, each type has exactly four
/// bytes, and the records of what was read are the bytes that were read.
pub proof fn lemma_parsed_records_wire(bytes: Seq<u8>)
    ensures
        parse_records(bytes) matches Ok(chunks) ==> records_wire(chunks) == bytes && forall|
            i: int,
        |
            0 <= i < chunks.len() ==> (#[trigger] chunks[i]).wf() && vstd::utf8::encode_utf8(
                chunks[i].tag,
            ).len() == 4,
    decreases bytes.len(),
{
    if let Ok(chunks) = parse_records(bytes) {
        if bytes.len() == 0 {
            assert(records_wire(chunks) =~= bytes);
        } else {
            let c = parse_chunk(bytes)->Ok_0;
            let tail = bytes.skip(12 + c.length);
            let rest = parse_records(tail)->Ok_0;
            lemma_parsed_chunk_wf(bytes);
            lemma_parsed_chunk_wire(bytes);
            lemma_parsed_records_wire(tail);
            assert(chunks == seq![c] + rest);
            assert(chunks[0] == c);
            assert(chunks.drop_first() =~= rest);
            assert(bytes.subrange(0, 12 + c.length) + tail =~= bytes);
            assert forall|i: int| 0 <= i < chunks.len() implies (#[trigger] chunks[i]).wf()
                && vstd::utf8::encode_utf8(chunks[i].tag).len() == 4 by {
                if i > 0 {
                    assert(chunks[i] == rest[i - 1]);
                }
            }
        }
    }
}

/// Reading a container loses nothing: the wire form of the chunks that were
/// read is the stream that they were read from, byte for byte, and each of
/// them is well formed.
pub proof fn lemma_parsed_png_wire(bytes: Seq<u8>)
    ensures
        parse_png(bytes) matches Ok(chunks) ==> png_wire(chunks) == bytes && forall|i: int|
            0 <= i < chunks.len() ==> (#[trigger] chunks[i]).wf(),
{
    if let Ok(chunks) = parse_png(bytes) {
        lemma_parsed_records_wire(bytes.skip(8));
        assert(bytes.subrange(0, 8) + bytes.skip(8) =~= bytes);
    }
}

/// Header gate: a buffer that does not start with the eight signature bytes
/// is refused for its header, whatever else it holds.
pub proof fn lemma_header_gate(bytes: Seq<u8>)
    requires
        bytes.len() < 8 || exists|i: int| 0 <= i < 8 && bytes[i] != signature()[i],
    ensures
        parse_png(bytes) == Err::<Seq<ChunkView>, ChunkError>(ChunkError::Header),
{
    if bytes.len() >= 8 {
        let i = choose|i: int| 0 <= i < 8 && bytes[i] != signature()[i];
        assert(bytes.subrange(0, 8)[i] == bytes[i]);
    }
}

/// A container whose bytes are the signature alone holds no chunk.
pub proof fn lemma_signature_alone_is_empty()
    ensures
        parse_png(signature()) == Ok::<Seq<ChunkView>, ChunkError>(Seq::empty()),
{
    assert(signature().subrange(0, 8) =~= signature());
    assert(signature().skip(8) =~= Seq::<u8>::empty());
}

/// What each chunk of `chunks` holds, in order.
pub open spec fn views(chunks: Seq<Chunk>) -> Seq<ChunkView> {
    Seq::new(chunks.len(), |i: int| chunks[i]@)
}

/// A container: chunks in the order in which they stand in the stream.
#[derive(Debug)]
pub struct Png {
    chunks: Vec<Chunk>,
}

impl View for Png {
    type V = Seq<ChunkView>;

    closed spec fn view(&self) -> Seq<ChunkView> {
        views(self.chunks@)
    }
}

impl Png {
    /// The eight bytes that every container starts with.
    pub const STANDARD_HEADER: [u8; 8] = [137, 80, 78, 71, 13, 10, 26, 10];

    /// The container that holds `chunks` in that order.
    pub fn from_chunks(chunks: Vec<Chunk>) -> (r: Png)
        ensures
            r@ == views(chunks@),
    {
        Png { chunks }
    }

    /// The signature.
    pub fn header(&self) -> (r: &[u8; 8])
        ensures
            r@ == signature(),
    {
        let r = &Png::STANDARD_HEADER;
        assert(r@ =~= signature());
        r
    }

    /// Puts `chunk` behind the chunks that are there.
    pub fn append_chunk(&mut self, chunk: Chunk)
        ensures
            final(self)@ == old(self)@.push(chunk@),
    {
        self.chunks.push(chunk);
        assert(self@ =~= old(self)@.push(chunk@));
    }

    /// Takes out the first chunk whose type reads `chunk_type` and hands it
    /// over; the others keep their order.
    pub fn remove_chunk(&mut self, chunk_type: &str) -> (r: Result<Chunk, ChunkError>)
        ensures
            match r {
                Ok(c) => exists|i: int|
                    #[trigger] first_of_type(old(self)@, chunk_type@, i) && c@ == old(self)@[i]
                        && final(self)@ == old(self)@.remove(i),
                Err(e) => e == ChunkError::NotFound && none_of_type(old(self)@, chunk_type@)
                    && final(self)@ == old(self)@,
            },
    {
        let wanted: String = chunk_type.to_owned();
        let mut i: usize = 0;
        while i < self.chunks.len()
            invariant
                i <= self.chunks@.len(),
                self.chunks@ == old(self).chunks@,
                wanted@ == chunk_type@,
                forall|j: int| 0 <= j < i ==> (#[trigger] old(self)@[j]).tag != chunk_type@,
            decreases self.chunks@.len() - i,
        {
            let name: String = self.chunks[i].chunk_type().to_string();
            if name == wanted {
                let c = self.chunks.remove(i);
                proof {
                    assert(first_of_type(old(self)@, chunk_type@, i as int));
                    assert(self@ =~= old(self)@.remove(i as int));
                }
                return Ok(c);
            }
            i += 1;
        }
        Err(ChunkError::NotFound)
    }

    /// The first chunk whose type reads `chunk_type`, if there is one.
    pub fn chunk_by_type(&self, chunk_type: &str) -> (r: Option<&Chunk>)
        ensures
            match r {
                Some(c) => exists|i: int|
                    #[trigger] first_of_type(self@, chunk_type@, i) && c@ == self@[i],
                None => none_of_type(self@, chunk_type@),
            },
    {
        let wanted: String = chunk_type.to_owned();
        let mut i: usize = 0;
        while i < self.chunks.len()
            invariant
                i <= self.chunks@.len(),
                wanted@ == chunk_type@,
                forall|j: int| 0 <= j < i ==> (#[trigger] self@[j]).tag != chunk_type@,
            decreases self.chunks@.len() - i,
        {
            let c = &self.chunks[i];
            let name: String = c.chunk_type().to_string();
            if name == wanted {
                proof {
                    assert(first_of_type(self@, chunk_type@, i as int));
                }
                return Some(c);
            }
            i += 1;
        }
        None
    }

    /// The chunks, in order.
    pub fn chunks(&self) -> (r: &[Chunk])
        ensures
            views(r@) == self@,
    {
        self.chunks.as_slice()
    }

    /// The container as a stream: the signature, then each chunk. Every
    /// chunk of a container is well formed.
    pub fn as_bytes(&self) -> (r: Vec<u8>)
        ensures
            r@ == png_wire(self@),
            forall|i: int| 0 <= i < self@.len() ==> (#[trigger] self@[i]).wf(),
    {
        let mut out: Vec<u8> = Vec::new();
        let mut k: usize = 0;
        while k < 8
            invariant
                k <= 8,
                out@ == signature().subrange(0, k as int),
            decreases 8 - k,
        {
            out.push(Png::STANDARD_HEADER[k]);
            k += 1;
            assert(out@ =~= signature().subrange(0, k as int));
        }
        assert(out@ =~= signature() + records_wire(self@.subrange(0, 0)));
        let mut i: usize = 0;
        while i < self.chunks.len()
            invariant
                i <= self.chunks@.len(),
                out@ == signature() + records_wire(self@.subrange(0, i as int)),
                forall|j: int| 0 <= j < i ==> (#[trigger] self@[j]).wf(),
            decreases self.chunks@.len() - i,
        {
            let mut record = self.chunks[i].as_bytes();
            proof {
                lemma_records_wire_push(self@.subrange(0, i as int), self@[i as int]);
                assert(self@.subrange(0, i as int).push(self@[i as int]) =~= self@.subrange(
                    0,
                    i + 1,
                ));
            }
            out.append(&mut record);
            i += 1;
            assert(out@ =~= signature() + records_wire(self@.subrange(0, i as int)));
        }
        assert(self@.subrange(0, i as int) =~= self@);
        out
    }

    /// Reads a container: the signature, then records until no byte is left.
    /// The first record that cannot be read decides the error.
    pub fn try_from(bytes: &[u8]) -> (r: Result<Png, ChunkError>)
        ensures
            match r {
                Ok(p) => parse_png(bytes@) == Ok::<Seq<ChunkView>, ChunkError>(p@),
                Err(e) => parse_png(bytes@) == Err::<Seq<ChunkView>, ChunkError>(e),
            },
    {
        if bytes.len() < 8 {
            return Err(ChunkError::Header);
        }
        let mut k: usize = 0;
        while k < 8
            invariant
                k <= 8,
                bytes@.len() >= 8,
                forall|j: int| 0 <= j < k ==> bytes@[j] == #[trigger] signature()[j],
            decreases 8 - k,
        {
            if bytes[k] != Png::STANDARD_HEADER[k] {
                proof {
                    assert(bytes@.subrange(0, 8)[k as int] != signature()[k as int]);
                }
                return Err(ChunkError::Header);
            }
            k += 1;
        }
        assert(bytes@.subrange(0, 8) =~= signature());
        let mut chunks: Vec<Chunk> = Vec::new();
        let mut pos: usize = 8;
        assert(bytes@.skip(8) == bytes@.skip(pos as int));
        while pos < bytes.len()
            invariant
                8 <= pos <= bytes@.len(),
                bytes@.subrange(0, 8) == signature(),
                parse_records(bytes@.skip(8)) == prepend(
                    views(chunks@),
                    parse_records(bytes@.skip(pos as int)),
                ),
            decreases bytes@.len() - pos,
        {
            let ghost rest = bytes@.skip(pos as int);
            let left: usize = bytes.len() - pos;
            if left < 12 {
                return Err(ChunkError::Truncated);
            }
            assert(rest.subrange(0, 4) =~= bytes@.subrange(pos as int, pos + 4));
            let n: usize = read_be(bytes, pos) as usize;
            if left - 12 < n {
                return Err(ChunkError::Truncated);
            }
            let span: usize = 12 + n;
            let record = slice_subrange(bytes, pos, pos + span);
            proof {
                assert(record@ =~= rest.subrange(0, 12 + be_value(rest.subrange(0, 4))));
                lemma_parse_chunk_span(rest);
                lemma_parsed_chunk_wf(rest);
            }
            match Chunk::try_from(record) {
                Err(e) => {
                    return Err(e);
                },
                Ok(c) => {
                    proof {
                        assert(rest.skip(12 + c@.length) =~= bytes@.skip(pos + span));
                        assert(views(chunks@.push(c)) =~= views(chunks@).push(c@));
                        match parse_records(bytes@.skip(pos + span)) {
                            Ok(s) => {
                                assert(views(chunks@) + (seq![c@] + s) =~= views(chunks@).push(
                                    c@,
                                ) + s);
                            },
                            Err(_) => {},
                        }
                    }
                    chunks.push(c);
                    pos = pos + span;
                },
            }
        }
        proof {
            assert(bytes@.skip(pos as int) =~= Seq::<u8>::empty());
            assert(views(chunks@) + Seq::<ChunkView>::empty() =~= views(chunks@));
        }
        Ok(Png { chunks })
    }
}

} // verus!
