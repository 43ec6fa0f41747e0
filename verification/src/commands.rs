//! What the command line does to a container once it is in memory: hide a
//! message in a new chunk, read a message back, take a chunk out.

use vstd::prelude::*;
use vstd::slice::*;
use vstd::string::*;
use vstd::utf8::*;
use crate::chunk::{ieee_checksum, Chunk, ChunkError, ChunkView};
use crate::chunk_type::type_bytes;
use crate::png::{first_of_type, none_of_type, Png};

verus! {

/// The chunk of type `kind` that holds `text` as its data.
pub open spec fn message_chunk(kind: Seq<char>, text: Seq<char>) -> ChunkView {
    ChunkView {
        length: encode_utf8(text).len() as u32,
        tag: kind,
        data: encode_utf8(text),
        crc: ieee_checksum(type_bytes(kind) + encode_utf8(text)),
    }
}

/// Puts a chunk of type `chunk_type` that holds `message` behind the chunks
/// of `png`.
pub fn encode_message(png: &mut Png, chunk_type: &str, message: &str)
    requires
        encode_utf8(chunk_type@).len() >= 4,
        encode_utf8(message@).len() <= u32::MAX,
    ensures
        final(png)@ == old(png)@.push(message_chunk(chunk_type@, message@)),
{
    let data: Vec<u8> = slice_to_vec(message.as_bytes());
    let chunk = Chunk::new(chunk_type.to_owned(), data);
    assert(chunk@ == message_chunk(chunk_type@, message@));
    png.append_chunk(chunk);
}

/// The text in the first chunk of type `chunk_type`.
pub fn decode_message(png: &Png, chunk_type: &str) -> (r: Result<String, ChunkError>)
    ensures
        match r {
            Ok(s) => exists|i: int|
                #[trigger] first_of_type(png@, chunk_type@, i) && valid_utf8(png@[i].data) && s@
                    == decode_utf8(png@[i].data),
            Err(e) => if none_of_type(png@, chunk_type@) {
                e == ChunkError::NotFound
            } else {
                e == ChunkError::DataEncoding && exists|i: int|
                    #[trigger] first_of_type(png@, chunk_type@, i) && !valid_utf8(png@[i].data)
            },
        },
{
    match png.chunk_by_type(chunk_type) {
        None => Err(ChunkError::NotFound),
        Some(chunk) => {
            let ghost i = choose|i: int|
                #[trigger] first_of_type(png@, chunk_type@, i) && chunk@ == png@[i];
            assert(!none_of_type(png@, chunk_type@)) by {
                assert(png@[i].tag == chunk_type@);
            }
            chunk.data_as_string()
        },
    }
}

/// Takes the first chunk of type `chunk_type` out of `png`.
pub fn remove_message(png: &mut Png, chunk_type: &str) -> (r: Result<(), ChunkError>)
    ensures
        match r {
            Ok(_) => exists|i: int|
                #[trigger] first_of_type(old(png)@, chunk_type@, i)
                    && final(png)@ == old(png)@.remove(i),
            Err(e) => e == ChunkError::NotFound
                && none_of_type(old(png)@, chunk_type@)
                && final(png)@ == old(png)@,
        },
{
    match png.remove_chunk(chunk_type) {
        Ok(_) => Ok(()),
        Err(e) => Err(e),
    }
}

} // verus!
