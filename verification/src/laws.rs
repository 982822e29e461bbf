//! What holds of the image codec as a whole: decoding undoes encoding as far
//! as the header goes, a bad header is refused, and image data is cut into
//! full chunks.

use crate::chunk::{
    all_framed, lemma_parse_of_wire, lemma_wire_all_concat, lemma_wire_all_one, wire_all,
    ChunkView,
};
use crate::deflate::zlib_stream;
use crate::decode::{
    decodable, decoded, header_readable, ihdr_error, image_of_chunks, inner_chunks,
    lemma_ihdr_chunk_passes, FormatError,
};
use crate::encode::{filtered, idat_block, idat_chunks, idat_count};
use crate::image::{iend, ihdr_payload, lemma_ihdr_chunk_sound, signature, PngView};
use vstd::prelude::*;

verus! {

/// The image data chunks of any stream are framed.
pub proof fn lemma_idat_chunks_framed(stream: Seq<u8>)
    ensures
        all_framed(idat_chunks(stream)),
{
    reveal_strlit("IDAT");
    assert forall|i: int| 0 <= i < idat_chunks(stream).len() implies (#[trigger] idat_chunks(
        stream,
    )[i]).framed() by {
        assert(idat_block(stream, i).len() <= 1024);
    }
}

/// The chunks of an image's file, in order: header, ancillary chunks, image
/// data chunks, end.
pub open spec fn file_chunks(image: PngView, stream: Seq<u8>) -> Seq<ChunkView> {
    seq![image.ihdr] + image.chunks + idat_chunks(stream) + seq![iend()]
}

/// Every chunk of a well formed image's file is framed.
pub proof fn lemma_file_chunks_framed(image: PngView, stream: Seq<u8>)
    requires
        image.well_formed(),
    ensures
        all_framed(file_chunks(image, stream)),
{
    let idat = idat_chunks(stream);
    let all = file_chunks(image, stream);
    lemma_ihdr_chunk_sound(
        image.dimension.0,
        image.dimension.1,
        image.bit_depth,
        image.ihdr.data[9],
    );
    lemma_idat_chunks_framed(stream);
    assert(iend().framed()) by {
        reveal_strlit("IEND");
    }
    assert forall|i: int| 0 <= i < all.len() implies (#[trigger] all[i]).framed() by {
        if i == 0 {
            assert(all[i] == image.ihdr);
        } else if i < 1 + image.chunks.len() {
            assert(all[i] == image.chunks[i - 1]);
        } else if i < 1 + image.chunks.len() + idat.len() {
            assert(all[i] == idat[i - 1 - image.chunks.len()]);
        } else {
            assert(all[i] == iend());
        }
    }
}

/// An image's file is the signature followed by its chunks.
pub proof fn lemma_wire_is_chunks(image: PngView, stream: Seq<u8>)
    ensures
        image.wire(stream) == signature() + wire_all(file_chunks(image, stream)),
        image.wire(stream).len() >= 8,
        image.wire(stream).skip(8) == wire_all(file_chunks(image, stream)),
{
    let idat = idat_chunks(stream);
    lemma_wire_all_one(image.ihdr);
    lemma_wire_all_one(iend());
    lemma_wire_all_concat(seq![image.ihdr], image.chunks);
    lemma_wire_all_concat(seq![image.ihdr] + image.chunks, idat);
    lemma_wire_all_concat(seq![image.ihdr] + image.chunks + idat, seq![iend()]);
    let chunks_wire = wire_all(file_chunks(image, stream));
    assert(chunks_wire == image.ihdr.wire() + wire_all(image.chunks) + wire_all(idat)
        + iend().wire());
    assert(image.wire(stream) =~= signature() + chunks_wire);
    assert(signature().len() == 8);
    assert((signature() + chunks_wire).skip(8) =~= chunks_wire);
}

/// The chunks of a well formed image's file stand for an image with the
/// same dimensions, bit depth and header chunk, which holds the ancillary
/// chunks followed by the image data chunks, and no scanlines.
pub proof fn lemma_image_of_file_chunks(image: PngView, stream: Seq<u8>)
    requires
        image.well_formed(),
    ensures
        header_readable(file_chunks(image, stream)),
        image_of_chunks(file_chunks(image, stream)) matches Ok(back) && {
            &&& back.dimension == image.dimension
            &&& back.bit_depth == image.bit_depth
            &&& back.ihdr == image.ihdr
            &&& back.chunks == image.chunks + idat_chunks(stream)
            &&& back.data.len() == 0
        },
{
    let idat = idat_chunks(stream);
    let all = file_chunks(image, stream);
    let payload = ihdr_payload(
        image.dimension.0,
        image.dimension.1,
        image.bit_depth,
        image.ihdr.data[9],
    );
    lemma_ihdr_chunk_sound(
        image.dimension.0,
        image.dimension.1,
        image.bit_depth,
        image.ihdr.data[9],
    );
    lemma_ihdr_chunk_passes(
        image.dimension.0,
        image.dimension.1,
        image.bit_depth,
        image.ihdr.data[9],
    );
    assert(all.len() == 2 + image.chunks.len() + idat.len());
    assert(all[0] == image.ihdr);
    assert(all[0].data == payload);
    assert(inner_chunks(all) =~= image.chunks + idat);
}

/// Decoding undoes encoding as far as the header goes. The file of a well
/// formed image, whatever its scanlines compress to, can be decoded; the
/// image that comes back has the same dimensions, bit depth and header
/// chunk, and holds the ancillary chunks followed by the image data chunks.
/// Scanlines do not come back.
pub proof fn lemma_decode_of_wire(image: PngView, stream: Seq<u8>)
    requires
        image.well_formed(),
    ensures
        decodable(image.wire(stream)),
        decoded(image.wire(stream)) matches Ok(back) && {
            &&& back.dimension == image.dimension
            &&& back.bit_depth == image.bit_depth
            &&& back.ihdr == image.ihdr
            &&& back.chunks == image.chunks + idat_chunks(stream)
            &&& back.data.len() == 0
        },
{
    lemma_file_chunks_framed(image, stream);
    lemma_parse_of_wire(file_chunks(image, stream));
    lemma_wire_is_chunks(image, stream);
    lemma_image_of_file_chunks(image, stream);
}

/// Encoding then decoding gives back the dimensions and the bit depth: the
/// case of `lemma_decode_of_wire` in which the stream is the one that the
/// image's scanlines compress to.
pub proof fn lemma_round_trip(image: PngView)
    requires
        image.well_formed(),
    ensures
        decodable(image.encoded()),
        decoded(image.encoded()) matches Ok(back) && back.dimension == image.dimension
            && back.bit_depth == image.bit_depth,
{
    lemma_decode_of_wire(image, zlib_stream(filtered(image.data)));
}

/// A run of chunks is refused exactly where it is empty, or its first chunk
/// is not tagged `IHDR`, or that chunk's length is not 13, or its checksum is
/// wrong, and the error says which of these was found first. Nothing of an
/// image comes with an error.
pub proof fn lemma_bad_header_refused(chunks: Seq<ChunkView>)
    ensures
        chunks.len() == 0 ==> image_of_chunks(chunks) == Err::<PngView, FormatError>(
            FormatError::MissingIhdr,
        ),
        chunks.len() >= 1 && chunks[0].name != "IHDR"@ ==> image_of_chunks(chunks) == Err::<
            PngView,
            FormatError,
        >(FormatError::MissingIhdr),
        chunks.len() >= 1 && chunks[0].name == "IHDR"@ && chunks[0].size != 13
            ==> image_of_chunks(chunks) == Err::<PngView, FormatError>(
            FormatError::WrongIhdrSize,
        ),
        chunks.len() >= 1 && chunks[0].name == "IHDR"@ && chunks[0].size == 13
            && !chunks[0].crc_ok() ==> image_of_chunks(chunks) == Err::<PngView, FormatError>(
            FormatError::BadIhdrCrc,
        ),
        chunks.len() >= 1 && chunks[0].name == "IHDR"@ && chunks[0].size == 13
            && chunks[0].crc_ok() ==> image_of_chunks(chunks) is Ok,
{
}

/// A sound header that is the only chunk stands for an image with the
/// header's fields and no ancillary chunks; so does a header that is followed
/// by one chunk, whatever that chunk is.
pub proof fn lemma_header_alone(chunks: Seq<ChunkView>)
    requires
        1 <= chunks.len() <= 2,
        ihdr_error(chunks[0]) is None,
    ensures
        image_of_chunks(chunks) matches Ok(image) && image.chunks.len() == 0 && image.data.len()
            == 0,
{
}

/// A stream is cut into image data chunks that hold 1024 bytes each but for
/// the last, which holds the rest and is not empty.
pub proof fn lemma_idat_blocks(stream: Seq<u8>, i: int)
    requires
        0 <= i < idat_count(stream.len()),
    ensures
        idat_chunks(stream).len() == idat_count(stream.len()),
        idat_chunks(stream)[i].data == idat_block(stream, i),
        i + 1 < idat_count(stream.len()) ==> idat_block(stream, i).len() == 1024,
        i + 1 == idat_count(stream.len()) ==> idat_block(stream, i).len() == stream.len() - 1024
            * i,
        1 <= idat_block(stream, i).len() <= 1024,
{
}

/// No byte of a stream is lost or moved by the cutting: byte `j` of the
/// stream is byte `j % 1024` of the payload of chunk `j / 1024`.
pub proof fn lemma_idat_blocks_tile(stream: Seq<u8>, j: int)
    requires
        0 <= j < stream.len(),
    ensures
        j / 1024 < idat_count(stream.len()),
        j % 1024 < idat_block(stream, j / 1024).len(),
        idat_chunks(stream)[j / 1024].data[j % 1024] == stream[j],
{
}

} // verus!
