//! From file to image: the chunks are read verbatim, the first one is tested
//! as a header, and the image is made from its fields.

use crate::bytes::{be_value, bytes_to_u32, same_text, take_bytes, ByteCursor};
use crate::chunk::{
    all_framed, chunk_views, first_chunk, frame_len, get_chunk, has_chunk, lemma_wire_of_parse,
    parse_chunks, Chunk, ChunkView,
};
use crate::image::{
    ihdr_chunk, lemma_ihdr_chunk_sound, make_ihdr, signature, PngView, HEADER, PNG,
};
use vstd::prelude::*;

verus! {

/// Why a chunk stream is not an image.
#[derive(Clone, Copy, Debug, PartialEq, Eq)]
pub enum FormatError {
    /// The first chunk is not tagged `IHDR`.
    MissingIhdr,
    /// The first chunk's length is not 13.
    WrongIhdrSize,
    /// The first chunk's checksum does not belong to its tag and payload.
    BadIhdrCrc,
}

impl FormatError {
    /// The error in words.
    pub fn message(&self) -> (text: &'static str)
        ensures
            text@ == match self {
                FormatError::MissingIhdr => "First chunk must be IHDR!"@,
                FormatError::WrongIhdrSize => "IHDR chunk wrongs size!"@,
                FormatError::BadIhdrCrc => "IHDR CRC failed!"@,
            },
    {
        match self {
            FormatError::MissingIhdr => "First chunk must be IHDR!",
            FormatError::WrongIhdrSize => "IHDR chunk wrongs size!",
            FormatError::BadIhdrCrc => "IHDR CRC failed!",
        }
    }
}

/// Why a chunk cannot open an image, if it cannot: the tag is tested first,
/// then the stored length, then the checksum.
pub open spec fn ihdr_error(first: ChunkView) -> Option<FormatError> {
    if first.name != "IHDR"@ {
        Some(FormatError::MissingIhdr)
    } else if first.size != 13 {
        Some(FormatError::WrongIhdrSize)
    } else if !first.crc_ok() {
        Some(FormatError::BadIhdrCrc)
    } else {
        None
    }
}

/// The header fields can be read off a run of chunks: where its first chunk
/// is a sound header, that chunk holds the ten bytes that are read from it.
/// A chunk read from a file always does.
pub open spec fn header_readable(chunks: Seq<ChunkView>) -> bool {
    chunks.len() >= 1 && ihdr_error(chunks[0]) is None ==> chunks[0].data.len() >= 10
}

/// The chunks strictly between the first and the last; none where the run
/// has fewer than two chunks.
pub open spec fn inner_chunks(chunks: Seq<ChunkView>) -> Seq<ChunkView> {
    if chunks.len() >= 2 {
        chunks.subrange(1, chunks.len() - 1)
    } else {
        Seq::empty()
    }
}

/// The image that a run of chunks stands for. A run without chunks lacks its
/// header. Otherwise width, height, bit depth and colour code are read from
/// the first chunk and the header chunk is made anew from them; the chunks
/// strictly between the first and the last are kept, whatever the last one
/// is; there are no scanlines.
pub open spec fn image_of_chunks(chunks: Seq<ChunkView>) -> Result<PngView, FormatError> {
    if chunks.len() == 0 {
        Err(FormatError::MissingIhdr)
    } else {
        match ihdr_error(chunks[0]) {
            Some(e) => Err(e),
            None => {
                let header = chunks[0].data;
                let width = be_value(header.subrange(0, 4)) as u32;
                let height = be_value(header.subrange(4, 8)) as u32;
                Ok(
                    PngView {
                        ihdr: ihdr_chunk(width, height, header[8], header[9]),
                        dimension: (width, height),
                        bit_depth: header[8],
                        chunks: inner_chunks(chunks),
                        data: Seq::empty(),
                    },
                )
            },
        }
    }
}

/// A file can be decoded or refused: it holds the eight bytes of the
/// signature, whatever they are, and after them chunks that tile the rest
/// exactly. There may be no chunk at all.
pub open spec fn decodable(file: Seq<u8>) -> bool {
    file.len() >= 8 && parse_chunks(file.skip(8)) is Some
}

/// What decoding a file gives.
pub open spec fn decoded(file: Seq<u8>) -> Result<PngView, FormatError> {
    image_of_chunks(parse_chunks(file.skip(8))->0)
}

/// The outcome of a decoding, with the image as mathematical values.
pub open spec fn outcome_view(outcome: Result<PNG, FormatError>) -> Result<
    PngView,
    FormatError,
> {
    match outcome {
        Ok(image) => Ok(image@),
        Err(e) => Err(e),
    }
}

/// A file that can be decoded or refused is refused exactly where it holds
/// no chunk or its first chunk cannot open an image, with the error that
/// says why.
pub proof fn lemma_decoded_error(file: Seq<u8>)
    requires
        decodable(file),
    ensures
        decoded(file) is Err <==> file.len() == 8 || ihdr_error(first_chunk(file.skip(8)))
            is Some,
        file.len() == 8 ==> decoded(file) == Err::<PngView, FormatError>(
            FormatError::MissingIhdr,
        ),
        file.len() > 8 ==> (decoded(file) matches Err(e) ==> ihdr_error(
            first_chunk(file.skip(8)),
        ) == Some(e)),
{
    let stream = file.skip(8);
    let chunks = parse_chunks(stream)->0;
    if stream.len() > 0 {
        let rest = parse_chunks(stream.skip(frame_len(stream) as int))->0;
        assert(chunks == seq![first_chunk(stream)] + rest);
        assert(chunks[0] == first_chunk(stream));
    }
}

/// The chunks that tile a stream are fit to have the header fields read off
/// them.
pub proof fn lemma_parsed_header_readable(stream: Seq<u8>)
    requires
        parse_chunks(stream) is Some,
    ensures
        header_readable(parse_chunks(stream)->0),
{
    lemma_wire_of_parse(stream);
}

/// The header chunk for any fields passes every test that a first chunk is
/// put to.
pub proof fn lemma_ihdr_chunk_passes(width: u32, height: u32, bit_depth: u8, colour: u8)
    ensures
        ihdr_error(ihdr_chunk(width, height, bit_depth, colour)) is None,
{
    lemma_ihdr_chunk_sound(width, height, bit_depth, colour);
}

/// Why the chunk cannot open an image, if it cannot.
pub fn ihdr_check(first: &Chunk) -> (fault: Option<FormatError>)
    ensures
        fault == ihdr_error(first@),
{
    if !same_text(first.name.as_str(), "IHDR") {
        Some(FormatError::MissingIhdr)
    } else if first.size != 13 {
        Some(FormatError::WrongIhdrSize)
    } else if !first.check_crc() {
        Some(FormatError::BadIhdrCrc)
    } else {
        None
    }
}

/// Whether the file opens with the PNG signature.
pub fn has_signature(file: &[u8]) -> (found: bool)
    ensures
        found == (file@.len() >= 8 && file@.take(8) == signature()),
{
    if file.len() < 8 {
        return false;
    }
    let mut i: usize = 0;
    while i < 8
        invariant
            i <= 8,
            file@.len() >= 8,
            forall|k: int| 0 <= k < i ==> file@[k] == signature()[k],
        decreases 8 - i,
    {
        if file[i] != HEADER[i] {
            assert(file@.take(8)[i as int] != signature()[i as int]);
            return false;
        }
        i += 1;
    }
    assert(file@.take(8) =~= signature());
    true
}

/// Reads the chunks of a file, verbatim. The first eight bytes are passed
/// over unread. `None` where the file is shorter than that or a chunk runs
/// past its end.
pub fn read_chunks(file: &[u8]) -> (found: Option<Vec<Chunk>>)
    ensures
        match found {
            Some(chunks) => file@.len() >= 8 && parse_chunks(file@.skip(8)) == Some(
                chunk_views(chunks@),
            ),
            None => file@.len() < 8 || parse_chunks(file@.skip(8)) is None,
        },
{
    if file.len() < 8 {
        return None;
    }
    let mut cursor = ByteCursor::new(file);
    take_bytes(&mut cursor, 8);
    let ghost stream = file@.skip(8);
    let mut chunks: Vec<Chunk> = Vec::new();
    assert(chunk_views(chunks@) + Seq::<ChunkView>::empty() =~= Seq::<ChunkView>::empty());
    while cursor.len() > 0
        invariant
            file@.len() >= 8,
            stream == file@.skip(8),
            parse_chunks(stream) == match parse_chunks(cursor.remaining()) {
                None => None::<Seq<ChunkView>>,
                Some(rest) => Some(chunk_views(chunks@) + rest),
            },
        decreases cursor.remaining().len(),
    {
        if !has_chunk(&cursor) {
            assert(parse_chunks(cursor.remaining()) is None);
            return None;
        }
        let ghost here = cursor.remaining();
        let ghost before = chunk_views(chunks@);
        let read = get_chunk(&mut cursor);
        chunks.push(read.0);
        proof {
            assert(chunk_views(chunks@) =~= before.push(first_chunk(here)));
            match parse_chunks(cursor.remaining()) {
                None => {},
                Some(rest) => {
                    assert(before + (seq![first_chunk(here)] + rest) =~= chunk_views(chunks@)
                        + rest);
                },
            }
        }
    }
    assert(chunk_views(chunks@) + Seq::<ChunkView>::empty() =~= chunk_views(chunks@));
    Some(chunks)
}

impl PNG {
    /// Turns the chunks of a file into an image, or says why they are none.
    /// A run without chunks lacks its header. Otherwise the first chunk is
    /// tested and its fields are read, and the header chunk is made anew from
    /// them; the last chunk is dropped unread; the chunks in between are
    /// kept; there are no scanlines.
    pub fn from_chunks(chunks: Vec<Chunk>) -> (image: Result<PNG, FormatError>)
        requires
            header_readable(chunk_views(chunks@)),
        ensures
            outcome_view(image) == image_of_chunks(chunk_views(chunks@)),
            image is Err <==> chunks@.len() == 0 || chunks@[0]@.name != "IHDR"@
                || chunks@[0]@.size != 13 || !chunks@[0]@.crc_ok(),
            image matches Ok(made) ==> (all_framed(chunk_views(chunks@))
                ==> made@.well_formed()),
            image matches Ok(made) ==> made.data@.len() == 0 && made.chunks@.len()
                == inner_chunks(chunk_views(chunks@)).len(),
    {
        let ghost views = chunk_views(chunks@);
        let mut chunks = chunks;
        if chunks.len() == 0 {
            return Err(FormatError::MissingIhdr);
        }
        let ihdr = &chunks[0];
        assert(ihdr@ == views[0]);
        match ihdr_check(ihdr) {
            Some(e) => {
                return Err(e);
            },
            None => {},
        }
        let ihdr_data = ihdr.data();
        let mut ihdr_iter = ByteCursor::new(ihdr_data.as_slice());
        let width_buf = take_bytes(&mut ihdr_iter, 4);
        let width = bytes_to_u32(width_buf.as_slice());
        let height_buf = take_bytes(&mut ihdr_iter, 4);
        let height = bytes_to_u32(height_buf.as_slice());
        let bit_depth = take_bytes(&mut ihdr_iter, 1)[0];
        let colour_type = take_bytes(&mut ihdr_iter, 1)[0];
        proof {
            let header = views[0].data;
            assert(width_buf@ =~= header.subrange(0, 4));
            assert(height_buf@ =~= header.subrange(4, 8));
            assert(bit_depth == header[8]);
            assert(colour_type == header[9]);
        }

        chunks.remove(0);
        chunks.pop();
        assert(chunk_views(chunks@) =~= inner_chunks(views));

        let image = PNG {
            ihdr: make_ihdr(width, height, bit_depth, colour_type),
            bit_depth,
            chunks,
            data: Vec::new(),
            dimension: (width, height),
        };
        assert(image@.data =~= Seq::<Seq<u8>>::empty());
        proof {
            lemma_ihdr_chunk_sound(width, height, bit_depth, colour_type);
            if all_framed(views) {
                assert forall|i: int| 0 <= i < image@.chunks.len() implies (
                #[trigger] image@.chunks[i]).framed() by {
                    assert(image@.chunks[i] == views[i + 1]);
                }
            }
        }
        Ok(image)
    }

    /// Decodes a file where it can be decoded or refused; `None` where it is
    /// shorter than the signature or a chunk runs past its end. The chunks
    /// are read verbatim and turned into an image: the signature is passed
    /// over unread, a file without chunks lacks its header, and the image
    /// data is kept as chunks, not unpacked into scanlines.
    pub fn try_from_bytes(file: &[u8]) -> (image: Option<Result<PNG, FormatError>>)
        ensures
            image is Some <==> decodable(file@),
            image matches Some(outcome) ==> outcome_view(outcome) == decoded(file@),
            image matches Some(Ok(made)) ==> made@.well_formed() && made.data@.len() == 0,
    {
        match read_chunks(file) {
            None => None,
            Some(chunks) => {
                proof {
                    lemma_wire_of_parse(file@.skip(8));
                    lemma_parsed_header_readable(file@.skip(8));
                }
                Some(PNG::from_chunks(chunks))
            },
        }
    }

    /// Decodes a file that can be decoded or refused.
    pub fn from_bytes(file: &[u8]) -> (image: Result<PNG, FormatError>)
        requires
            file@.len() >= 8,
            parse_chunks(file@.skip(8)) is Some,
        ensures
            outcome_view(image) == decoded(file@),
            image is Err <==> file@.len() == 8 || ihdr_error(first_chunk(file@.skip(8)))
                is Some,
            file@.len() == 8 ==> image == Err::<PNG, FormatError>(FormatError::MissingIhdr),
            file@.len() > 8 ==> (image matches Err(e) ==> ihdr_error(
                first_chunk(file@.skip(8)),
            ) == Some(e)),
            image matches Ok(made) ==> made@.well_formed() && made.data@.len() == 0,
    {
        proof {
            lemma_decoded_error(file@);
            lemma_wire_of_parse(file@.skip(8));
            lemma_parsed_header_readable(file@.skip(8));
        }
        let chunks = read_chunks(file).unwrap();
        PNG::from_chunks(chunks)
    }

    /// Whether a file can be decoded or refused, that is, whether
    /// `from_bytes` may be called on it.
    pub fn can_decode(file: &[u8]) -> (ok: bool)
        ensures
            ok == decodable(file@),
    {
        read_chunks(file).is_some()
    }
}

} // verus!
