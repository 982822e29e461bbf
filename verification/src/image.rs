//! The image container: the header chunk, the ancillary chunks and the raw
//! scanlines, with construction from scratch and the one-bit pixel accessor.

use crate::bytes::{be32, be_value, lemma_be_value_of_be32, u32_to_be};
use crate::chunk::{all_framed, chunk_from_data, chunk_views, Chunk, ChunkView, Data};
use crate::colour::ColourType;
use vstd::prelude::*;

verus! {

/// The eight bytes that open every PNG file.
pub const HEADER: [u8; 8] = [0x89, 0x50, 0x4E, 0x47, 0x0D, 0x0A, 0x1A, 0x0A];

/// The checksum of the closing chunk: the CRC-32 of the four bytes `IEND`.
pub const IEND_CRC: u32 = 0xAE426082;

/// An image: its header chunk, the fields that the header was made from, the
/// chunks between header and end, and the scanlines.
#[derive(Debug)]
pub struct PNG {
    pub ihdr: Chunk,
    pub dimension: (u32, u32),
    pub bit_depth: u8,
    pub chunks: Vec<Chunk>,
    pub data: Vec<Vec<u8>>,
}

/// What an image holds, as mathematical values.
pub struct PngView {
    pub ihdr: ChunkView,
    pub dimension: (u32, u32),
    pub bit_depth: u8,
    pub chunks: Seq<ChunkView>,
    pub data: Seq<Seq<u8>>,
}

impl View for PNG {
    type V = PngView;

    open spec fn view(&self) -> PngView {
        PngView {
            ihdr: self.ihdr@,
            dimension: self.dimension,
            bit_depth: self.bit_depth,
            chunks: chunk_views(self.chunks@),
            data: Seq::new(self.data@.len(), |i: int| self.data@[i]@),
        }
    }
}

/// The file signature as a sequence.
pub open spec fn signature() -> Seq<u8> {
    seq![0x89u8, 0x50u8, 0x4Eu8, 0x47u8, 0x0Du8, 0x0Au8, 0x1Au8, 0x0Au8]
}

/// The closing chunk: tag `IEND`, no payload, the fixed checksum.
pub open spec fn iend() -> ChunkView {
    ChunkView { size: 0, name: "IEND"@, data: Seq::empty(), crc: 0xAE426082 }
}

/// The closing chunk on the wire.
pub open spec fn iend_wire() -> Seq<u8> {
    seq![
        0x00u8, 0x00u8, 0x00u8, 0x00u8, 0x49u8, 0x45u8, 0x4Eu8, 0x44u8, 0xAEu8, 0x42u8, 0x60u8,
        0x82u8,
    ]
}

/// The thirteen bytes of a header chunk's payload: width, height, bit depth,
/// colour code, and three zero bytes for compression, filter and interlace.
pub open spec fn ihdr_payload(width: u32, height: u32, bit_depth: u8, colour: u8) -> Seq<u8> {
    be32(width) + be32(height) + seq![bit_depth, colour, 0u8, 0u8, 0u8]
}

/// The header chunk for the given fields.
pub open spec fn ihdr_chunk(width: u32, height: u32, bit_depth: u8, colour: u8) -> ChunkView {
    chunk_from_data("IHDR"@, ihdr_payload(width, height, bit_depth, colour))
}

/// The bytes of one scanline: `width * bit_depth` bits, rounded up to whole
/// bytes. The number of channels is not counted.
pub open spec fn bytes_per_row(width: u32, bit_depth: u8) -> nat {
    ((width * bit_depth + 7) / 8) as nat
}

/// The image that `PNG::new` makes: every scanline byte is `0xFF`.
pub open spec fn blank_image(width: u32, height: u32, bit_depth: u8, colour: u8) -> PngView {
    PngView {
        ihdr: ihdr_chunk(width, height, bit_depth, colour),
        dimension: (width, height),
        bit_depth,
        chunks: Seq::empty(),
        data: Seq::new(
            height as nat,
            |y: int| Seq::new(bytes_per_row(width, bit_depth), |x: int| 0xFFu8),
        ),
    }
}

impl PngView {
    /// The header chunk is the one that belongs to the image's dimensions and
    /// bit depth, and every ancillary chunk can be read back from its wire
    /// form.
    pub open spec fn well_formed(self) -> bool {
        &&& self.ihdr.data.len() == 13
        &&& self.ihdr == ihdr_chunk(
            self.dimension.0,
            self.dimension.1,
            self.bit_depth,
            self.ihdr.data[9],
        )
        &&& all_framed(self.chunks)
    }
}

/// The header chunk for any fields is framed and gives back the fields it
/// was made from.
pub proof fn lemma_ihdr_chunk_sound(width: u32, height: u32, bit_depth: u8, colour: u8)
    ensures
        ihdr_chunk(width, height, bit_depth, colour).framed(),
        ihdr_payload(width, height, bit_depth, colour).len() == 13,
        be_value(ihdr_payload(width, height, bit_depth, colour).subrange(0, 4)) == width,
        be_value(ihdr_payload(width, height, bit_depth, colour).subrange(4, 8)) == height,
        ihdr_payload(width, height, bit_depth, colour)[8] == bit_depth,
        ihdr_payload(width, height, bit_depth, colour)[9] == colour,
{
    reveal_strlit("IHDR");
    let payload = ihdr_payload(width, height, bit_depth, colour);
    assert(payload.subrange(0, 4) =~= be32(width));
    assert(payload.subrange(4, 8) =~= be32(height));
    lemma_be_value_of_be32(width);
    lemma_be_value_of_be32(height);
}

/// A blank image is well formed.
pub proof fn lemma_blank_image_well_formed(width: u32, height: u32, bit_depth: u8, colour: u8)
    ensures
        blank_image(width, height, bit_depth, colour).well_formed(),
{
    lemma_ihdr_chunk_sound(width, height, bit_depth, colour);
}

/// The byte that holds pixel `x` after the pixel is written: the bit
/// `7 - x % 8`, counted from the least significant, is set or cleared.
pub open spec fn with_pixel(byte: u8, x: u32, on: bool) -> u8 {
    if on {
        byte | (0x80u8 >> (x % 8))
    } else {
        byte & !(0x80u8 >> (x % 8))
    }
}

/// The bit that stands for pixel `x` in its byte.
pub open spec fn pixel_mask(x: u32) -> u8 {
    0x80u8 >> (x % 8)
}

/// Writing a pixel sets exactly its own bit to the value written and leaves
/// the other seven bits of the byte as they were. The bit of pixel 0 is the
/// most significant one.
pub proof fn lemma_with_pixel(byte: u8, x: u32, on: bool)
    ensures
        with_pixel(byte, x, on) & pixel_mask(x) == if on { pixel_mask(x) } else { 0u8 },
        with_pixel(byte, x, on) & !pixel_mask(x) == byte & !pixel_mask(x),
        pixel_mask(x) == 1u8 << ((7 - x % 8) as u32),
        x % 8 == 0 ==> pixel_mask(x) == 0x80,
{
    let k = x % 8;
    assert(k < 8);
    assert((byte | (0x80u8 >> k)) & (0x80u8 >> k) == 0x80u8 >> k) by (bit_vector);
    assert((byte | (0x80u8 >> k)) & !(0x80u8 >> k) == byte & !(0x80u8 >> k)) by (bit_vector);
    assert((byte & !(0x80u8 >> k)) & (0x80u8 >> k) == 0u8) by (bit_vector);
    assert((byte & !(0x80u8 >> k)) & !(0x80u8 >> k) == byte & !(0x80u8 >> k)) by (bit_vector);
    let up = (7 - k) as u32;
    assert(0x80u8 >> k == 1u8 << up) by (bit_vector)
        requires
            k < 8,
            up == 7 - k,
    ;
    assert(0x80u8 >> 0u32 == 0x80u8) by (bit_vector);
}

/// The bytes of one scanline: `ceil(width * bit_depth / 8)`.
pub fn row_size(width: u32, bit_depth: u8) -> (n: u64)
    ensures
        n == bytes_per_row(width, bit_depth),
{
    assert(width * bit_depth <= 0xFFFF_FFFF * 0xFF) by (nonlinear_arith)
        requires
            width <= 0xFFFF_FFFF,
            bit_depth <= 0xFF,
    ;
    let bits_per_row: u64 = width as u64 * bit_depth as u64;
    bits_per_row / 8 + if bits_per_row % 8 != 0 {
        1
    } else {
        0
    }
}

/// A scanline of `len` bytes, all `0xFF`.
fn blank_row(len: usize) -> (row: Vec<u8>)
    ensures
        row@ == Seq::new(len as nat, |x: int| 0xFFu8),
{
    let mut row: Vec<u8> = Vec::new();
    let mut i: usize = 0;
    while i < len
        invariant
            i <= len,
            row@ == Seq::new(i as nat, |x: int| 0xFFu8),
        decreases len - i,
    {
        row.push(0xFF);
        i += 1;
    }
    row
}

/// The header chunk for the given fields.
pub(crate) fn make_ihdr(width: u32, height: u32, bit_depth: u8, colour: u8) -> (chunk: Chunk)
    ensures
        chunk@ == ihdr_chunk(width, height, bit_depth, colour),
{
    let width_bytes = u32_to_be(width);
    let height_bytes = u32_to_be(height);
    let payload: [u8; 13] = [
        width_bytes[0],
        width_bytes[1],
        width_bytes[2],
        width_bytes[3],
        height_bytes[0],
        height_bytes[1],
        height_bytes[2],
        height_bytes[3],
        bit_depth,
        colour,
        0,  // Type 0 compression
        0,  // Type 0 filtering
        0,  // No interlacing
    ];
    assert(payload@ =~= ihdr_payload(width, height, bit_depth, colour));
    Chunk::from_data("IHDR", payload.as_slice())
}

/// The closing chunk.
pub fn end_chunk() -> (chunk: Chunk)
    ensures
        chunk@ == iend(),
{
    Chunk { size: 0, name: "IEND".to_owned(), data: Data { data: Vec::new() }, crc: IEND_CRC }
}

impl PNG {
    /// A blank image of the given size: `height` scanlines of
    /// `bytes_per_row(width, bit_depth)` bytes, each byte `0xFF`, and no
    /// ancillary chunks.
    pub fn new(width: u32, height: u32, bit_depth: u8, colour_type: ColourType) -> (png: PNG)
        requires
            colour_type.legal_bit_depths().contains(bit_depth),
            bytes_per_row(width, bit_depth) <= usize::MAX,
        ensures
            png@ == blank_image(width, height, bit_depth, colour_type.wire_code()),
            png@.well_formed(),
            png.data@.len() == height,
            forall|y: int|
                0 <= y < height ==> (#[trigger] png.data@[y])@ == Seq::new(
                    bytes_per_row(width, bit_depth),
                    |x: int| 0xFFu8,
                ),
    {
        let row_len: usize = row_size(width, bit_depth) as usize;

        let mut data: Vec<Vec<u8>> = Vec::new();
        let mut y: u32 = 0;
        while y < height
            invariant
                y <= height,
                row_len == bytes_per_row(width, bit_depth),
                data@.len() == y,
                forall|i: int|
                    0 <= i < y ==> (#[trigger] data@[i])@ == Seq::new(
                        bytes_per_row(width, bit_depth),
                        |x: int| 0xFFu8,
                    ),
            decreases height - y,
        {
            data.push(blank_row(row_len));
            y += 1;
        }

        let png = PNG {
            ihdr: make_ihdr(width, height, bit_depth, colour_type.get_code()),
            bit_depth,
            chunks: Vec::new(),
            data,
            dimension: (width, height),
        };
        proof {
            let want = blank_image(width, height, bit_depth, colour_type.wire_code());
            assert(png@.chunks =~= want.chunks);
            assert(png@.data =~= want.data);
            lemma_blank_image_well_formed(width, height, bit_depth, colour_type.wire_code());
        }
        png
    }

    /// Writes a one-bit pixel: the low bit of `pixel_data` goes to bit
    /// `7 - x % 8` of byte `x / 8` in scanline `y`. Nothing else changes.
    pub fn put_pixel(&mut self, pixel_data: u8, x: u32, y: u32)
        requires
            y < old(self).data@.len(),
            x / 8 < old(self).data@[y as int]@.len(),
        ensures
            old(self)@.well_formed() ==> final(self)@.well_formed(),
            final(self).ihdr == old(self).ihdr,
            final(self).dimension == old(self).dimension,
            final(self).bit_depth == old(self).bit_depth,
            final(self).chunks == old(self).chunks,
            final(self).data@.len() == old(self).data@.len(),
            forall|i: int|
                0 <= i < old(self).data@.len() && i != y ==> final(self).data@[i] == old(
                    self,
                ).data@[i],
            final(self).data@[y as int]@ == old(self).data@[y as int]@.update(
                (x / 8) as int,
                with_pixel(old(self).data@[y as int]@[(x / 8) as int], x, pixel_data % 2 == 1),
            ),
    {
        assert(pixel_data & 0x01 == pixel_data % 2) by (bit_vector);
        if pixel_data & 0x01 == 1 {
            self.data[y as usize][x as usize / 8] |= 0x80 >> (x % 8);
        } else {
            self.data[y as usize][x as usize / 8] &= !(0x80 >> (x % 8));
        }
    }
}

} // verus!
