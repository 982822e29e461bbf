//! From image to file: the scanlines are filtered, compressed, cut into image
//! data chunks and framed between the header and the closing chunk.

use crate::chunk::{
    append_bytes, chunk_from_data, chunk_views, lemma_wire_all_push, wire_all, Chunk, ChunkView,
};
use crate::deflate::{compress_block, zlib_stream};
use crate::image::{end_chunk, iend, iend_wire, signature, PngView, HEADER, PNG};
use vstd::prelude::*;
use vstd::slice::slice_subrange;

verus! {

/// The largest payload of one image data chunk.
pub const IDAT_BLOCK: usize = 1024;

/// The scanlines as they go into compression: each one behind a filter byte
/// of zero, one after the other.
pub open spec fn filtered(rows: Seq<Seq<u8>>) -> Seq<u8>
    decreases rows.len(),
{
    if rows.len() == 0 {
        Seq::empty()
    } else {
        filtered(rows.drop_last()) + seq![0u8] + rows.last()
    }
}

/// The number of image data chunks that a compressed stream of `len` bytes
/// is cut into.
pub open spec fn idat_count(len: nat) -> nat {
    (len + 1023) / 1024
}

/// The payload of the `i`-th image data chunk: the next 1024 bytes of the
/// stream, or what is left of it.
pub open spec fn idat_block(stream: Seq<u8>, i: int) -> Seq<u8> {
    stream.subrange(
        1024 * i,
        if 1024 * (i + 1) <= stream.len() {
            1024 * (i + 1)
        } else {
            stream.len() as int
        },
    )
}

/// The image data chunks for a compressed stream.
pub open spec fn idat_chunks(stream: Seq<u8>) -> Seq<ChunkView> {
    Seq::new(idat_count(stream.len()), |i: int| chunk_from_data("IDAT"@, idat_block(stream, i)))
}

impl PngView {
    /// The file for this image when its scanlines compress to `stream`:
    /// signature, header chunk, ancillary chunks, image data chunks, end.
    pub open spec fn wire(self, stream: Seq<u8>) -> Seq<u8> {
        signature() + self.ihdr.wire() + wire_all(self.chunks) + wire_all(idat_chunks(stream))
            + iend().wire()
    }

    /// The file for this image.
    pub open spec fn encoded(self) -> Seq<u8> {
        self.wire(zlib_stream(filtered(self.data)))
    }
}

/// The closing chunk is written as twelve fixed bytes.
pub proof fn lemma_iend_wire()
    ensures
        iend().wire() == iend_wire(),
{
    reveal_strlit("IEND");
    assert(iend().wire() =~= iend_wire());
}

/// Every file ends with the twelve bytes of the closing chunk.
pub proof fn lemma_wire_ends_with_iend(image: PngView, stream: Seq<u8>)
    ensures
        image.wire(stream).len() >= 12,
        image.wire(stream).subrange(image.wire(stream).len() - 12, image.wire(stream).len() as int)
            == iend_wire(),
{
    lemma_iend_wire();
    let w = image.wire(stream);
    assert(w.subrange(w.len() - 12, w.len() as int) =~= iend_wire());
}

/// Cuts a compressed stream into image data chunks of at most 1024 payload
/// bytes each: all but the last hold 1024.
pub fn split_idat(compressed: &[u8]) -> (chunks: Vec<Chunk>)
    ensures
        chunk_views(chunks@) == idat_chunks(compressed@),
{
    let len = compressed.len();
    let mut chunks: Vec<Chunk> = Vec::new();
    let mut start: usize = 0;
    while start < len
        invariant
            len == compressed@.len(),
            start <= len,
            chunks@.len() <= idat_count(len as nat),
            start == if 1024 * chunks@.len() <= len {
                1024 * chunks@.len()
            } else {
                len as nat
            },
            chunk_views(chunks@) == Seq::new(
                chunks@.len(),
                |i: int| chunk_from_data("IDAT"@, idat_block(compressed@, i)),
            ),
        decreases len - start,
    {
        let end: usize = if len - start > IDAT_BLOCK {
            start + IDAT_BLOCK
        } else {
            len
        };
        let block = slice_subrange(compressed, start, end);
        let ghost before = chunk_views(chunks@);
        let chunk = Chunk::from_data("IDAT", block);
        assert(block@ == idat_block(compressed@, chunks@.len() as int));
        chunks.push(chunk);
        assert(chunk_views(chunks@) =~= before.push(chunk@));
        start = end;
    }
    assert(chunks@.len() == idat_count(len as nat));
    chunks
}

impl PNG {
    /// The scanlines as they go into compression: a zero filter byte before
    /// each, one after the other.
    pub fn filter_rows(&self) -> (raw: Vec<u8>)
        ensures
            raw@ == filtered(self@.data),
    {
        let mut uncompressed: Vec<u8> = Vec::new();
        let mut y: usize = 0;
        while y < self.data.len()
            invariant
                y <= self.data@.len(),
                uncompressed@ == filtered(self@.data.take(y as int)),
            decreases self.data@.len() - y,
        {
            let ghost before = self@.data.take(y as int);
            uncompressed.push(0x00);  // No filter
            append_bytes(&mut uncompressed, self.data[y].as_slice());
            y += 1;
            proof {
                let after = self@.data.take(y as int);
                assert(after.drop_last() =~= before);
                assert(after.last() == self.data@[y - 1]@);
            }
        }
        assert(self@.data.take(y as int) =~= self@.data);
        uncompressed
    }

    /// The file for this image, given the compressed scanline stream:
    /// signature, header chunk, the ancillary chunks in order, the stream cut
    /// into image data chunks, and the closing chunk.
    pub fn assemble(&self, compressed: &[u8]) -> (file: Vec<u8>)
        ensures
            file@ == self@.wire(compressed@),
            file@.len() >= 12,
            file@.subrange(file@.len() - 12, file@.len() as int) == iend_wire(),
    {
        let mut file: Vec<u8> = Vec::new();
        append_bytes(&mut file, HEADER.as_slice());
        assert(file@ =~= signature());
        append_bytes(&mut file, self.ihdr.to_bytes().as_slice());

        let ghost head = signature() + self.ihdr@.wire();
        let mut i: usize = 0;
        while i < self.chunks.len()
            invariant
                i <= self.chunks@.len(),
                file@ == head + wire_all(self@.chunks.take(i as int)),
            decreases self.chunks@.len() - i,
        {
            proof {
                lemma_wire_all_push(self@.chunks.take(i as int), self.chunks@[i as int]@);
                assert(self@.chunks.take(i as int).push(self.chunks@[i as int]@)
                    =~= self@.chunks.take(i as int + 1));
            }
            append_bytes(&mut file, self.chunks[i].to_bytes().as_slice());
            i += 1;
        }
        assert(self@.chunks.take(i as int) =~= self@.chunks);

        let ghost body = head + wire_all(self@.chunks);
        let blocks = split_idat(compressed);
        let ghost idat = idat_chunks(compressed@);
        let mut k: usize = 0;
        while k < blocks.len()
            invariant
                k <= blocks@.len(),
                chunk_views(blocks@) == idat,
                file@ == body + wire_all(idat.take(k as int)),
            decreases blocks@.len() - k,
        {
            proof {
                lemma_wire_all_push(idat.take(k as int), blocks@[k as int]@);
                assert(idat.take(k as int).push(blocks@[k as int]@) =~= idat.take(k as int + 1));
            }
            append_bytes(&mut file, blocks[k].to_bytes().as_slice());
            k += 1;
        }
        assert(idat.take(k as int) =~= idat);
        append_bytes(&mut file, end_chunk().to_bytes().as_slice());
        proof {
            lemma_wire_ends_with_iend(self@, compressed@);
        }
        file
    }

    /// The file for this image: its scanlines are filtered, compressed, cut
    /// into image data chunks and framed.
    pub fn to_bytes(&self) -> (file: Vec<u8>)
        requires
            self.data@.len() >= 1,
        ensures
            file@ == self@.encoded(),
            file@.len() >= 12,
            file@.subrange(file@.len() - 12, file@.len() as int) == iend_wire(),
    {
        let uncompressed = self.filter_rows();
        let data = compress_block(uncompressed.as_slice());
        self.assemble(data.as_slice())
    }
}

} // verus!
