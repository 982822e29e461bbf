//! The chunk: a length, a four-letter tag, a payload and a CRC-32 trailer,
//! with its wire form and the reading of chunks off a byte cursor.

use crate::bytes::{
    ascii_to_bytes, be32, be_value, byte_chars, bytes_to_ascii, bytes_to_u32, fits_bytes,
    lemma_be32_of_be_value, lemma_be_value_of_be32, lemma_byte_chars_of_tag_bytes,
    lemma_tag_bytes_of_byte_chars, tag_bytes, take_bytes, u32_to_be, ByteCursor,
};
use crate::checksum::crc32;
use vstd::prelude::*;
use vstd::slice::slice_to_vec;

verus! {

/// A chunk's payload.
#[derive(Clone, Debug)]
pub struct Data {
    pub data: Vec<u8>,
}

/// One record of the chunk stream.
#[derive(Clone, Debug)]
pub struct Chunk {
    /// The payload's byte count as written on the wire.
    pub size: u32,
    /// The tag.
    pub name: String,
    /// The payload.
    pub data: Data,
    /// The checksum as written on the wire.
    pub crc: u32,
}

/// What a chunk holds, as mathematical values.
pub struct ChunkView {
    pub size: u32,
    pub name: Seq<char>,
    pub data: Seq<u8>,
    pub crc: u32,
}

impl View for Data {
    type V = Seq<u8>;

    open spec fn view(&self) -> Seq<u8> {
        self.data@
    }
}

impl View for Chunk {
    type V = ChunkView;

    open spec fn view(&self) -> ChunkView {
        ChunkView { size: self.size, name: self.name@, data: self.data@, crc: self.crc }
    }
}

/// The checksum that belongs to a tag and a payload: the CRC-32 of the tag's
/// bytes followed by the payload.
pub open spec fn chunk_crc(name: Seq<char>, data: Seq<u8>) -> u32 {
    crc32(tag_bytes(name) + data)
}

/// The chunk that `Chunk::from_data` builds from a tag and a payload.
pub open spec fn chunk_from_data(name: Seq<char>, data: Seq<u8>) -> ChunkView {
    ChunkView { size: data.len() as u32, name, data, crc: chunk_crc(name, data) }
}

impl ChunkView {
    /// The chunk on the wire: length, tag, payload, checksum.
    pub open spec fn wire(self) -> Seq<u8> {
        be32(self.size) + tag_bytes(self.name) + self.data + be32(self.crc)
    }

    /// The stored checksum is the one that belongs to the tag and the payload.
    pub open spec fn crc_ok(self) -> bool {
        self.crc == chunk_crc(self.name, self.data)
    }

    /// The chunk can be read back from its wire form: the stored length is
    /// the payload's, and the tag has four characters of one byte each.
    pub open spec fn framed(self) -> bool {
        &&& self.size == self.data.len()
        &&& self.name.len() == 4
        &&& fits_bytes(self.name)
    }
}

/// The views of a run of chunks.
pub open spec fn chunk_views(chunks: Seq<Chunk>) -> Seq<ChunkView> {
    Seq::new(chunks.len(), |i: int| chunks[i]@)
}

/// Every chunk of the run can be read back from its wire form.
pub open spec fn all_framed(chunks: Seq<ChunkView>) -> bool {
    forall|i: int| 0 <= i < chunks.len() ==> (#[trigger] chunks[i]).framed()
}

/// The wire form of a run of chunks, one after the other.
pub open spec fn wire_all(chunks: Seq<ChunkView>) -> Seq<u8>
    decreases chunks.len(),
{
    if chunks.len() == 0 {
        Seq::empty()
    } else {
        chunks.first().wire() + wire_all(chunks.drop_first())
    }
}

/// The number of bytes that the chunk at the start of `stream` claims,
/// framing included.
pub open spec fn frame_len(stream: Seq<u8>) -> nat {
    12 + be_value(stream.subrange(0, 4))
}

/// `stream` starts with a whole chunk.
pub open spec fn holds_chunk(stream: Seq<u8>) -> bool {
    stream.len() >= 12 && stream.len() >= frame_len(stream)
}

/// The chunk at the start of `stream`, taken verbatim.
pub open spec fn first_chunk(stream: Seq<u8>) -> ChunkView {
    let n = be_value(stream.subrange(0, 4)) as int;
    ChunkView {
        size: n as u32,
        name: byte_chars(stream.subrange(4, 8)),
        data: stream.subrange(8, 8 + n),
        crc: be_value(stream.subrange(8 + n, 12 + n)) as u32,
    }
}

/// The chunks that tile `stream` exactly, or `None` where a chunk runs past
/// the end.
pub open spec fn parse_chunks(stream: Seq<u8>) -> Option<Seq<ChunkView>>
    decreases stream.len(),
{
    if stream.len() == 0 {
        Some(Seq::empty())
    } else if !holds_chunk(stream) {
        None
    } else {
        match parse_chunks(stream.skip(frame_len(stream) as int)) {
            None => None,
            Some(rest) => Some(seq![first_chunk(stream)] + rest),
        }
    }
}

/// The wire form of two runs of chunks, one after the other, is the wire
/// form of the first followed by that of the second.
pub proof fn lemma_wire_all_concat(a: Seq<ChunkView>, b: Seq<ChunkView>)
    ensures
        wire_all(a + b) == wire_all(a) + wire_all(b),
    decreases a.len(),
{
    if a.len() == 0 {
        assert(a + b =~= b);
        assert(wire_all(a) + wire_all(b) =~= wire_all(b));
    } else {
        lemma_wire_all_concat(a.drop_first(), b);
        assert((a + b).drop_first() =~= a.drop_first() + b);
        assert((a + b).first() == a.first());
        assert(wire_all(a + b) =~= wire_all(a) + wire_all(b));
    }
}

/// A run of one chunk is written as that chunk.
pub proof fn lemma_wire_all_one(c: ChunkView)
    ensures
        wire_all(seq![c]) == c.wire(),
{
    let rest = seq![c].drop_first();
    assert(rest.len() == 0);
    assert(wire_all(rest) =~= Seq::<u8>::empty());
    assert(wire_all(seq![c]) =~= c.wire());
}

/// Adding a chunk to the end of a run adds its wire form to the end.
pub proof fn lemma_wire_all_push(run: Seq<ChunkView>, c: ChunkView)
    ensures
        wire_all(run.push(c)) == wire_all(run) + c.wire(),
{
    lemma_wire_all_concat(run, seq![c]);
    lemma_wire_all_one(c);
    assert(run.push(c) =~= run + seq![c]);
}

/// A chunk built from a tag and a payload depends on the two alone. Two
/// chunks that `Chunk::from_data` builds from the same tag and payload have
/// the same checksum, which is the CRC-32 of the tag's bytes followed by the
/// payload, and the same bytes on the wire.
pub proof fn lemma_from_data_deterministic(
    a: ChunkView,
    b: ChunkView,
    name: Seq<char>,
    data: Seq<u8>,
)
    requires
        a == chunk_from_data(name, data),
        b == chunk_from_data(name, data),
    ensures
        a.crc == b.crc,
        a.crc == crc32(tag_bytes(name) + data),
        a.wire() == b.wire(),
        a.wire() == be32(data.len() as u32) + tag_bytes(name) + data + be32(
            crc32(tag_bytes(name) + data),
        ),
{
}

/// A chunk built from a four-letter tag of one-byte characters and a payload
/// that fits a 32-bit length can be read back from its wire form, and its
/// checksum is sound.
pub proof fn lemma_from_data_framed(name: Seq<char>, data: Seq<u8>)
    requires
        name.len() == 4,
        fits_bytes(name),
        data.len() <= u32::MAX,
    ensures
        chunk_from_data(name, data).framed(),
        chunk_from_data(name, data).crc_ok(),
{
}

/// A framed chunk followed by anything is read back as itself, and what
/// follows is left over.
pub proof fn lemma_read_back_chunk(c: ChunkView, tail: Seq<u8>)
    requires
        c.framed(),
    ensures
        c.wire().len() == 12 + c.data.len(),
        holds_chunk(c.wire() + tail),
        frame_len(c.wire() + tail) == c.wire().len(),
        first_chunk(c.wire() + tail) == c,
        (c.wire() + tail).skip(c.wire().len() as int) == tail,
{
    let s = c.wire() + tail;
    let n = c.data.len() as int;
    assert(tag_bytes(c.name).len() == 4);
    assert(s.subrange(0, 4) =~= be32(c.size));
    lemma_be_value_of_be32(c.size);
    assert(s.subrange(4, 8) =~= tag_bytes(c.name));
    lemma_byte_chars_of_tag_bytes(c.name);
    assert(s.subrange(8, 8 + n) =~= c.data);
    assert(s.subrange(8 + n, 12 + n) =~= be32(c.crc));
    lemma_be_value_of_be32(c.crc);
    assert(s.skip(c.wire().len() as int) =~= tail);
}

/// The chunk at the start of a stream that holds one is framed, and its wire
/// form is the start of the stream.
pub proof fn lemma_first_chunk_framed(stream: Seq<u8>)
    requires
        holds_chunk(stream),
    ensures
        first_chunk(stream).framed(),
        first_chunk(stream).wire() == stream.take(frame_len(stream) as int),
{
    let c = first_chunk(stream);
    let n = be_value(stream.subrange(0, 4)) as int;
    lemma_be32_of_be_value(stream.subrange(0, 4));
    lemma_be32_of_be_value(stream.subrange(8 + n, 12 + n));
    lemma_tag_bytes_of_byte_chars(stream.subrange(4, 8));
    assert(c.wire() =~= stream.take(frame_len(stream) as int));
}

/// Reading undoes writing: a run of framed chunks, written out, is read back
/// as the same run.
pub proof fn lemma_parse_of_wire(chunks: Seq<ChunkView>)
    requires
        all_framed(chunks),
    ensures
        parse_chunks(wire_all(chunks)) == Some(chunks),
    decreases chunks.len(),
{
    if chunks.len() == 0 {
        assert(chunks =~= Seq::<ChunkView>::empty());
    } else {
        let c = chunks.first();
        let rest = chunks.drop_first();
        assert(c.framed());
        assert forall|i: int| 0 <= i < rest.len() implies (#[trigger] rest[i]).framed() by {
            assert(rest[i] == chunks[i + 1]);
        }
        lemma_parse_of_wire(rest);
        lemma_read_back_chunk(c, wire_all(rest));
        assert(seq![c] + rest =~= chunks);
    }
}

/// Writing undoes reading: where a stream is tiled by chunks, each of them is
/// framed and the chunks, written out, are the stream.
pub proof fn lemma_wire_of_parse(stream: Seq<u8>)
    requires
        parse_chunks(stream) is Some,
    ensures
        all_framed(parse_chunks(stream)->0),
        wire_all(parse_chunks(stream)->0) == stream,
    decreases stream.len(),
{
    let chunks = parse_chunks(stream)->0;
    if stream.len() == 0 {
        assert(wire_all(chunks) =~= stream);
    } else {
        let c = first_chunk(stream);
        let tail = stream.skip(frame_len(stream) as int);
        let rest = parse_chunks(tail)->0;
        lemma_wire_of_parse(tail);
        lemma_first_chunk_framed(stream);
        assert(chunks == seq![c] + rest);
        assert forall|i: int| 0 <= i < chunks.len() implies (#[trigger] chunks[i]).framed() by {
            if i > 0 {
                assert(chunks[i] == rest[i - 1]);
            }
        }
        assert(chunks.drop_first() =~= rest);
        assert(stream.take(frame_len(stream) as int) + tail =~= stream);
    }
}

/// Appends `bytes` to `out`.
pub fn append_bytes(out: &mut Vec<u8>, bytes: &[u8])
    ensures
        final(out)@ == old(out)@ + bytes@,
{
    let mut i: usize = 0;
    while i < bytes.len()
        invariant
            i <= bytes@.len(),
            out@ == old(out)@ + bytes@.take(i as int),
        decreases bytes@.len() - i,
    {
        out.push(bytes[i]);
        i += 1;
        assert(out@ =~= old(out)@ + bytes@.take(i as int));
    }
    assert(bytes@.take(i as int) =~= bytes@);
}

impl Chunk {
    /// The CRC-32 of the tag's bytes followed by the payload.
    pub fn crc(name: &str, data: &[u8]) -> (sum: u32)
        ensures
            sum == chunk_crc(name@, data@),
    {
        let mut all_data = ascii_to_bytes(name);
        append_bytes(&mut all_data, data);
        crc32fast::hash(all_data.as_slice())
    }

    /// Whether the stored checksum is the one that belongs to the stored tag
    /// and payload.
    pub fn check_crc(&self) -> (ok: bool)
        ensures
            ok == self@.crc_ok(),
    {
        Chunk::crc(self.name.as_str(), self.data().as_slice()) == self.crc
    }

    /// Builds a chunk from a tag, a payload and a checksum; the length is the
    /// payload's.
    pub fn from_parts(name: &str, data: &[u8], crc: u32) -> (chunk: Chunk)
        requires
            data@.len() <= u32::MAX,
        ensures
            chunk@ == (ChunkView { size: data@.len() as u32, name: name@, data: data@, crc }),
    {
        Chunk {
            size: data.len() as u32,
            name: name.to_owned(),
            data: Data { data: slice_to_vec(data) },
            crc,
        }
    }

    /// Builds a chunk from a tag and a payload; the length and the checksum
    /// are computed.
    pub fn from_data(name: &str, data: &[u8]) -> (chunk: Chunk)
        requires
            data@.len() <= u32::MAX,
        ensures
            chunk@ == chunk_from_data(name@, data@),
            chunk.crc == crc32(tag_bytes(name@) + data@),
    {
        Chunk::from_parts(name, data, Chunk::crc(name, data))
    }

    /// The payload.
    pub fn data(&self) -> (payload: &Vec<u8>)
        ensures
            payload@ == self@.data,
    {
        &self.data.data
    }

    /// The stored length plus the eight bytes of length and tag. The four
    /// bytes of the checksum are not counted.
    pub fn chunk_size(&self) -> (n: usize)
        requires
            self.size + 8 <= usize::MAX,
        ensures
            n == self.size + 8,
    {
        self.size as usize + 8
    }

    /// The chunk on the wire: length and checksum big-endian, the tag one
    /// byte per character.
    pub fn to_bytes(&self) -> (wire: Vec<u8>)
        ensures
            wire@ == self@.wire(),
    {
        let mut res: Vec<u8> = Vec::new();
        append_bytes(&mut res, u32_to_be(self.size).as_slice());
        append_bytes(&mut res, ascii_to_bytes(self.name.as_str()).as_slice());
        append_bytes(&mut res, self.data().as_slice());
        append_bytes(&mut res, u32_to_be(self.crc).as_slice());
        res
    }
}

/// Whether the cursor holds a whole chunk next: twelve bytes of framing and
/// as many payload bytes as the length field says.
pub fn has_chunk(buffer: &ByteCursor) -> (whole: bool)
    ensures
        whole == holds_chunk(buffer.remaining()),
{
    if buffer.len() < 12 {
        return false;
    }
    let mut probe = buffer.fork();
    let length_buf = take_bytes(&mut probe, 4);
    let length = bytes_to_u32(length_buf.as_slice());
    assert(length_buf@ =~= buffer.remaining().subrange(0, 4));
    length as usize <= buffer.len() - 12
}

/// Reads the next chunk off the cursor, verbatim: the checksum is stored,
/// not verified. Also returns the number of bytes read.
pub fn get_chunk(buffer: &mut ByteCursor) -> (read: (Chunk, usize))
    requires
        holds_chunk(old(buffer).remaining()),
    ensures
        read.0@ == first_chunk(old(buffer).remaining()),
        read.1 == frame_len(old(buffer).remaining()),
        final(buffer).remaining() == old(buffer).remaining().skip(read.1 as int),
{
    let ghost stream = buffer.remaining();
    proof {
        buffer.lemma_remaining_fits();
    }
    let chunk_length_buf = take_bytes(buffer, 4);
    let chunk_length = bytes_to_u32(chunk_length_buf.as_slice());
    assert(chunk_length_buf@ =~= stream.subrange(0, 4));

    let chunk_name_buf = take_bytes(buffer, 4);
    let chunk_name = bytes_to_ascii(chunk_name_buf.as_slice());
    assert(chunk_name_buf@ =~= stream.subrange(4, 8));

    let data = take_bytes(buffer, chunk_length);
    assert(data@ =~= stream.subrange(8, 8 + chunk_length));
    let crc_buf = take_bytes(buffer, 4);
    let crc = bytes_to_u32(crc_buf.as_slice());
    assert(crc_buf@ =~= stream.subrange(8 + chunk_length, 12 + chunk_length));
    assert(buffer.remaining() =~= stream.skip(12 + chunk_length));

    (
        Chunk { size: chunk_length, name: chunk_name, data: Data { data }, crc },
        chunk_length as usize + 12,
    )
}

} // verus!
