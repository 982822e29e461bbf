//! Byte-level building blocks: big-endian words, chunk tag text, and the
//! forward-only cursor that the decoder reads through.

use vstd::arithmetic::div_mod::lemma_fundamental_div_mod_converse;
use vstd::prelude::*;
use vstd::string::StrSliceExecFns;

verus! {

/// One more than the largest value of a 32-bit word.
pub open spec fn word_modulus() -> nat {
    0x1_0000_0000
}

/// The four bytes of `x`, most significant first.
pub open spec fn be32(x: u32) -> Seq<u8> {
    seq![
        (x / 0x100_0000) as u8,
        ((x / 0x1_0000) % 0x100) as u8,
        ((x / 0x100) % 0x100) as u8,
        (x % 0x100) as u8,
    ]
}

/// The number that a byte sequence denotes when read most significant byte first.
pub open spec fn be_value(bytes: Seq<u8>) -> nat
    decreases bytes.len(),
{
    if bytes.len() == 0 {
        0
    } else {
        be_value(bytes.drop_last()) * 256 + bytes.last() as nat
    }
}

/// The bytes that a tag is written as: the low eight bits of each character.
pub open spec fn tag_bytes(name: Seq<char>) -> Seq<u8> {
    Seq::new(name.len(), |i: int| name[i] as u8)
}

/// The text that bytes are read as: one character per byte, with the byte's
/// value as its code point.
pub open spec fn byte_chars(bytes: Seq<u8>) -> Seq<char> {
    Seq::new(bytes.len(), |i: int| bytes[i] as char)
}

/// Every character of `name` has a code point that fits one byte.
pub open spec fn fits_bytes(name: Seq<char>) -> bool {
    forall|i: int| 0 <= i < name.len() ==> (#[trigger] name[i]) as int <= 0xff
}

/// `String::push` appends the character to the end of the string.
pub assume_specification[ String::push ](text: &mut String, ch: char)
    ensures
        final(text)@ == old(text)@.push(ch),
;

proof fn lemma_char_range(c: char)
    ensures
        0 <= c as int <= 0x10_ffff,
{
}

/// A word of four bytes denotes `b0 * 2^24 + b1 * 2^16 + b2 * 2^8 + b3`.
pub proof fn lemma_be_value_four(bytes: Seq<u8>)
    requires
        bytes.len() == 4,
    ensures
        be_value(bytes) == bytes[0] * 0x100_0000 + bytes[1] * 0x1_0000 + bytes[2] * 0x100
            + bytes[3],
        be_value(bytes) < word_modulus(),
{
    let s3 = bytes.drop_last();
    let s2 = s3.drop_last();
    let s1 = s2.drop_last();
    let s0 = s1.drop_last();
    assert(s0.len() == 0);
    assert(be_value(s0) == 0);
    assert(be_value(s1) == s1.last());
    assert(be_value(s2) == be_value(s1) * 256 + s2.last());
    assert(be_value(s3) == be_value(s2) * 256 + s3.last());
    assert(be_value(bytes) == be_value(s3) * 256 + bytes.last());
}

/// Reading back the four bytes of a word gives the word.
pub proof fn lemma_be_value_of_be32(x: u32)
    ensures
        be32(x).len() == 4,
        be_value(be32(x)) == x,
{
    lemma_be_value_four(be32(x));
}

/// Writing out the word that four bytes denote gives the four bytes.
pub proof fn lemma_be32_of_be_value(bytes: Seq<u8>)
    requires
        bytes.len() == 4,
    ensures
        be_value(bytes) < word_modulus(),
        be32(be_value(bytes) as u32) == bytes,
{
    lemma_be_value_four(bytes);
    let v = be_value(bytes) as int;
    let (b0, b1, b2, b3) = (bytes[0] as int, bytes[1] as int, bytes[2] as int, bytes[3] as int);
    lemma_fundamental_div_mod_converse(v, 0x100_0000, b0, b1 * 0x1_0000 + b2 * 0x100 + b3);
    lemma_fundamental_div_mod_converse(v, 0x1_0000, b0 * 0x100 + b1, b2 * 0x100 + b3);
    lemma_fundamental_div_mod_converse(b0 * 0x100 + b1, 0x100, b0, b1);
    lemma_fundamental_div_mod_converse(v, 0x100, b0 * 0x1_0000 + b1 * 0x100 + b2, b3);
    lemma_fundamental_div_mod_converse(b0 * 0x1_0000 + b1 * 0x100 + b2, 0x100, b0 * 0x100 + b1, b2);
    let x = v as u32;
    assert(x / 0x100_0000 == b0);
    assert((x / 0x1_0000) % 0x100 == b1);
    assert((x / 0x100) % 0x100 == b2);
    assert(x % 0x100 == b3);
    assert(be32(x) =~= bytes);
}

/// Text read from bytes is written back as the same bytes.
pub proof fn lemma_tag_bytes_of_byte_chars(bytes: Seq<u8>)
    ensures
        fits_bytes(byte_chars(bytes)),
        tag_bytes(byte_chars(bytes)) == bytes,
{
    assert forall|i: int| 0 <= i < bytes.len() implies (#[trigger] byte_chars(bytes)[i]) as int
        == bytes[i] as int by {
        assert(byte_chars(bytes)[i] == bytes[i] as char);
    }
    assert(tag_bytes(byte_chars(bytes)) =~= bytes);
}

/// Text whose characters fit one byte each is read back unchanged from its bytes.
pub proof fn lemma_byte_chars_of_tag_bytes(name: Seq<char>)
    requires
        fits_bytes(name),
    ensures
        byte_chars(tag_bytes(name)) == name,
{
    assert forall|i: int| 0 <= i < name.len() implies byte_chars(tag_bytes(name))[i]
        == name[i] by {
        lemma_char_range(name[i]);
        assert(tag_bytes(name)[i] == name[i] as u8);
    }
    assert(byte_chars(tag_bytes(name)) =~= name);
}

/// The four bytes of `x`, most significant first.
pub fn u32_to_be(x: u32) -> (word: [u8; 4])
    ensures
        word@ == be32(x),
{
    let b0: u8 = (x >> 24) as u8;
    let b1: u8 = ((x >> 16) & 0xff) as u8;
    let b2: u8 = ((x >> 8) & 0xff) as u8;
    let b3: u8 = (x & 0xff) as u8;
    assert(x >> 24 == x / 0x100_0000 && (x >> 16) & 0xff == (x / 0x1_0000) % 0x100 && (x >> 8)
        & 0xff == (x / 0x100) % 0x100 && x & 0xff == x % 0x100) by (bit_vector);
    let word = [b0, b1, b2, b3];
    assert(word@ =~= be32(x));
    word
}

/// Folds bytes into a 32-bit word, most significant byte first. Of more than
/// four bytes only the last four count: earlier ones are shifted out.
pub fn bytes_to_u32(bytes: &[u8]) -> (word: u32)
    ensures
        word == be_value(bytes@) % word_modulus(),
        bytes@.len() == 4 ==> word == be_value(bytes@),
{
    let mut acc: u32 = 0;
    let mut i: usize = 0;
    while i < bytes.len()
        invariant
            i <= bytes@.len(),
            acc == be_value(bytes@.take(i as int)) % word_modulus(),
        decreases bytes@.len() - i,
    {
        let b: u8 = bytes[i];
        let shifted: u32 = acc << 8;
        assert(shifted == (acc * 256) % 0x1_0000_0000 && shifted % 256 == 0) by (bit_vector)
            requires
                shifted == acc << 8,
        ;
        proof {
            let before = bytes@.take(i as int);
            let after = bytes@.take(i as int + 1);
            assert(after.drop_last() =~= before);
            assert(after.last() == b);
            assert(be_value(after) == be_value(before) * 256 + b as nat);
            let v = be_value(before) as int;
            let q = v / 0x1_0000_0000;
            let q2 = (acc * 256) / 0x1_0000_0000;
            assert(v == q * 0x1_0000_0000 + acc);
            assert(acc * 256 == q2 * 0x1_0000_0000 + shifted);
            assert(v * 256 + b == (q * 256 + q2) * 0x1_0000_0000 + (shifted + b));
            assert(shifted + b < 0x1_0000_0000);
            lemma_fundamental_div_mod_converse(
                v * 256 + b,
                0x1_0000_0000,
                q * 256 + q2,
                shifted + b,
            );
        }
        acc = shifted + b as u32;
        i += 1;
    }
    proof {
        assert(bytes@.take(i as int) =~= bytes@);
        if bytes@.len() == 4 {
            lemma_be_value_four(bytes@);
            assert(be_value(bytes@) % 0x1_0000_0000 == be_value(bytes@));
        }
    }
    acc
}

/// Reads bytes as text, one character per byte.
pub fn bytes_to_ascii(bytes: &[u8]) -> (text: String)
    ensures
        text@ == byte_chars(bytes@),
{
    let mut text = String::new();
    let mut i: usize = 0;
    while i < bytes.len()
        invariant
            i <= bytes@.len(),
            text@ == byte_chars(bytes@.take(i as int)),
        decreases bytes@.len() - i,
    {
        text.push(bytes[i] as char);
        assert(text@ =~= byte_chars(bytes@.take(i as int + 1)));
        i += 1;
    }
    assert(bytes@.take(i as int) =~= bytes@);
    text
}

/// Writes text as bytes, one byte per character: its low eight bits.
pub fn ascii_to_bytes(ascii: &str) -> (bytes: Vec<u8>)
    ensures
        bytes@ == tag_bytes(ascii@),
{
    let mut bytes: Vec<u8> = Vec::new();
    for c in it: ascii.chars()
        invariant
            it.seq() == ascii@,
            bytes@ == tag_bytes(ascii@.take(it.index() as int)),
    {
        bytes.push(c as u8);
    }
    assert(ascii@.take(ascii@.len() as int) =~= ascii@);
    bytes
}

/// Whether two texts hold the same characters.
pub fn same_text(a: &str, b: &str) -> (same: bool)
    ensures
        same == (a@ == b@),
{
    let n = a.unicode_len();
    if n != b.unicode_len() {
        return false;
    }
    let mut i: usize = 0;
    while i < n
        invariant
            n == a@.len(),
            n == b@.len(),
            i <= n,
            forall|k: int| 0 <= k < i ==> a@[k] == b@[k],
        decreases n - i,
    {
        if a.get_char(i) != b.get_char(i) {
            return false;
        }
        i += 1;
    }
    assert(a@ =~= b@);
    true
}

/// A forward-only reader over a byte slice.
pub struct ByteCursor<'a> {
    bytes: &'a [u8],
    pos: usize,
}

impl<'a> ByteCursor<'a> {
    #[verifier::type_invariant]
    spec fn in_bounds(self) -> bool {
        self.pos <= self.bytes@.len()
    }

    /// The bytes that have not been read yet.
    pub closed spec fn remaining(self) -> Seq<u8> {
        if self.pos <= self.bytes@.len() {
            self.bytes@.skip(self.pos as int)
        } else {
            Seq::empty()
        }
    }

    /// What is left to read can be counted in a `usize`.
    pub proof fn lemma_remaining_fits(self)
        ensures
            self.remaining().len() <= usize::MAX,
    {
        assert(self.bytes.len() == self.bytes@.len());
    }

    /// A cursor at the start of `bytes`.
    pub fn new(bytes: &'a [u8]) -> (cursor: Self)
        ensures
            cursor.remaining() == bytes@,
    {
        assert(bytes@.skip(0) =~= bytes@);
        ByteCursor { bytes, pos: 0 }
    }

    /// A second cursor at the same place; reading from it leaves this one
    /// where it is.
    pub fn fork(&self) -> (probe: ByteCursor<'a>)
        ensures
            probe.remaining() == self.remaining(),
    {
        proof {
            use_type_invariant(self);
        }
        ByteCursor { bytes: self.bytes, pos: self.pos }
    }

    /// How many bytes are left to read.
    pub fn len(&self) -> (n: usize)
        ensures
            n == self.remaining().len(),
    {
        proof {
            use_type_invariant(self);
        }
        self.bytes.len() - self.pos
    }
}

/// Takes the next `count` bytes off the cursor.
pub fn take_bytes(buffer: &mut ByteCursor, count: u32) -> (taken: Vec<u8>)
    requires
        count <= old(buffer).remaining().len(),
    ensures
        taken@ == old(buffer).remaining().take(count as int),
        final(buffer).remaining() == old(buffer).remaining().skip(count as int),
{
    proof {
        use_type_invariant(&*buffer);
    }
    let mut taken: Vec<u8> = Vec::new();
    let mut n: u32 = 0;
    while n < count
        invariant
            n <= count,
            buffer.bytes == old(buffer).bytes,
            buffer.pos == old(buffer).pos + n,
            count <= old(buffer).remaining().len(),
            old(buffer).pos <= old(buffer).bytes@.len(),
            taken@ == old(buffer).remaining().take(n as int),
        decreases count - n,
    {
        taken.push(buffer.bytes[buffer.pos]);
        buffer.pos += 1;
        n += 1;
        assert(taken@ =~= old(buffer).remaining().take(n as int));
    }
    assert(buffer.remaining() =~= old(buffer).remaining().skip(count as int));
    taken
}

} // verus!
