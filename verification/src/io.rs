//! Little-endian encoding of numbers, and a reader over bytes in memory.
//!
//! All numbers in a file are little-endian. Signed numbers are stored in
//! two's complement. A floating-point number is stored as its bit pattern,
//! which this crate carries as an unsigned number of the same width.

use vstd::prelude::*;
use crate::error::Error;

verus! {

/// The bytes of a text that holds ASCII characters only.
pub open spec fn ascii(text: &str) -> Seq<u8> {
    Seq::new(text@.len(), |i: int| text@[i] as u8)
}

/// The bytes of a text that holds ASCII characters only.
pub fn ascii_bytes(text: &str) -> (r: &[u8])
    requires
        vstd::string::is_ascii(text),
    ensures
        r@ == ascii(text),
{
    proof {
        vstd::string::is_ascii_spec_bytes(text);
    }
    text.as_bytes()
}

/// Whether two slices hold the same bytes.
pub fn bytes_equal(left: &[u8], right: &[u8]) -> (r: bool)
    ensures
        r == (left@ == right@),
{
    if left.len() != right.len() {
        return false;
    }
    let mut index: usize = 0;
    while index < left.len()
        invariant
            left@.len() == right@.len(),
            index <= left@.len(),
            left@.take(index as int) == right@.take(index as int),
        decreases left@.len() - index,
    {
        if left[index] != right[index] {
            return false;
        }
        index = index + 1;
        assert(left@.take(index as int) =~= left@.take(index - 1).push(left@[index - 1]));
        assert(right@.take(index as int) =~= right@.take(index - 1).push(right@[index - 1]));
    }
    assert(left@ =~= left@.take(index as int));
    assert(right@ =~= right@.take(index as int));
    true
}

/// The bit pattern of a signed byte.
pub open spec fn i8_bits(x: i8) -> u8 {
    if x >= 0 {
        x as u8
    } else {
        (x + 256) as u8
    }
}

/// The signed byte with the given bit pattern.
pub open spec fn i8_from_bits(bits: u8) -> i8 {
    if bits < 128 {
        bits as i8
    } else {
        (bits - 256) as i8
    }
}

/// The bit pattern of a signed 32-bit number.
pub open spec fn i32_bits(x: i32) -> u32 {
    if x >= 0 {
        x as u32
    } else {
        (x + 0x1_0000_0000) as u32
    }
}

/// The signed 32-bit number with the given bit pattern.
pub open spec fn i32_from_bits(bits: u32) -> i32 {
    if bits < 0x8000_0000 {
        bits as i32
    } else {
        (bits - 0x1_0000_0000) as i32
    }
}

/// The two bytes of a 16-bit number, lowest first.
pub open spec fn u16_le(x: u16) -> Seq<u8> {
    seq![(x % 256) as u8, (x / 256) as u8]
}

/// The 16-bit number that the first two bytes of `s` encode.
pub open spec fn u16_from_le(s: Seq<u8>) -> u16
    recommends
        s.len() >= 2,
{
    (s[0] + 256 * s[1]) as u16
}

/// The four bytes of a 32-bit number, lowest first.
pub open spec fn u32_le(x: u32) -> Seq<u8> {
    seq![
        (x % 256) as u8,
        ((x / 256) % 256) as u8,
        ((x / 256 / 256) % 256) as u8,
        (x / 256 / 256 / 256) as u8,
    ]
}

/// The 32-bit number that the first four bytes of `s` encode.
pub open spec fn u32_from_le(s: Seq<u8>) -> u32
    recommends
        s.len() >= 4,
{
    (s[0] + 256 * s[1] + 65536 * s[2] + 16777216 * s[3]) as u32
}

/// The eight bytes of a 64-bit number, lowest first.
pub open spec fn u64_le(x: u64) -> Seq<u8> {
    u32_le((x % 0x1_0000_0000) as u32) + u32_le((x / 0x1_0000_0000) as u32)
}

/// The 64-bit number that the first eight bytes of `s` encode.
pub open spec fn u64_from_le(s: Seq<u8>) -> u64
    recommends
        s.len() >= 8,
{
    (u32_from_le(s) + 0x1_0000_0000 * u32_from_le(s.skip(4))) as u64
}

/// The four bytes of a signed 32-bit number.
pub open spec fn i32_le(x: i32) -> Seq<u8> {
    u32_le(i32_bits(x))
}

/// The signed 32-bit number that the first four bytes of `s` encode.
pub open spec fn i32_from_le(s: Seq<u8>) -> i32
    recommends
        s.len() >= 4,
{
    i32_from_bits(u32_from_le(s))
}

/// The bytes of a sequence of signed bytes.
pub open spec fn i8_seq_bits(s: Seq<i8>) -> Seq<u8> {
    Seq::new(s.len(), |i: int| i8_bits(s[i]))
}

/// The signed bytes that the bytes of `s` encode.
pub open spec fn i8_seq_from_bits(s: Seq<u8>) -> Seq<i8> {
    Seq::new(s.len(), |i: int| i8_from_bits(s[i]))
}

/// The bytes of a sequence of 16-bit numbers, each encoded in turn.
pub open spec fn u16_seq_le(s: Seq<u16>) -> Seq<u8> {
    Seq::new(2 * s.len(), |k: int| u16_le(s[k / 2])[k % 2])
}

/// The `count` 16-bit numbers that the first `2 * count` bytes of `s` encode.
pub open spec fn u16_seq_from_le(s: Seq<u8>, count: nat) -> Seq<u16>
    recommends
        s.len() >= 2 * count,
{
    Seq::new(count, |i: int| u16_from_le(s.skip(2 * i)))
}

/// The bytes of a sequence of 32-bit numbers, each encoded in turn.
pub open spec fn u32_seq_le(s: Seq<u32>) -> Seq<u8> {
    Seq::new(4 * s.len(), |k: int| u32_le(s[k / 4])[k % 4])
}

/// The `count` 32-bit numbers that the first `4 * count` bytes of `s` encode.
pub open spec fn u32_seq_from_le(s: Seq<u8>, count: nat) -> Seq<u32>
    recommends
        s.len() >= 4 * count,
{
    Seq::new(count, |i: int| u32_from_le(s.skip(4 * i)))
}

/// Decoding what was encoded gives the 16-bit number back.
pub proof fn lemma_u16_decodes_encoded(x: u16, tail: Seq<u8>)
    ensures
        u16_from_le(u16_le(x) + tail) == x,
{
    let s = u16_le(x) + tail;
    assert(s[0] == (x % 256) as u8 && s[1] == (x / 256) as u8);
}

/// Decoding what was encoded gives the 32-bit number back.
pub proof fn lemma_u32_decodes_encoded(x: u32, tail: Seq<u8>)
    ensures
        u32_from_le(u32_le(x) + tail) == x,
{
    let s = u32_le(x) + tail;
    let q1 = x / 256;
    let q2 = q1 / 256;
    let q3 = q2 / 256;
    assert(s[0] == (x % 256) as u8 && s[1] == (q1 % 256) as u8 && s[2] == (q2 % 256) as u8 && s[3]
        == q3 as u8);
    assert(x == 256 * q1 + x % 256);
    assert(q1 == 256 * q2 + q1 % 256);
    assert(q2 == 256 * q3 + q2 % 256);
}

/// Decoding what was encoded gives the signed 32-bit number back.
pub proof fn lemma_i32_decodes_encoded(x: i32, tail: Seq<u8>)
    ensures
        i32_from_le(i32_le(x) + tail) == x,
        i32_from_bits(i32_bits(x)) == x,
{
    lemma_u32_decodes_encoded(i32_bits(x), tail);
}

/// Decoding what was encoded gives the 64-bit number back.
pub proof fn lemma_u64_decodes_encoded(x: u64, tail: Seq<u8>)
    ensures
        u64_from_le(u64_le(x) + tail) == x,
{
    let low = (x % 0x1_0000_0000) as u32;
    let high = (x / 0x1_0000_0000) as u32;
    let s = u64_le(x) + tail;
    assert(s =~= u32_le(low) + (u32_le(high) + tail));
    assert(s.skip(4) =~= u32_le(high) + tail);
    lemma_u32_decodes_encoded(low, u32_le(high) + tail);
    lemma_u32_decodes_encoded(high, tail);
}

/// Encoding the 16-bit number that two bytes decode to gives the bytes back.
pub proof fn lemma_u16_encodes_decoded(s: Seq<u8>)
    requires
        s.len() >= 2,
    ensures
        u16_le(u16_from_le(s)) == s.take(2),
{
    assert(u16_le(u16_from_le(s)) =~= s.take(2));
}

/// Encoding the 32-bit number that four bytes decode to gives the bytes back.
pub proof fn lemma_u32_encodes_decoded(s: Seq<u8>)
    requires
        s.len() >= 4,
    ensures
        u32_le(u32_from_le(s)) == s.take(4),
{
    let x = u32_from_le(s);
    let q1 = s[1] + 256 * s[2] + 65536 * s[3];
    let q2 = s[2] + 256 * s[3];
    assert(x == s[0] + 256 * q1);
    assert(x / 256 == q1);
    assert(q1 == s[1] + 256 * q2);
    assert(q1 / 256 == q2);
    assert(q2 / 256 == s[3]);
    assert(u32_le(x) =~= s.take(4));
}

/// Encoding the signed 32-bit number that four bytes decode to gives the bytes back.
pub proof fn lemma_i32_encodes_decoded(s: Seq<u8>)
    requires
        s.len() >= 4,
    ensures
        i32_le(i32_from_le(s)) == s.take(4),
{
    lemma_u32_encodes_decoded(s);
    assert(i32_bits(i32_from_bits(u32_from_le(s))) == u32_from_le(s));
}

/// Encoding the 64-bit number that eight bytes decode to gives the bytes back.
pub proof fn lemma_u64_encodes_decoded(s: Seq<u8>)
    requires
        s.len() >= 8,
    ensures
        u64_le(u64_from_le(s)) == s.take(8),
{
    let t = s.skip(4);
    let low = u32_from_le(s);
    let high = u32_from_le(t);
    let x = u64_from_le(s);
    assert(x == low + 0x1_0000_0000 * high);
    assert(x % 0x1_0000_0000 == low);
    assert(x / 0x1_0000_0000 == high);
    lemma_u32_encodes_decoded(s);
    lemma_u32_encodes_decoded(t);
    assert(u64_le(x) =~= s.take(8));
}

/// A signed number and its bit pattern determine each other.
pub proof fn lemma_bits_round_trip()
    ensures
        forall|x: i8| #[trigger] i8_from_bits(i8_bits(x)) == x,
        forall|b: u8| #[trigger] i8_bits(i8_from_bits(b)) == b,
        forall|x: i32| #[trigger] i32_from_bits(i32_bits(x)) == x,
        forall|b: u32| #[trigger] i32_bits(i32_from_bits(b)) == b,
{
}

/// Decoding an encoded sequence of numbers gives the sequence back.
pub proof fn lemma_seq_le_decodes_encoded(tail: Seq<u8>)
    ensures
        forall|s: Seq<i8>| #[trigger] i8_seq_from_bits(i8_seq_bits(s)) == s,
        forall|s: Seq<u16>| #[trigger] u16_seq_from_le(u16_seq_le(s) + tail, s.len()) == s,
        forall|s: Seq<u32>| #[trigger] u32_seq_from_le(u32_seq_le(s) + tail, s.len()) == s,
{
    assert forall|s: Seq<i8>| #[trigger] i8_seq_from_bits(i8_seq_bits(s)) == s by {
        lemma_bits_round_trip();
        assert(i8_seq_from_bits(i8_seq_bits(s)) =~= s);
    }
    assert forall|s: Seq<u16>| #[trigger] u16_seq_from_le(u16_seq_le(s) + tail, s.len()) == s by {
        let e = u16_seq_le(s) + tail;
        assert forall|i: int| 0 <= i < s.len() implies u16_from_le(e.skip(2 * i)) == s[i] by {
            let w = e.skip(2 * i);
            assert(w[0] == u16_le(s[(2 * i) / 2])[(2 * i) % 2]);
            assert(w[1] == u16_le(s[(2 * i + 1) / 2])[(2 * i + 1) % 2]);
            assert(w =~= u16_le(s[i]) + w.skip(2));
            lemma_u16_decodes_encoded(s[i], w.skip(2));
        }
        assert(u16_seq_from_le(e, s.len()) =~= s);
    }
    assert forall|s: Seq<u32>| #[trigger] u32_seq_from_le(u32_seq_le(s) + tail, s.len()) == s by {
        let e = u32_seq_le(s) + tail;
        assert forall|i: int| 0 <= i < s.len() implies u32_from_le(e.skip(4 * i)) == s[i] by {
            let w = e.skip(4 * i);
            assert(w[0] == u32_le(s[(4 * i) / 4])[(4 * i) % 4]);
            assert(w[1] == u32_le(s[(4 * i + 1) / 4])[(4 * i + 1) % 4]);
            assert(w[2] == u32_le(s[(4 * i + 2) / 4])[(4 * i + 2) % 4]);
            assert(w[3] == u32_le(s[(4 * i + 3) / 4])[(4 * i + 3) % 4]);
            assert(w =~= u32_le(s[i]) + w.skip(4));
            lemma_u32_decodes_encoded(s[i], w.skip(4));
        }
        assert(u32_seq_from_le(e, s.len()) =~= s);
    }
}

/// Encoding a decoded sequence of numbers gives the bytes back.
pub proof fn lemma_seq_le_encodes_decoded(s: Seq<u8>, count: nat)
    ensures
        i8_seq_bits(i8_seq_from_bits(s)) == s,
        s.len() >= 2 * count ==> u16_seq_le(u16_seq_from_le(s, count)) == s.take(2 * count as int),
        s.len() >= 4 * count ==> u32_seq_le(u32_seq_from_le(s, count)) == s.take(4 * count as int),
{
    lemma_bits_round_trip();
    assert(i8_seq_bits(i8_seq_from_bits(s)) =~= s);
    if s.len() >= 2 * count {
        let d = u16_seq_from_le(s, count);
        assert forall|k: int| 0 <= k < 2 * count implies u16_seq_le(d)[k] == s[k] by {
            let i = k / 2;
            let w = s.skip(2 * i);
            lemma_u16_encodes_decoded(w);
            assert(u16_le(d[i]) == w.take(2));
            assert(w.take(2)[k % 2] == s[k]);
        }
        assert(u16_seq_le(d) =~= s.take(2 * count as int));
    }
    if s.len() >= 4 * count {
        let d = u32_seq_from_le(s, count);
        assert forall|k: int| 0 <= k < 4 * count implies u32_seq_le(d)[k] == s[k] by {
            let i = k / 4;
            let w = s.skip(4 * i);
            lemma_u32_encodes_decoded(w);
            assert(u32_le(d[i]) == w.take(4));
            assert(w.take(4)[k % 4] == s[k]);
        }
        assert(u32_seq_le(d) =~= s.take(4 * count as int));
    }
}

/// Appends one byte.
pub fn write_u8(write: &mut Vec<u8>, value: u8)
    ensures
        final(write)@ == old(write)@.push(value),
{
    write.push(value);
}

/// Appends one signed byte.
pub fn write_i8(write: &mut Vec<u8>, value: i8)
    ensures
        final(write)@ == old(write)@.push(i8_bits(value)),
{
    let bits: u8 = if value >= 0 {
        value as u8
    } else {
        (value as i16 + 256) as u8
    };
    write.push(bits);
}

/// Appends a 16-bit number.
pub fn write_u16(write: &mut Vec<u8>, value: u16)
    ensures
        final(write)@ == old(write)@ + u16_le(value),
{
    write.push((value % 256) as u8);
    write.push((value / 256) as u8);
    assert(write@ =~= old(write)@ + u16_le(value));
}

/// Appends a 32-bit number.
pub fn write_u32(write: &mut Vec<u8>, value: u32)
    ensures
        final(write)@ == old(write)@ + u32_le(value),
{
    write.push((value % 256) as u8);
    write.push(((value / 256) % 256) as u8);
    write.push(((value / 256 / 256) % 256) as u8);
    write.push((value / 256 / 256 / 256) as u8);
    assert(write@ =~= old(write)@ + u32_le(value));
}

/// Appends a signed 32-bit number.
pub fn write_i32(write: &mut Vec<u8>, value: i32)
    ensures
        final(write)@ == old(write)@ + i32_le(value),
{
    let bits: u32 = if value >= 0 {
        value as u32
    } else {
        (value as i64 + 0x1_0000_0000) as u32
    };
    write_u32(write, bits);
}

/// Appends a 64-bit number.
pub fn write_u64(write: &mut Vec<u8>, value: u64)
    ensures
        final(write)@ == old(write)@ + u64_le(value),
{
    write_u32(write, (value % 0x1_0000_0000) as u32);
    write_u32(write, (value / 0x1_0000_0000) as u32);
    assert(write@ =~= old(write)@ + u64_le(value));
}

/// Appends the bytes as they are.
pub fn write_u8_array(write: &mut Vec<u8>, bytes: &[u8])
    ensures
        final(write)@ == old(write)@ + bytes@,
{
    let mut index: usize = 0;
    while index < bytes.len()
        invariant
            index <= bytes@.len(),
            write@ == old(write)@ + bytes@.take(index as int),
        decreases bytes@.len() - index,
    {
        write.push(bytes[index]);
        index = index + 1;
        assert(write@ =~= old(write)@ + bytes@.take(index as int));
    }
    assert(bytes@.take(index as int) =~= bytes@);
}

/// Appends each signed byte.
pub fn write_i8_array(write: &mut Vec<u8>, values: &[i8])
    ensures
        final(write)@ == old(write)@ + i8_seq_bits(values@),
{
    let mut index: usize = 0;
    while index < values.len()
        invariant
            index <= values@.len(),
            write@ == old(write)@ + i8_seq_bits(values@.take(index as int)),
        decreases values@.len() - index,
    {
        write_i8(write, values[index]);
        index = index + 1;
        assert(write@ =~= old(write)@ + i8_seq_bits(values@.take(index as int)));
    }
    assert(values@.take(index as int) =~= values@);
}

/// Appends each 16-bit number.
pub fn write_u16_array(write: &mut Vec<u8>, values: &[u16])
    ensures
        final(write)@ == old(write)@ + u16_seq_le(values@),
{
    let mut index: usize = 0;
    while index < values.len()
        invariant
            index <= values@.len(),
            write@ == old(write)@ + u16_seq_le(values@.take(index as int)),
        decreases values@.len() - index,
    {
        write_u16(write, values[index]);
        index = index + 1;
        assert(write@ =~= old(write)@ + u16_seq_le(values@.take(index as int)));
    }
    assert(values@.take(index as int) =~= values@);
}

/// Appends each 32-bit number.
pub fn write_u32_array(write: &mut Vec<u8>, values: &[u32])
    ensures
        final(write)@ == old(write)@ + u32_seq_le(values@),
{
    let mut index: usize = 0;
    while index < values.len()
        invariant
            index <= values@.len(),
            write@ == old(write)@ + u32_seq_le(values@.take(index as int)),
        decreases values@.len() - index,
    {
        write_u32(write, values[index]);
        index = index + 1;
        assert(write@ =~= old(write)@ + u32_seq_le(values@.take(index as int)));
    }
    assert(values@.take(index as int) =~= values@);
}

/// A reader over bytes in memory that remembers how far it has read.
pub struct ByteReader<'a> {
    bytes: &'a [u8],
    position: usize,
}

impl<'a> ByteReader<'a> {
    #[verifier::type_invariant]
    spec fn within_bounds(self) -> bool {
        self.position <= self.bytes@.len()
    }

    /// All the bytes that the reader was made for.
    pub closed spec fn source(self) -> Seq<u8> {
        self.bytes@
    }

    /// The bytes that have not been read yet.
    pub closed spec fn remaining(self) -> Seq<u8> {
        self.bytes@.skip(self.position as int)
    }

    /// Starts reading at the first byte.
    pub fn new(bytes: &'a [u8]) -> (r: ByteReader<'a>)
        ensures
            r.source() == bytes@,
            r.remaining() == bytes@,
    {
        ByteReader { bytes, position: 0 }
    }

    /// How many bytes have been read.
    pub fn position(&self) -> (r: usize)
        ensures
            r == self.source().len() - self.remaining().len(),
    {
        proof {
            use_type_invariant(self);
        }
        self.position
    }

    /// How many bytes are left.
    pub fn remaining_len(&self) -> (r: usize)
        ensures
            r == self.remaining().len(),
    {
        proof {
            use_type_invariant(self);
        }
        self.bytes.len() - self.position
    }

    /// Reads one byte.
    pub fn read_u8(&mut self) -> (r: Result<u8, Error>)
        ensures
            reads(*old(self), *final(self), r, read_u8_spec(old(self).remaining())),
    {
        proof {
            use_type_invariant(&*self);
        }
        if self.bytes.len() - self.position < 1 {
            return Err(Error::Io);
        }
        let value = self.bytes[self.position];
        self.position = self.position + 1;
        proof {
            assert(self.remaining() =~= old(self).remaining().skip(1));
        }
        Ok(value)
    }

    /// Reads one signed byte.
    pub fn read_i8(&mut self) -> (r: Result<i8, Error>)
        ensures
            reads(*old(self), *final(self), r, read_i8_spec(old(self).remaining())),
    {
        match self.read_u8() {
            Ok(bits) => Ok(
                if bits < 128 {
                    bits as i8
                } else {
                    (bits as i16 - 256) as i8
                },
            ),
            Err(e) => Err(e),
        }
    }

    /// Reads a 16-bit number.
    pub fn read_u16(&mut self) -> (r: Result<u16, Error>)
        ensures
            reads(*old(self), *final(self), r, read_u16_spec(old(self).remaining())),
    {
        proof {
            use_type_invariant(&*self);
        }
        if self.bytes.len() - self.position < 2 {
            return Err(Error::Io);
        }
        let start = self.position;
        let value = self.bytes[start] as u16 + 256 * (self.bytes[start + 1] as u16);
        self.position = start + 2;
        proof {
            assert(self.remaining() =~= old(self).remaining().skip(2));
        }
        Ok(value)
    }

    /// Reads a 32-bit number.
    pub fn read_u32(&mut self) -> (r: Result<u32, Error>)
        ensures
            reads(*old(self), *final(self), r, read_u32_spec(old(self).remaining())),
    {
        proof {
            use_type_invariant(&*self);
        }
        if self.bytes.len() - self.position < 4 {
            return Err(Error::Io);
        }
        let start = self.position;
        let value = self.bytes[start] as u32 + 256 * (self.bytes[start + 1] as u32) + 65536 * (
        self.bytes[start + 2] as u32) + 16777216 * (self.bytes[start + 3] as u32);
        self.position = start + 4;
        proof {
            assert(self.remaining() =~= old(self).remaining().skip(4));
        }
        Ok(value)
    }

    /// Reads a signed 32-bit number.
    pub fn read_i32(&mut self) -> (r: Result<i32, Error>)
        ensures
            reads(*old(self), *final(self), r, read_i32_spec(old(self).remaining())),
    {
        match self.read_u32() {
            Ok(bits) => Ok(
                if bits < 0x8000_0000 {
                    bits as i32
                } else {
                    (bits as i64 - 0x1_0000_0000) as i32
                },
            ),
            Err(e) => Err(e),
        }
    }

    /// Reads a 64-bit number.
    pub fn read_u64(&mut self) -> (r: Result<u64, Error>)
        ensures
            reads(*old(self), *final(self), r, read_u64_spec(old(self).remaining())),
    {
        proof {
            use_type_invariant(&*self);
        }
        if self.bytes.len() - self.position < 8 {
            return Err(Error::Io);
        }
        let low = match self.read_u32() {
            Ok(low) => low,
            Err(e) => return Err(e),
        };
        let high = match self.read_u32() {
            Ok(high) => high,
            Err(e) => return Err(e),
        };
        proof {
            assert(self.remaining() =~= old(self).remaining().skip(8));
        }
        Ok(low as u64 + 0x1_0000_0000 * (high as u64))
    }

    /// Reads `size` bytes into a new vector. Refuses a `size` above
    /// `limit` before looking at the input, so that a size field gone wrong
    /// cannot ask for more than the caller thinks sensible.
    pub fn read_u8_vec(&mut self, size: usize, limit: usize) -> (r: Result<Vec<u8>, Error>)
        ensures
            final(self).source() == old(self).source(),
            match read_u8_vec_spec(old(self).remaining(), size as nat, limit as nat) {
                Ok((bytes, rest)) => r is Ok && r->Ok_0@ == bytes && final(self).remaining() == rest,
                Err(e) => r == Err::<Vec<u8>, Error>(e) && *final(self) == *old(self),
            },
    {
        proof {
            use_type_invariant(&*self);
        }
        if size > limit {
            return Err(Error::InvalidSize);
        }
        if self.bytes.len() - self.position < size {
            return Err(Error::Io);
        }
        let start = self.position;
        let mut result: Vec<u8> = Vec::new();
        write_u8_array(&mut result, vstd::slice::slice_subrange(self.bytes, start, start + size));
        self.position = start + size;
        proof {
            assert(result@ =~= old(self).remaining().take(size as int));
            assert(self.remaining() =~= old(self).remaining().skip(size as int));
        }
        Ok(result)
    }

    /// Reads `count` signed bytes into a new vector.
    pub fn read_i8_vec(&mut self, count: usize) -> (r: Result<Vec<i8>, Error>)
        ensures
            final(self).source() == old(self).source(),
            match read_i8_vec_spec(old(self).remaining(), count as nat) {
                Ok((values, rest)) => r is Ok && r->Ok_0@ == values && final(self).remaining()
                    == rest,
                Err(e) => r == Err::<Vec<i8>, Error>(e) && *final(self) == *old(self),
            },
    {
        proof {
            use_type_invariant(&*self);
        }
        if self.bytes.len() - self.position < count {
            return Err(Error::Io);
        }
        let start = self.position;
        let mut result: Vec<i8> = Vec::new();
        let mut index: usize = 0;
        while index < count
            invariant
                index <= count,
                start + count <= self.bytes@.len() <= usize::MAX,
                result@ == i8_seq_from_bits(self.bytes@.subrange(start as int, start + index)),
            decreases count - index,
        {
            let bits = self.bytes[start + index];
            result.push(
                if bits < 128 {
                    bits as i8
                } else {
                    (bits as i16 - 256) as i8
                },
            );
            index = index + 1;
            assert(result@ =~= i8_seq_from_bits(
                self.bytes@.subrange(start as int, start + index),
            ));
        }
        self.position = start + count;
        proof {
            assert(self.bytes@.subrange(start as int, start + count) =~= old(self).remaining().take(count as int));
            assert(self.remaining() =~= old(self).remaining().skip(count as int));
        }
        Ok(result)
    }

    /// Reads `count` 32-bit numbers into a new vector.
    pub fn read_u32_vec(&mut self, count: usize) -> (r: Result<Vec<u32>, Error>)
        ensures
            final(self).source() == old(self).source(),
            match read_u32_vec_spec(old(self).remaining(), count as nat) {
                Ok((values, rest)) => r is Ok && r->Ok_0@ == values && final(self).remaining()
                    == rest,
                Err(e) => r == Err::<Vec<u32>, Error>(e) && *final(self) == *old(self),
            },
    {
        proof {
            use_type_invariant(&*self);
        }
        if (self.bytes.len() - self.position) / 4 < count {
            return Err(Error::Io);
        }
        let ghost before = *self;
        let mut result: Vec<u32> = Vec::new();
        let mut index: usize = 0;
        while index < count
            invariant
                index <= count,
                self.source() == before.source(),
                self.remaining() == before.remaining().skip(4 * index),
                before.remaining().len() >= 4 * count,
                result@ == u32_seq_from_le(before.remaining(), index as nat),
            decreases count - index,
        {
            match self.read_u32() {
                Ok(value) => result.push(value),
                Err(e) => return Err(e),
            }
            index = index + 1;
            proof {
                assert(self.remaining() =~= before.remaining().skip(4 * index));
                assert(result@ =~= u32_seq_from_le(before.remaining(), index as nat));
            }
        }
        Ok(result)
    }

    /// Looks at the next byte and reads it only if it is `value`.
    pub fn skip_if_eq(&mut self, value: u8) -> (r: Result<bool, Error>)
        ensures
            reads(*old(self), *final(self), r, skip_if_eq_spec(old(self).remaining(), value)),
    {
        proof {
            use_type_invariant(&*self);
        }
        if self.bytes.len() - self.position < 1 {
            return Err(Error::Io);
        }
        if self.bytes[self.position] == value {
            self.position = self.position + 1;
            proof {
                assert(self.remaining() =~= old(self).remaining().skip(1));
            }
            Ok(true)
        } else {
            Ok(false)
        }
    }

    /// Passes over `count` bytes without looking at them.
    pub fn skip(&mut self, count: usize) -> (r: Result<(), Error>)
        ensures
            reads(*old(self), *final(self), r, skip_spec(old(self).remaining(), count as nat)),
    {
        proof {
            use_type_invariant(&*self);
        }
        if self.bytes.len() - self.position < count {
            return Err(Error::Io);
        }
        self.position = self.position + count;
        proof {
            assert(self.remaining() =~= old(self).remaining().skip(count as int));
        }
        Ok(())
    }
}

/// What a read of a plain value gives and leaves, or why it fails.
pub type Parsed<T> = Result<(T, Seq<u8>), Error>;

/// A read of a plain value went as `expected` says: on success the value is
/// returned and the reader stands before the rest; on failure the error is
/// returned. Either way the reader still reads the same bytes.
pub open spec fn reads<T>(
    before: ByteReader,
    after: ByteReader,
    result: Result<T, Error>,
    expected: Parsed<T>,
) -> bool {
    &&& after.source() == before.source()
    &&& match expected {
        Ok((value, rest)) => result == Ok::<T, Error>(value) && after.remaining() == rest,
        Err(e) => result == Err::<T, Error>(e),
    }
}

pub open spec fn read_u8_spec(s: Seq<u8>) -> Parsed<u8> {
    if s.len() < 1 {
        Err(Error::Io)
    } else {
        Ok((s[0], s.skip(1)))
    }
}

pub open spec fn read_i8_spec(s: Seq<u8>) -> Parsed<i8> {
    if s.len() < 1 {
        Err(Error::Io)
    } else {
        Ok((i8_from_bits(s[0]), s.skip(1)))
    }
}

pub open spec fn read_u16_spec(s: Seq<u8>) -> Parsed<u16> {
    if s.len() < 2 {
        Err(Error::Io)
    } else {
        Ok((u16_from_le(s), s.skip(2)))
    }
}

pub open spec fn read_u32_spec(s: Seq<u8>) -> Parsed<u32> {
    if s.len() < 4 {
        Err(Error::Io)
    } else {
        Ok((u32_from_le(s), s.skip(4)))
    }
}

pub open spec fn read_i32_spec(s: Seq<u8>) -> Parsed<i32> {
    if s.len() < 4 {
        Err(Error::Io)
    } else {
        Ok((i32_from_le(s), s.skip(4)))
    }
}

pub open spec fn read_u64_spec(s: Seq<u8>) -> Parsed<u64> {
    if s.len() < 8 {
        Err(Error::Io)
    } else {
        Ok((u64_from_le(s), s.skip(8)))
    }
}

pub open spec fn read_u8_vec_spec(s: Seq<u8>, size: nat, limit: nat) -> Parsed<Seq<u8>> {
    if size > limit {
        Err(Error::InvalidSize)
    } else if s.len() < size {
        Err(Error::Io)
    } else {
        Ok((s.take(size as int), s.skip(size as int)))
    }
}

pub open spec fn read_i8_vec_spec(s: Seq<u8>, count: nat) -> Parsed<Seq<i8>> {
    if s.len() < count {
        Err(Error::Io)
    } else {
        Ok((i8_seq_from_bits(s.take(count as int)), s.skip(count as int)))
    }
}

pub open spec fn read_u32_vec_spec(s: Seq<u8>, count: nat) -> Parsed<Seq<u32>> {
    if s.len() < 4 * count {
        Err(Error::Io)
    } else {
        Ok((u32_seq_from_le(s, count), s.skip(4 * count as int)))
    }
}

pub open spec fn skip_if_eq_spec(s: Seq<u8>, value: u8) -> Parsed<bool> {
    if s.len() < 1 {
        Err(Error::Io)
    } else if s[0] == value {
        Ok((true, s.skip(1)))
    } else {
        Ok((false, s))
    }
}

pub open spec fn skip_spec(s: Seq<u8>, count: nat) -> Parsed<()> {
    if s.len() < count {
        Err(Error::Io)
    } else {
        Ok(((), s.skip(count as int)))
    }
}

/// The byte that ends a sequence of texts, channels or attributes.
pub struct SequenceEnd;

impl SequenceEnd {
    /// How many bytes the end of a sequence takes.
    pub fn byte_size() -> (r: usize)
        ensures
            r == 1,
    {
        1
    }

    /// Appends the end of a sequence: one zero byte.
    pub fn write(write: &mut Vec<u8>)
        ensures
            final(write)@ == old(write)@.push(0u8),
    {
        write_u8(write, 0);
    }

    /// Whether the sequence ends here. If it does, its end is read;
    /// if it does not, nothing is.
    pub fn has_come(read: &mut ByteReader) -> (r: Result<bool, Error>)
        ensures
            reads(*old(read), *final(read), r, skip_if_eq_spec(old(read).remaining(), 0u8)),
    {
        read.skip_if_eq(0)
    }
}

} // verus!
