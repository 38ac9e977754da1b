//! The typed values that a header holds, and their layout in bytes.
//!
//! An attribute is written as its name and the name of its type, each ended
//! by a zero byte, then the byte size of its value as a signed 32-bit number,
//! then the value. For each type, a function `bytes` here says what is
//! written and a function `read_spec` says what reading makes of given
//! bytes; `write` and `read` do both on buffers in memory.

use vstd::prelude::*;
use vstd::string::StringSliceAdditionalSpecFns;
use smallvec::SmallVec;
use crate::error::{Error, Value, Required, Validity, WriteResult, ReadResult};
use crate::compression::Compression;
use crate::io::{
    ascii, ascii_bytes, bytes_equal, i32_le, i32_from_le, u32_le, u32_from_le, u64_le, i8_seq_bits,
    i8_seq_from_bits, u32_seq_le, i32_from_bits, write_u8, write_i8_array, write_i32, write_u32,
    write_u64, write_u8_array, write_u32_array, ByteReader, Parsed, SequenceEnd, reads,
    read_i32_spec, read_u32_spec, read_u64_spec, read_u8_vec_spec, read_u32_vec_spec,
};

verus! {

/// The bytes that a text holds, in order.
pub uninterp spec fn text_bytes(text: Text) -> Seq<u8>;

/// A text of a file: the name of an attribute, of a type or of a channel,
/// or a string value. It does not include a terminating zero byte.
///
/// A name is valid if it has at least one byte and at most 31, or at most
/// 255 in a file that allows long names, each of them an ASCII character
/// other than zero.
///
/// The bytes are kept in a `SmallVec` of the `smallvec` crate, which the
/// verifier does not look into: `text_bytes` names what it holds, and the
/// contracts of `from_bytes` and `as_slice` are taken on trust.
#[verifier::external_body]
#[derive(Debug, PartialEq, Eq)]
pub struct Text {
    bytes: SmallVec<[u8; 32]>,
}

impl View for Text {
    type V = Seq<u8>;

    open spec fn view(&self) -> Seq<u8> {
        text_bytes(*self)
    }
}

impl Clone for Text {
    fn clone(&self) -> (r: Text)
        ensures
            r@ == self@,
    {
        Text::from_bytes(self.as_slice())
    }
}

/// No text that is read with its size in front may be longer than this.
pub const SIZED_TEXT_LIMIT: usize = 1024;

/// What is wrong with a text, if anything. `long_names` says whether
/// the file allows names of up to 255 bytes, or `None` where no length is
/// too much.
pub open spec fn validate_text(text: Seq<u8>, long_names: Option<bool>) -> Validity {
    if text.len() == 0 {
        Err(Error::InvalidContent { what: Value::Text, required: Required::Min(1) })
    } else if long_names == Some(true) && text.len() >= 256 {
        Err(Error::InvalidContent { what: Value::Text, required: Required::Max(255) })
    } else if long_names == Some(false) && text.len() >= 32 {
        Err(Error::InvalidContent { what: Value::Text, required: Required::Max(31) })
    } else if exists|i: int| 0 <= i < text.len() && !(1 <= #[trigger] text[i] <= 127) {
        Err(Error::InvalidContent { what: Value::Text, required: Required::Range { min: 1, max: 127 } })
    } else {
        Ok(())
    }
}

/// How many bytes stand before the first zero byte, or before the end.
pub open spec fn leading_nonzero(s: Seq<u8>) -> nat
    decreases s.len(),
{
    if s.len() == 0 || s[0] == 0 {
        0
    } else {
        1 + leading_nonzero(s.skip(1))
    }
}

/// The position found by `leading_nonzero` is the first zero byte or the end.
pub proof fn lemma_leading_nonzero(s: Seq<u8>, n: int)
    requires
        0 <= n <= s.len(),
        forall|i: int| 0 <= i < n ==> s[i] != 0,
        n == s.len() || s[n] == 0,
    ensures
        leading_nonzero(s) == n,
    decreases s.len(),
{
    if n > 0 {
        lemma_leading_nonzero(s.skip(1), n - 1);
    }
}

/// Reading a text that a zero byte ends: the bytes before the first zero
/// byte, which is read too. Fails where the input holds no zero byte.
pub open spec fn read_null_terminated_spec(s: Seq<u8>) -> Parsed<Seq<u8>> {
    let n = leading_nonzero(s);
    if n >= s.len() {
        Err(Error::Io)
    } else {
        Ok((s.take(n as int), s.skip(n as int + 1)))
    }
}

/// Reading a text of `size` bytes.
pub open spec fn read_sized_spec(s: Seq<u8>, size: nat) -> Parsed<Seq<u8>> {
    read_u8_vec_spec(s, size, SIZED_TEXT_LIMIT as nat)
}

/// Reading a text that has its size in front, as a signed 32-bit number.
pub open spec fn read_i32_sized_spec(s: Seq<u8>) -> Parsed<Seq<u8>> {
    match read_i32_spec(s) {
        Err(e) => Err(e),
        Ok((size, rest)) => if size < 0 {
            Err(Error::InvalidSize)
        } else {
            read_sized_spec(rest, size as nat)
        },
    }
}

/// A text with its size in front.
pub open spec fn i32_sized_bytes(text: Seq<u8>) -> Seq<u8> {
    i32_le(text.len() as i32) + text
}

/// What is wrong with a text that is to be written with its size in front.
pub open spec fn validate_i32_sized(text: Seq<u8>, long_names: Option<bool>) -> Validity {
    if text.len() > i32::MAX {
        Err(Error::InvalidSize)
    } else {
        validate_text(text, long_names)
    }
}

/// `String::push`: the text is what it was, with the character behind it.
#[verifier::external_body]
fn push_char(text: &mut String, character: char)
    ensures
        final(text)@ == old(text)@.push(character),
{
    text.push(character)
}

impl Text {
    /// A text of the given bytes, whatever they are.
    ///
    /// This is `SmallVec::from_slice`: the new vector holds a copy of the slice.
    #[verifier::external_body]
    pub fn from_bytes(bytes: &[u8]) -> (r: Text)
        ensures
            text_bytes(r) == bytes@,
    {
        Text { bytes: SmallVec::from_slice(bytes) }
    }

    /// `SmallVec::as_slice`: a slice of all the bytes that the vector holds, in order.
    #[verifier::external_body]
    pub(crate) fn as_slice(&self) -> (r: &[u8])
        ensures
            r@ == text_bytes(*self),
    {
        self.bytes.as_slice()
    }

    fn unchecked_from_str(str_value: &str) -> (r: Text)
        ensures
            r@ == str_value.spec_bytes(),
    {
        Text::from_bytes(str_value.as_bytes())
    }

    /// A name for a file without long names.
    pub fn short_from_str(str_value: &str) -> (r: Text)
        requires
            str_value.spec_bytes().len() < 32,
        ensures
            r@ == str_value.spec_bytes(),
    {
        Text::unchecked_from_str(str_value)
    }

    /// A name for a file with long names.
    pub fn long_from_str(str_value: &str) -> (r: Text)
        requires
            str_value.spec_bytes().len() < 256,
        ensures
            r@ == str_value.spec_bytes(),
    {
        Text::unchecked_from_str(str_value)
    }

    /// The bytes of the text.
    pub fn to_vec(&self) -> (r: Vec<u8>)
        ensures
            r@ == self@,
    {
        let mut result: Vec<u8> = Vec::new();
        write_u8_array(&mut result, self.as_slice());
        assert(result@ =~= self@);
        result
    }

    /// How many bytes the text has.
    pub fn len(&self) -> (r: usize)
        ensures
            r == self@.len(),
    {
        self.as_slice().len()
    }

    /// The text with each byte taken as one character.
    pub fn to_string(&self) -> (r: String)
        ensures
            r@ == Seq::new(self@.len(), |i: int| self@[i] as char),
    {
        let bytes = self.as_slice();
        let mut result = String::new();
        let mut index: usize = 0;
        while index < bytes.len()
            invariant
                index <= bytes@.len(),
                result@ == Seq::new(index as nat, |i: int| bytes@[i] as char),
            decreases bytes@.len() - index,
        {
            push_char(&mut result, bytes[index] as char);
            index = index + 1;
            assert(result@ =~= Seq::new(index as nat, |i: int| bytes@[i] as char));
        }
        result
    }

    /// Says what is wrong with the text, if anything.
    pub fn validate(&self, long_names: Option<bool>) -> (r: Validity)
        ensures
            r == validate_text(self@, long_names),
    {
        Text::validate_bytes(self.as_slice(), long_names)
    }

    /// Says what is wrong with the bytes as a text, if anything.
    pub fn validate_bytes(text: &[u8], long_names: Option<bool>) -> (r: Validity)
        ensures
            r == validate_text(text@, long_names),
    {
        if text.len() == 0 {
            return Err(Error::InvalidContent { what: Value::Text, required: Required::Min(1) });
        }
        match long_names {
            Some(true) => {
                if text.len() >= 256 {
                    return Err(
                        Error::InvalidContent { what: Value::Text, required: Required::Max(255) },
                    );
                }
            },
            Some(false) => {
                if text.len() >= 32 {
                    return Err(
                        Error::InvalidContent { what: Value::Text, required: Required::Max(31) },
                    );
                }
            },
            None => {},
        }
        let mut index: usize = 0;
        while index < text.len()
            invariant
                index <= text@.len(),
                text@.len() != 0,
                !(long_names == Some(true) && text@.len() >= 256),
                !(long_names == Some(false) && text@.len() >= 32),
                forall|i: int| 0 <= i < index ==> 1 <= #[trigger] text@[i] <= 127,
            decreases text@.len() - index,
        {
            if text[index] < 1 || text[index] > 127 {
                assert(!(1 <= text@[index as int] <= 127));
                return Err(
                    Error::InvalidContent {
                        what: Value::Text,
                        required: Required::Range { min: 1, max: 127 },
                    },
                );
            }
            index = index + 1;
        }
        Ok(())
    }

    /// Appends the size of the text and the text, if the text is valid.
    pub fn write_i32_sized(&self, write: &mut Vec<u8>, long_names: Option<bool>) -> (r:
        WriteResult)
        ensures
            r == validate_i32_sized(self@, long_names),
            final(write)@ == if r is Ok {
                old(write)@ + i32_sized_bytes(self@)
            } else {
                old(write)@
            },
    {
        let bytes = self.as_slice();
        if bytes.len() > i32::MAX as usize {
            return Err(Error::InvalidSize);
        }
        match Text::validate_bytes(bytes, long_names) {
            Ok(()) => {},
            Err(e) => return Err(e),
        }
        write_i32(write, bytes.len() as i32);
        write_u8_array(write, bytes);
        assert(write@ =~= old(write)@ + i32_sized_bytes(self@));
        Ok(())
    }

    /// Appends the bytes, if they are a valid text.
    pub fn write_unsized_bytes(bytes: &[u8], write: &mut Vec<u8>, long_names: Option<bool>) -> (r:
        WriteResult)
        ensures
            r == validate_text(bytes@, long_names),
            final(write)@ == if r is Ok {
                old(write)@ + bytes@
            } else {
                old(write)@
            },
    {
        match Text::validate_bytes(bytes, long_names) {
            Ok(()) => {},
            Err(e) => return Err(e),
        }
        write_u8_array(write, bytes);
        Ok(())
    }

    /// Reads a text that has its size in front.
    pub fn read_i32_sized(read: &mut ByteReader) -> (r: ReadResult<Text>)
        ensures
            reads_text(*old(read), *final(read), r, read_i32_sized_spec(old(read).remaining())),
    {
        let size = match read.read_i32() {
            Ok(size) => size,
            Err(e) => return Err(e),
        };
        if size < 0 {
            return Err(Error::InvalidSize);
        }
        Text::read_sized(read, size as usize)
    }

    /// Reads a text of `size` bytes.
    pub fn read_sized(read: &mut ByteReader, size: usize) -> (r: ReadResult<Text>)
        ensures
            reads_text(
                *old(read),
                *final(read),
                r,
                read_sized_spec(old(read).remaining(), size as nat),
            ),
    {
        match read.read_u8_vec(size, SIZED_TEXT_LIMIT) {
            Ok(bytes) => Ok(Text::from_bytes(bytes.as_slice())),
            Err(e) => Err(e),
        }
    }

    /// Appends the text and a zero byte, if the text is valid.
    pub fn write_null_terminated(&self, write: &mut Vec<u8>, long_names: Option<bool>) -> (r:
        WriteResult)
        ensures
            r == validate_text(self@, long_names),
            final(write)@ == if r is Ok {
                old(write)@ + self@.push(0u8)
            } else {
                old(write)@
            },
    {
        Text::write_null_terminated_bytes(self.as_slice(), write, long_names)
    }

    /// Appends the bytes and a zero byte, if the bytes are a valid text.
    pub fn write_null_terminated_bytes(
        bytes: &[u8],
        write: &mut Vec<u8>,
        long_names: Option<bool>,
    ) -> (r: WriteResult)
        ensures
            r == validate_text(bytes@, long_names),
            final(write)@ == if r is Ok {
                old(write)@ + bytes@.push(0u8)
            } else {
                old(write)@
            },
    {
        match Text::write_unsized_bytes(bytes, write, long_names) {
            Ok(()) => {},
            Err(e) => return Err(e),
        }
        SequenceEnd::write(write);
        assert(write@ =~= old(write)@ + bytes@.push(0u8));
        Ok(())
    }

    /// Reads a text up to the zero byte that ends it, and that byte.
    pub fn read_null_terminated(read: &mut ByteReader) -> (r: ReadResult<Text>)
        ensures
            reads_text(
                *old(read),
                *final(read),
                r,
                read_null_terminated_spec(old(read).remaining()),
            ),
    {
        let ghost start = old(read).remaining();
        let mut bytes: Vec<u8> = Vec::new();
        loop
            invariant
                start == old(read).remaining(),
                read.source() == old(read).source(),
                bytes@.len() <= start.len(),
                bytes@ == start.take(bytes@.len() as int),
                read.remaining() == start.skip(bytes@.len() as int),
                forall|i: int| 0 <= i < bytes@.len() ==> start[i] != 0,
            decreases start.len() - bytes@.len(),
        {
            let ghost count = bytes@.len() as int;
            match read.read_u8() {
                Err(e) => {
                    proof {
                        lemma_leading_nonzero(start, count);
                    }
                    return Err(e);
                },
                Ok(byte) => {
                    assert(byte == start[count]);
                    if byte == 0 {
                        proof {
                            lemma_leading_nonzero(start, count);
                            assert(read.remaining() =~= start.skip(count + 1));
                        }
                        return Ok(Text::from_bytes(bytes.as_slice()));
                    }
                    bytes.push(byte);
                    proof {
                        assert(bytes@ =~= start.take(count + 1));
                        assert(read.remaining() =~= start.skip(count + 1));
                    }
                },
            }
        }
    }
}

/// A read of a text went as `expected` says: on success the text holds the
/// bytes expected and the reader stands before the rest; on failure the error
/// is returned. Either way the reader still reads the same bytes.
pub open spec fn reads_text(
    before: ByteReader,
    after: ByteReader,
    result: ReadResult<Text>,
    expected: Parsed<Seq<u8>>,
) -> bool {
    &&& after.source() == before.source()
    &&& match expected {
        Ok((text, rest)) => result is Ok && result->Ok_0@ == text && after.remaining() == rest,
        Err(e) => result == Err::<Text, Error>(e),
    }
}

/// The type of a layer, with the four types that the format knows told apart.
///
/// Its value is its text: a text that spells one of the four known types
/// is the same value as that type.
#[derive(Debug, PartialEq, Eq)]
pub enum ParsedText {
    /// "scanlineimage"
    ScanLine,
    /// "tiledimage"
    Tile,
    /// "deepscanline"
    DeepScanLine,
    /// "deeptile"
    DeepTile,
    /// Any other text.
    Arbitrary(Text),
}

impl View for ParsedText {
    type V = Seq<u8>;

    open spec fn view(&self) -> Seq<u8> {
        match self {
            ParsedText::ScanLine => ascii("scanlineimage"),
            ParsedText::Tile => ascii("tiledimage"),
            ParsedText::DeepScanLine => ascii("deepscanline"),
            ParsedText::DeepTile => ascii("deeptile"),
            ParsedText::Arbitrary(text) => text@,
        }
    }
}

/// The text of the type of a flat layer of scan lines.
pub fn scan_line_kind() -> (r: &'static [u8])
    ensures
        r@ == ascii("scanlineimage"),
{
    proof {
        reveal_strlit("scanlineimage");
    }
    ascii_bytes("scanlineimage")
}

/// The text of the type of a flat layer of tiles.
pub fn tile_kind() -> (r: &'static [u8])
    ensures
        r@ == ascii("tiledimage"),
{
    proof {
        reveal_strlit("tiledimage");
    }
    ascii_bytes("tiledimage")
}

/// The text of the type of a deep layer of scan lines.
pub fn deep_scan_line_kind() -> (r: &'static [u8])
    ensures
        r@ == ascii("deepscanline"),
{
    proof {
        reveal_strlit("deepscanline");
    }
    ascii_bytes("deepscanline")
}

/// The text of the type of a deep layer of tiles.
pub fn deep_tile_kind() -> (r: &'static [u8])
    ensures
        r@ == ascii("deeptile"),
{
    proof {
        reveal_strlit("deeptile");
    }
    ascii_bytes("deeptile")
}

impl Clone for ParsedText {
    fn clone(&self) -> (r: ParsedText)
        ensures
            r@ == self@,
            r is Arbitrary == self is Arbitrary,
    {
        match self {
            ParsedText::ScanLine => ParsedText::ScanLine,
            ParsedText::Tile => ParsedText::Tile,
            ParsedText::DeepScanLine => ParsedText::DeepScanLine,
            ParsedText::DeepTile => ParsedText::DeepTile,
            ParsedText::Arbitrary(text) => ParsedText::Arbitrary(text.clone()),
        }
    }
}

impl ParsedText {
    /// The type that the text spells.
    pub fn parse(text: Text) -> (r: ParsedText)
        ensures
            r@ == text@,
            r is ScanLine <==> text@ == ascii("scanlineimage"),
            r is Tile <==> text@ == ascii("tiledimage"),
            r is DeepScanLine <==> text@ == ascii("deepscanline"),
            r is DeepTile <==> text@ == ascii("deeptile"),
    {
        proof {
            lemma_kinds_differ();
        }
        if bytes_equal(text.as_slice(), scan_line_kind()) {
            ParsedText::ScanLine
        } else if bytes_equal(text.as_slice(), tile_kind()) {
            ParsedText::Tile
        } else if bytes_equal(text.as_slice(), deep_scan_line_kind()) {
            ParsedText::DeepScanLine
        } else if bytes_equal(text.as_slice(), deep_tile_kind()) {
            ParsedText::DeepTile
        } else {
            ParsedText::Arbitrary(text)
        }
    }

    /// The bytes of the text. No length is checked here: that is done
    /// when the text is written.
    pub fn to_text_bytes(&self) -> (r: &[u8])
        ensures
            r@ == self@,
    {
        match self {
            ParsedText::ScanLine => scan_line_kind(),
            ParsedText::Tile => tile_kind(),
            ParsedText::DeepScanLine => deep_scan_line_kind(),
            ParsedText::DeepTile => deep_tile_kind(),
            ParsedText::Arbitrary(text) => text.as_slice(),
        }
    }

    /// Whether this is one of the four types that a layer may have.
    pub fn validate_kind(&self) -> (r: Validity)
        ensures
            r == if self is Arbitrary {
                Err::<(), Error>(
                    Error::InvalidContent {
                        what: Value::Type("type"),
                        required: Required::OneOf(
                            "scanlineimage,tiledimage,deepscanline,deeptile",
                        ),
                    },
                )
            } else {
                Ok::<(), Error>(())
            },
    {
        match self {
            ParsedText::Arbitrary(_) => Err(
                Error::InvalidContent {
                    what: Value::Type("type"),
                    required: Required::OneOf("scanlineimage,tiledimage,deepscanline,deeptile"),
                },
            ),
            _ => Ok(()),
        }
    }

    /// Whether a layer of this type holds deep data.
    pub fn is_deep_kind(&self) -> (r: bool)
        ensures
            r == (self is DeepScanLine || self is DeepTile),
    {
        match self {
            ParsedText::DeepScanLine | ParsedText::DeepTile => true,
            _ => false,
        }
    }

    /// Whether a layer of this type is divided into tiles.
    pub fn is_tile_kind(&self) -> (r: bool)
        ensures
            r == (self is DeepTile || self is Tile),
    {
        match self {
            ParsedText::DeepTile | ParsedText::Tile => true,
            _ => false,
        }
    }
}

/// No two of the four layer types have the same text.
pub proof fn lemma_kinds_differ()
    ensures
        ascii("scanlineimage") != ascii("tiledimage"),
        ascii("scanlineimage") != ascii("deepscanline"),
        ascii("scanlineimage") != ascii("deeptile"),
        ascii("tiledimage") != ascii("deepscanline"),
        ascii("tiledimage") != ascii("deeptile"),
        ascii("deepscanline") != ascii("deeptile"),
{
    reveal_strlit("scanlineimage");
    reveal_strlit("tiledimage");
    reveal_strlit("deepscanline");
    reveal_strlit("deeptile");
    assert(ascii("scanlineimage").len() == 13);
    assert(ascii("tiledimage").len() == 10);
    assert(ascii("deepscanline").len() == 12);
    assert(ascii("deeptile").len() == 8);
}

/// A rectangle of pixels between two corners, both included.
#[derive(Debug, Clone, Copy, PartialEq, Eq)]
pub struct I32Box2 {
    pub x_min: i32,
    pub y_min: i32,
    pub x_max: i32,
    pub y_max: i32,
}

/// The rectangle that clips what a layer holds.
pub type DataWindow = I32Box2;

/// The rectangle that a viewer shows.
pub type DisplayWindow = I32Box2;

impl I32Box2 {
    /// Whether neither minimum is above its maximum.
    pub open spec fn is_valid(self) -> bool {
        self.x_min <= self.x_max && self.y_min <= self.y_max
    }

    /// The sixteen bytes of the box.
    pub open spec fn bytes(self) -> Seq<u8> {
        i32_le(self.x_min) + i32_le(self.y_min) + i32_le(self.x_max) + i32_le(self.y_max)
    }

    /// Reading a box.
    pub open spec fn read_spec(s: Seq<u8>) -> Parsed<I32Box2> {
        if s.len() < 16 {
            Err(Error::Io)
        } else {
            Ok(
                (
                    I32Box2 {
                        x_min: i32_from_le(s),
                        y_min: i32_from_le(s.skip(4)),
                        x_max: i32_from_le(s.skip(8)),
                        y_max: i32_from_le(s.skip(12)),
                    },
                    s.skip(16),
                ),
            )
        }
    }

    /// Says whether a minimum is above its maximum.
    pub fn validate(&self) -> (r: Validity)
        ensures
            r == if self.is_valid() {
                Ok::<(), Error>(())
            } else {
                Err::<(), Error>(
                    Error::InvalidContent {
                        what: Value::Attribute("box2i"),
                        required: Required::Exact("min <= max"),
                    },
                )
            },
    {
        if self.x_min > self.x_max || self.y_min > self.y_max {
            Err(
                Error::InvalidContent {
                    what: Value::Attribute("box2i"),
                    required: Required::Exact("min <= max"),
                },
            )
        } else {
            Ok(())
        }
    }

    /// How far the maximum is from the minimum, along x and along y.
    pub fn dimensions(&self) -> (r: (i32, i32))
        requires
            i32::MIN <= self.x_max - self.x_min <= i32::MAX,
            i32::MIN <= self.y_max - self.y_min <= i32::MAX,
        ensures
            r.0 == self.x_max - self.x_min,
            r.1 == self.y_max - self.y_min,
    {
        (self.x_max - self.x_min, self.y_max - self.y_min)
    }

    /// Appends the box.
    pub fn write(&self, write: &mut Vec<u8>) -> (r: WriteResult)
        ensures
            r == Ok::<(), Error>(()),
            final(write)@ == old(write)@ + self.bytes(),
    {
        write_i32(write, self.x_min);
        write_i32(write, self.y_min);
        write_i32(write, self.x_max);
        write_i32(write, self.y_max);
        assert(write@ =~= old(write)@ + self.bytes());
        Ok(())
    }

    /// Reads a box.
    pub fn read(read: &mut ByteReader) -> (r: ReadResult<I32Box2>)
        ensures
            reads(*old(read), *final(read), r, I32Box2::read_spec(old(read).remaining())),
    {
        let ghost s = old(read).remaining();
        let x_min = read.read_i32()?;
        let y_min = read.read_i32()?;
        let x_max = read.read_i32()?;
        let y_max = read.read_i32()?;
        proof {
            assert(s.skip(4).skip(4) =~= s.skip(8));
            assert(s.skip(8).skip(4) =~= s.skip(12));
            assert(s.skip(12).skip(4) =~= s.skip(16));
        }
        Ok(I32Box2 { x_min, y_min, x_max, y_max })
    }
}

/// A rectangle in the plane between two corners with floating-point
/// coordinates, each held as its bit pattern.
#[derive(Debug, Clone, Copy, PartialEq, Eq)]
pub struct F32Box2 {
    pub x_min: u32,
    pub y_min: u32,
    pub x_max: u32,
    pub y_max: u32,
}

impl F32Box2 {
    /// The sixteen bytes of the box.
    pub open spec fn bytes(self) -> Seq<u8> {
        u32_le(self.x_min) + u32_le(self.y_min) + u32_le(self.x_max) + u32_le(self.y_max)
    }

    /// Reading a box.
    pub open spec fn read_spec(s: Seq<u8>) -> Parsed<F32Box2> {
        if s.len() < 16 {
            Err(Error::Io)
        } else {
            Ok(
                (
                    F32Box2 {
                        x_min: u32_from_le(s),
                        y_min: u32_from_le(s.skip(4)),
                        x_max: u32_from_le(s.skip(8)),
                        y_max: u32_from_le(s.skip(12)),
                    },
                    s.skip(16),
                ),
            )
        }
    }

    /// Appends the box.
    pub fn write(&self, write: &mut Vec<u8>) -> (r: WriteResult)
        ensures
            r == Ok::<(), Error>(()),
            final(write)@ == old(write)@ + self.bytes(),
    {
        write_u32(write, self.x_min);
        write_u32(write, self.y_min);
        write_u32(write, self.x_max);
        write_u32(write, self.y_max);
        assert(write@ =~= old(write)@ + self.bytes());
        Ok(())
    }

    /// Reads a box.
    pub fn read(read: &mut ByteReader) -> (r: ReadResult<F32Box2>)
        ensures
            reads(*old(read), *final(read), r, F32Box2::read_spec(old(read).remaining())),
    {
        let ghost s = old(read).remaining();
        let x_min = read.read_u32()?;
        let y_min = read.read_u32()?;
        let x_max = read.read_u32()?;
        let y_max = read.read_u32()?;
        proof {
            assert(s.skip(4).skip(4) =~= s.skip(8));
            assert(s.skip(8).skip(4) =~= s.skip(12));
            assert(s.skip(12).skip(4) =~= s.skip(16));
        }
        Ok(F32Box2 { x_min, y_min, x_max, y_max })
    }
}

/// The type of the samples of a channel.
#[derive(Debug, Clone, Copy, PartialEq, Eq)]
pub enum PixelType {
    /// Unsigned 32-bit numbers.
    U32,
    /// 16-bit floating-point numbers.
    F16,
    /// 32-bit floating-point numbers.
    F32,
}

impl PixelType {
    /// The number that stands for the type in a file.
    pub open spec fn code(self) -> i32 {
        match self {
            PixelType::U32 => 0,
            PixelType::F16 => 1,
            PixelType::F32 => 2,
        }
    }

    /// The type that a number stands for, if any.
    pub open spec fn from_code(code: i32) -> Option<PixelType> {
        if code == 0 {
            Some(PixelType::U32)
        } else if code == 1 {
            Some(PixelType::F16)
        } else if code == 2 {
            Some(PixelType::F32)
        } else {
            None
        }
    }

    /// The four bytes of the type.
    pub open spec fn bytes(self) -> Seq<u8> {
        i32_le(self.code())
    }

    /// Reading a type.
    pub open spec fn read_spec(s: Seq<u8>) -> Parsed<PixelType> {
        if s.len() < 4 {
            Err(Error::Io)
        } else {
            match PixelType::from_code(i32_from_le(s)) {
                Some(pixel_type) => Ok((pixel_type, s.skip(4))),
                None => Err(
                    Error::InvalidContent {
                        what: Value::Enum("pixelType"),
                        required: Required::Range { min: 0, max: 2 },
                    },
                ),
            }
        }
    }

    /// How many bytes one sample of this type takes.
    pub open spec fn spec_bytes_per_sample(self) -> nat {
        match self {
            PixelType::F16 => 2,
            PixelType::F32 => 4,
            PixelType::U32 => 4,
        }
    }

    /// How many bytes one sample of this type takes.
    pub fn bytes_per_sample(self) -> (r: usize)
        ensures
            r == self.spec_bytes_per_sample(),
    {
        match self {
            PixelType::F16 => 2,
            PixelType::F32 => 4,
            PixelType::U32 => 4,
        }
    }

    /// Appends the type.
    pub fn write(&self, write: &mut Vec<u8>) -> (r: WriteResult)
        ensures
            r == Ok::<(), Error>(()),
            final(write)@ == old(write)@ + self.bytes(),
    {
        let code: i32 = match *self {
            PixelType::U32 => 0,
            PixelType::F16 => 1,
            PixelType::F32 => 2,
        };
        write_i32(write, code);
        Ok(())
    }

    /// Reads a type.
    pub fn read(read: &mut ByteReader) -> (r: ReadResult<PixelType>)
        ensures
            reads(*old(read), *final(read), r, PixelType::read_spec(old(read).remaining())),
    {
        let code = read.read_i32()?;
        if code == 0 {
            Ok(PixelType::U32)
        } else if code == 1 {
            Ok(PixelType::F16)
        } else if code == 2 {
            Ok(PixelType::F32)
        } else {
            Err(
                Error::InvalidContent {
                    what: Value::Enum("pixelType"),
                    required: Required::Range { min: 0, max: 2 },
                },
            )
        }
    }
}

/// One channel of a layer, as its header describes it.
#[derive(Debug, PartialEq, Eq)]
pub struct Channel {
    /// The name of the channel.
    pub name: Text,
    /// The type of its samples.
    pub pixel_type: PixelType,
    /// Whether its samples are to be taken as linear when they are compressed lossily.
    pub is_linear: bool,
    /// Three bytes without a meaning, which should be zero.
    pub reserved: [i8; 3],
    /// One sample stands for this many pixels along x.
    pub x_sampling: i32,
    /// One sample stands for this many pixels along y.
    pub y_sampling: i32,
}

/// What a channel description holds.
pub struct ChannelView {
    pub name: Seq<u8>,
    pub pixel_type: PixelType,
    pub is_linear: bool,
    pub reserved: Seq<i8>,
    pub x_sampling: i32,
    pub y_sampling: i32,
}

impl ChannelView {
    /// The bytes of the channel description: its name, a zero byte, and sixteen bytes
    /// for the rest.
    pub open spec fn bytes(self) -> Seq<u8> {
        self.name.push(0u8) + self.pixel_type.bytes() + seq![
            if self.is_linear {
                1u8
            } else {
                0u8
            },
        ] + i8_seq_bits(self.reserved) + i32_le(self.x_sampling) + i32_le(self.y_sampling)
    }

    /// Whether the three reserved bytes are three.
    pub open spec fn wf(self) -> bool {
        self.reserved.len() == 3
    }

    /// Reading what follows the name of a channel.
    pub open spec fn read_after_name_spec(name: Seq<u8>, s: Seq<u8>) -> Parsed<ChannelView> {
        match PixelType::read_spec(s) {
            Err(e) => Err(e),
            Ok((pixel_type, _)) => {
                if s.len() < 5 {
                    Err(Error::Io)
                } else if s[4] > 1 {
                    Err(
                        Error::InvalidContent {
                            what: Value::Enum("pLinear"),
                            required: Required::Range { min: 0, max: 1 },
                        },
                    )
                } else if s.len() < 16 {
                    Err(Error::Io)
                } else {
                    Ok(
                        (
                            ChannelView {
                                name,
                                pixel_type,
                                is_linear: s[4] == 1,
                                reserved: i8_seq_from_bits(s.subrange(5, 8)),
                                x_sampling: i32_from_le(s.skip(8)),
                                y_sampling: i32_from_le(s.skip(12)),
                            },
                            s.skip(16),
                        ),
                    )
                }
            },
        }
    }

    /// Reading a channel description.
    pub open spec fn read_spec(s: Seq<u8>) -> Parsed<ChannelView> {
        match read_null_terminated_spec(s) {
            Err(e) => Err(e),
            Ok((name, rest)) => ChannelView::read_after_name_spec(name, rest),
        }
    }
}

impl View for Channel {
    type V = ChannelView;

    open spec fn view(&self) -> ChannelView {
        ChannelView {
            name: self.name@,
            pixel_type: self.pixel_type,
            is_linear: self.is_linear,
            reserved: self.reserved@,
            x_sampling: self.x_sampling,
            y_sampling: self.y_sampling,
        }
    }
}

impl Clone for Channel {
    fn clone(&self) -> (r: Channel)
        ensures
            r@ == self@,
    {
        Channel {
            name: self.name.clone(),
            pixel_type: self.pixel_type,
            is_linear: self.is_linear,
            reserved: self.reserved,
            x_sampling: self.x_sampling,
            y_sampling: self.y_sampling,
        }
    }
}

/// The channels that a list holds, in order.
pub uninterp spec fn channel_list_items(list: ChannelList) -> Seq<Channel>;

/// The channels of a layer, as its header lists them.
///
/// The channels are kept in a `SmallVec` of the `smallvec` crate, which
/// the verifier does not look into: `channel_list_items` names what it
/// holds, and the contracts of `from_vec` and `as_slice` are taken on trust.
#[verifier::external_body]
#[derive(Debug, PartialEq, Eq)]
pub struct ChannelList {
    list: SmallVec<[Channel; 5]>,
}

impl View for ChannelList {
    type V = Seq<ChannelView>;

    open spec fn view(&self) -> Seq<ChannelView> {
        Seq::new(channel_list_items(*self).len(), |i: int| channel_list_items(*self)[i]@)
    }
}

/// The views of the channels of a vector.
pub open spec fn channel_views(channels: Seq<Channel>) -> Seq<ChannelView> {
    Seq::new(channels.len(), |i: int| channels[i]@)
}

/// The bytes of the channel descriptions one after another.
pub open spec fn channels_bytes(list: Seq<ChannelView>) -> Seq<u8>
    decreases list.len(),
{
    if list.len() == 0 {
        Seq::empty()
    } else {
        channels_bytes(list.drop_last()) + list.last().bytes()
    }
}

/// The bytes of a channel list: the channels and a zero byte.
pub open spec fn channel_list_bytes(list: Seq<ChannelView>) -> Seq<u8> {
    channels_bytes(list).push(0u8)
}

/// The first thing that is wrong with the name of a channel of the list, if anything.
pub open spec fn validate_channels(list: Seq<ChannelView>, long_names: bool) -> Validity
    decreases list.len(),
{
    if list.len() == 0 {
        Ok(())
    } else {
        match validate_text(list[0].name, Some(long_names)) {
            Err(e) => Err(e),
            Ok(_) => validate_channels(list.skip(1), long_names),
        }
    }
}

/// A result with `head` put in front of the channels read.
pub open spec fn after_channels(head: Seq<ChannelView>, tail: Parsed<Seq<ChannelView>>) -> Parsed<
    Seq<ChannelView>,
> {
    match tail {
        Ok((channels, rest)) => Ok((head + channels, rest)),
        Err(e) => Err(e),
    }
}

/// Reading a channel list: channel after channel, up to a zero byte where a name would start.
pub open spec fn read_channel_list_spec(s: Seq<u8>) -> Parsed<Seq<ChannelView>>
    decreases s.len(),
{
    if s.len() == 0 {
        Err(Error::Io)
    } else if s[0] == 0 {
        Ok((Seq::empty(), s.skip(1)))
    } else {
        match ChannelView::read_spec(s) {
            Err(e) => Err(e),
            Ok((channel, rest)) => if rest.len() < s.len() {
                after_channels(seq![channel], read_channel_list_spec(rest))
            } else {
                Err(Error::Io)
            },
        }
    }
}

impl ChannelList {
    /// `SmallVec::from_vec`: a vector of the same channels in the same order.
    #[verifier::external_body]
    fn from_vec(channels: Vec<Channel>) -> (r: ChannelList)
        ensures
            channel_list_items(r) == channels@,
    {
        ChannelList { list: SmallVec::from_vec(channels) }
    }

    /// `SmallVec::as_slice`: the whole vector as a slice.
    #[verifier::external_body]
    pub(crate) fn as_slice(&self) -> (r: &[Channel])
        ensures
            r@ == channel_list_items(*self),
    {
        self.list.as_slice()
    }

    /// The list of the given channels, in the given order.
    pub fn new(channels: Vec<Channel>) -> (r: ChannelList)
        ensures
            r@ == channel_views(channels@),
    {
        let result = ChannelList::from_vec(channels);
        assert(result@ =~= channel_views(channels@));
        result
    }

    /// How many channels the list holds.
    pub fn len(&self) -> (r: usize)
        ensures
            r == self@.len(),
    {
        self.as_slice().len()
    }

    /// The channel at the given place.
    pub fn get(&self, index: usize) -> (r: Option<&Channel>)
        ensures
            index < self@.len() ==> r is Some && r->Some_0@ == self@[index as int],
            index >= self@.len() ==> r is None,
    {
        let channels = self.as_slice();
        if index < channels.len() {
            Some(&channels[index])
        } else {
            None
        }
    }
}

impl Clone for ChannelList {
    fn clone(&self) -> (r: ChannelList)
        ensures
            r@ == self@,
    {
        let channels = self.as_slice();
        let mut copies: Vec<Channel> = Vec::new();
        let mut index: usize = 0;
        while index < channels.len()
            invariant
                index <= channels@.len(),
                copies@.len() == index,
                forall|i: int| 0 <= i < index ==> copies@[i]@ == channels@[i]@,
            decreases channels@.len() - index,
        {
            copies.push(channels[index].clone());
            index = index + 1;
        }
        let result = ChannelList::from_vec(copies);
        assert(result@ =~= self@);
        result
    }
}

impl Channel {
    /// Says what is wrong with the name of the channel, if anything.
    pub fn validate(&self, long_names: bool) -> (r: Validity)
        ensures
            r == validate_text(self@.name, Some(long_names)),
    {
        self.name.validate(Some(long_names))
    }

    /// Appends the bytes of a channel description without looking at the name.
    fn write_unchecked(&self, write: &mut Vec<u8>)
        ensures
            final(write)@ == old(write)@ + self@.bytes(),
    {
        write_u8_array(write, self.name.as_slice());
        SequenceEnd::write(write);
        let _ = self.pixel_type.write(write);
        write_u8(
            write,
            if self.is_linear {
                1
            } else {
                0
            },
        );
        write_i8_array(write, self.reserved.as_slice());
        write_i32(write, self.x_sampling);
        write_i32(write, self.y_sampling);
        assert(write@ =~= old(write)@ + self@.bytes());
    }

    /// Appends the channel description, if its name is valid.
    pub fn write(&self, write: &mut Vec<u8>, long_names: bool) -> (r: WriteResult)
        ensures
            r == validate_text(self@.name, Some(long_names)),
            final(write)@ == if r is Ok {
                old(write)@ + self@.bytes()
            } else {
                old(write)@
            },
    {
        self.validate(long_names)?;
        self.write_unchecked(write);
        Ok(())
    }

    /// Reads a channel description.
    pub fn read(read: &mut ByteReader) -> (r: ReadResult<Channel>)
        ensures
            final(read).source() == old(read).source(),
            match ChannelView::read_spec(old(read).remaining()) {
                Ok((channel, rest)) => r is Ok && r->Ok_0@ == channel && final(read).remaining()
                    == rest,
                Err(e) => r == Err::<Channel, Error>(e),
            },
    {
        let name = Text::read_null_terminated(read)?;
        let ghost s = read.remaining();
        let pixel_type = PixelType::read(read)?;
        let is_linear = match read.read_u8()? {
            1 => true,
            0 => false,
            _ => return Err(
                Error::InvalidContent {
                    what: Value::Enum("pLinear"),
                    required: Required::Range { min: 0, max: 1 },
                },
            ),
        };
        let reserved_bytes = read.read_i8_vec(3)?;
        let reserved = [reserved_bytes[0], reserved_bytes[1], reserved_bytes[2]];
        let x_sampling = read.read_i32()?;
        let y_sampling = read.read_i32()?;
        proof {
            assert(s.skip(4).skip(1) =~= s.skip(5));
            assert(s.skip(5).take(3) =~= s.subrange(5, 8));
            assert(s.skip(5).skip(3) =~= s.skip(8));
            assert(s.skip(8).skip(4) =~= s.skip(12));
            assert(s.skip(12).skip(4) =~= s.skip(16));
            assert(reserved@ =~= i8_seq_from_bits(s.subrange(5, 8)));
        }
        Ok(Channel { name, pixel_type, is_linear, reserved, x_sampling, y_sampling })
    }

    /// Says what is wrong with the first channel that has an invalid name, if any has.
    pub fn validate_list(channels: &ChannelList, long_names: bool) -> (r: Validity)
        ensures
            r == validate_channels(channels@, long_names),
    {
        let list = channels.as_slice();
        let mut index: usize = 0;
        assert(channels@.skip(0) =~= channels@);
        while index < list.len()
            invariant
                index <= list@.len(),
                list@ == channel_list_items(*channels),
                validate_channels(channels@, long_names) == validate_channels(
                    channels@.skip(index as int),
                    long_names,
                ),
            decreases list@.len() - index,
        {
            proof {
                assert(channels@.skip(index as int)[0] == list@[index as int]@);
                assert(channels@.skip(index as int).skip(1) =~= channels@.skip(index + 1));
            }
            list[index].validate(long_names)?;
            index = index + 1;
        }
        Ok(())
    }

    /// Appends the channel list, if the names of its channels are valid.
    pub fn write_list(channels: &ChannelList, write: &mut Vec<u8>, long_names: bool) -> (r:
        WriteResult)
        ensures
            r == validate_channels(channels@, long_names),
            final(write)@ == if r is Ok {
                old(write)@ + channel_list_bytes(channels@)
            } else {
                old(write)@
            },
    {
        Channel::validate_list(channels, long_names)?;
        Channel::write_list_unchecked(channels, write);
        Ok(())
    }

    /// Appends the bytes of a channel list without looking at the names.
    fn write_list_unchecked(channels: &ChannelList, write: &mut Vec<u8>)
        ensures
            final(write)@ == old(write)@ + channel_list_bytes(channels@),
    {
        let list = channels.as_slice();
        let mut index: usize = 0;
        while index < list.len()
            invariant
                index <= list@.len(),
                list@ == channel_list_items(*channels),
                write@ == old(write)@ + channels_bytes(channels@.take(index as int)),
            decreases list@.len() - index,
        {
            list[index].write_unchecked(write);
            index = index + 1;
            proof {
                let taken = channels@.take(index as int);
                assert(taken.drop_last() =~= channels@.take(index - 1));
                assert(taken.last() == list@[index - 1]@);
                assert(write@ =~= old(write)@ + channels_bytes(taken));
            }
        }
        SequenceEnd::write(write);
        proof {
            assert(channels@.take(index as int) =~= channels@);
            assert(write@ =~= old(write)@ + channel_list_bytes(channels@));
        }
    }

    /// Reads a channel list.
    pub fn read_list(read: &mut ByteReader) -> (r: ReadResult<ChannelList>)
        ensures
            final(read).source() == old(read).source(),
            match read_channel_list_spec(old(read).remaining()) {
                Ok((channels, rest)) => r is Ok && r->Ok_0@ == channels
                    && final(read).remaining() == rest,
                Err(e) => r == Err::<ChannelList, Error>(e),
            },
    {
        let ghost start = old(read).remaining();
        let mut channels: Vec<Channel> = Vec::new();
        loop
            invariant
                start == old(read).remaining(),
                read.source() == old(read).source(),
                read_channel_list_spec(start) == after_channels(
                    channel_views(channels@),
                    read_channel_list_spec(read.remaining()),
                ),
            decreases read.remaining().len(),
        {
            let ghost here = read.remaining();
            let ghost before = channel_views(channels@);
            if SequenceEnd::has_come(read)? {
                let result = ChannelList::new(channels);
                proof {
                    assert(before + Seq::<ChannelView>::empty() =~= before);
                }
                return Ok(result);
            }
            let channel = Channel::read(read)?;
            proof {
                lemma_channel_read_consumes(here);
            }
            channels.push(channel);
            proof {
                assert(channel_views(channels@) =~= before + seq![channel@]);
                match read_channel_list_spec(read.remaining()) {
                    Ok((more, rest)) => {
                        assert(before + (seq![channel@] + more) =~= before + seq![channel@] + more);
                    },
                    Err(_) => {},
                }
            }
        }
    }
}

/// A channel description that was read took at least one byte.
pub proof fn lemma_channel_read_consumes(s: Seq<u8>)
    ensures
        ChannelView::read_spec(s) matches Ok((_, rest)) ==> rest.len() < s.len(),
{
}

/// The chromaticities of the primaries and of the white point, each
/// coordinate a floating-point number held as its bit pattern.
#[derive(Debug, Clone, Copy, PartialEq, Eq)]
pub struct Chromaticities {
    pub red_x: u32,
    pub red_y: u32,
    pub green_x: u32,
    pub green_y: u32,
    pub blue_x: u32,
    pub blue_y: u32,
    pub white_x: u32,
    pub white_y: u32,
}

impl Chromaticities {
    /// The 32 bytes of the chromaticities.
    pub open spec fn bytes(self) -> Seq<u8> {
        u32_le(self.red_x) + u32_le(self.red_y) + u32_le(self.green_x) + u32_le(self.green_y)
            + u32_le(self.blue_x) + u32_le(self.blue_y) + u32_le(self.white_x) + u32_le(
            self.white_y,
        )
    }

    /// Reading chromaticities.
    pub open spec fn read_spec(s: Seq<u8>) -> Parsed<Chromaticities> {
        if s.len() < 32 {
            Err(Error::Io)
        } else {
            Ok(
                (
                    Chromaticities {
                        red_x: u32_from_le(s),
                        red_y: u32_from_le(s.skip(4)),
                        green_x: u32_from_le(s.skip(8)),
                        green_y: u32_from_le(s.skip(12)),
                        blue_x: u32_from_le(s.skip(16)),
                        blue_y: u32_from_le(s.skip(20)),
                        white_x: u32_from_le(s.skip(24)),
                        white_y: u32_from_le(s.skip(28)),
                    },
                    s.skip(32),
                ),
            )
        }
    }

    /// Appends the chromaticities.
    pub fn write(&self, write: &mut Vec<u8>) -> (r: WriteResult)
        ensures
            r == Ok::<(), Error>(()),
            final(write)@ == old(write)@ + self.bytes(),
    {
        write_u32(write, self.red_x);
        write_u32(write, self.red_y);
        write_u32(write, self.green_x);
        write_u32(write, self.green_y);
        write_u32(write, self.blue_x);
        write_u32(write, self.blue_y);
        write_u32(write, self.white_x);
        write_u32(write, self.white_y);
        assert(write@ =~= old(write)@ + self.bytes());
        Ok(())
    }

    /// Reads chromaticities.
    pub fn read(read: &mut ByteReader) -> (r: ReadResult<Chromaticities>)
        ensures
            reads(*old(read), *final(read), r, Chromaticities::read_spec(old(read).remaining())),
    {
        let ghost s = old(read).remaining();
        let red_x = read.read_u32()?;
        let red_y = read.read_u32()?;
        let green_x = read.read_u32()?;
        let green_y = read.read_u32()?;
        proof {
            assert(s.skip(4).skip(4) =~= s.skip(8));
            assert(s.skip(8).skip(4) =~= s.skip(12));
            assert(s.skip(12).skip(4) =~= s.skip(16));
        }
        let blue_x = read.read_u32()?;
        let blue_y = read.read_u32()?;
        let white_x = read.read_u32()?;
        let white_y = read.read_u32()?;
        proof {
            assert(s.skip(16).skip(4) =~= s.skip(20));
            assert(s.skip(20).skip(4) =~= s.skip(24));
            assert(s.skip(24).skip(4) =~= s.skip(28));
            assert(s.skip(28).skip(4) =~= s.skip(32));
        }
        Ok(
            Chromaticities {
                red_x,
                red_y,
                green_x,
                green_y,
                blue_x,
                blue_y,
                white_x,
                white_y,
            },
        )
    }
}

impl Compression {
    /// The byte of the method.
    pub open spec fn bytes(self) -> Seq<u8> {
        seq![self.code()]
    }

    /// Reading a compression method.
    pub open spec fn read_spec(s: Seq<u8>) -> Parsed<Compression> {
        if s.len() < 1 {
            Err(Error::Io)
        } else {
            match Compression::from_code(s[0]) {
                Some(compression) => Ok((compression, s.skip(1))),
                None => Err(
                    Error::InvalidContent {
                        what: Value::Enum("compression"),
                        required: Required::Range { min: 0, max: 7 },
                    },
                ),
            }
        }
    }

    /// Appends the method.
    pub fn write(self, write: &mut Vec<u8>) -> (r: WriteResult)
        ensures
            r == Ok::<(), Error>(()),
            final(write)@ == old(write)@ + self.bytes(),
    {
        let code: u8 = match self {
            Compression::Uncompressed => 0,
            Compression::RLE => 1,
            Compression::ZIP1 => 2,
            Compression::ZIP16 => 3,
            Compression::PIZ => 4,
            Compression::PXR24 => 5,
            Compression::B44 => 6,
            Compression::B44A => 7,
        };
        write_u8(write, code);
        assert(write@ =~= old(write)@ + self.bytes());
        Ok(())
    }

    /// Reads a compression method.
    pub fn read(read: &mut ByteReader) -> (r: ReadResult<Compression>)
        ensures
            reads(*old(read), *final(read), r, Compression::read_spec(old(read).remaining())),
    {
        Ok(
            match read.read_u8()? {
                0 => Compression::Uncompressed,
                1 => Compression::RLE,
                2 => Compression::ZIP1,
                3 => Compression::ZIP16,
                4 => Compression::PIZ,
                5 => Compression::PXR24,
                6 => Compression::B44,
                7 => Compression::B44A,
                _ => return Err(
                    Error::InvalidContent {
                        what: Value::Enum("compression"),
                        required: Required::Range { min: 0, max: 7 },
                    },
                ),
            },
        )
    }
}

/// How an environment map is laid out.
#[derive(Debug, Clone, Copy, PartialEq, Eq)]
pub enum EnvironmentMap {
    LatitudeLongitude,
    Cube,
}

impl EnvironmentMap {
    /// The number that stands for the layout in a file.
    pub open spec fn code(self) -> u8 {
        match self {
            EnvironmentMap::LatitudeLongitude => 0,
            EnvironmentMap::Cube => 1,
        }
    }

    /// The layout that a number stands for, if any.
    pub open spec fn from_code(code: u8) -> Option<EnvironmentMap> {
        if code == 0 {
            Some(EnvironmentMap::LatitudeLongitude)
        } else if code == 1 {
            Some(EnvironmentMap::Cube)
        } else {
            None
        }
    }

    /// The byte of the layout.
    pub open spec fn bytes(self) -> Seq<u8> {
        seq![self.code()]
    }

    /// Reading the layout of an environment map.
    pub open spec fn read_spec(s: Seq<u8>) -> Parsed<EnvironmentMap> {
        if s.len() < 1 {
            Err(Error::Io)
        } else {
            match EnvironmentMap::from_code(s[0]) {
                Some(environment_map) => Ok((environment_map, s.skip(1))),
                None => Err(
                    Error::InvalidContent {
                        what: Value::Enum("envmap"),
                        required: Required::Range { min: 0, max: 1 },
                    },
                ),
            }
        }
    }

    /// Appends the layout.
    pub fn write(self, write: &mut Vec<u8>) -> (r: WriteResult)
        ensures
            r == Ok::<(), Error>(()),
            final(write)@ == old(write)@ + self.bytes(),
    {
        let code: u8 = match self {
            EnvironmentMap::LatitudeLongitude => 0,
            EnvironmentMap::Cube => 1,
        };
        write_u8(write, code);
        assert(write@ =~= old(write)@ + self.bytes());
        Ok(())
    }

    /// Reads the layout of an environment map.
    pub fn read(read: &mut ByteReader) -> (r: ReadResult<EnvironmentMap>)
        ensures
            reads(*old(read), *final(read), r, EnvironmentMap::read_spec(old(read).remaining())),
    {
        Ok(
            match read.read_u8()? {
                0 => EnvironmentMap::LatitudeLongitude,
                1 => EnvironmentMap::Cube,
                _ => return Err(
                    Error::InvalidContent {
                        what: Value::Enum("envmap"),
                        required: Required::Range { min: 0, max: 1 },
                    },
                ),
            },
        )
    }
}

/// Identifies a frame of motion picture film.
#[derive(Debug, Clone, Copy, PartialEq, Eq)]
pub struct KeyCode {
    pub film_manufacturer_code: i32,
    pub film_type: i32,
    pub film_roll_prefix: i32,
    pub count: i32,
    pub perforation_offset: i32,
    pub perforations_per_frame: i32,
    pub perforations_per_count: i32,
}

impl KeyCode {
    /// The 28 bytes of the key code.
    pub open spec fn bytes(self) -> Seq<u8> {
        i32_le(self.film_manufacturer_code) + i32_le(self.film_type) + i32_le(
            self.film_roll_prefix,
        ) + i32_le(self.count) + i32_le(self.perforation_offset) + i32_le(
            self.perforations_per_frame,
        ) + i32_le(self.perforations_per_count)
    }

    /// Reading a key code.
    pub open spec fn read_spec(s: Seq<u8>) -> Parsed<KeyCode> {
        if s.len() < 28 {
            Err(Error::Io)
        } else {
            Ok(
                (
                    KeyCode {
                        film_manufacturer_code: i32_from_le(s),
                        film_type: i32_from_le(s.skip(4)),
                        film_roll_prefix: i32_from_le(s.skip(8)),
                        count: i32_from_le(s.skip(12)),
                        perforation_offset: i32_from_le(s.skip(16)),
                        perforations_per_frame: i32_from_le(s.skip(20)),
                        perforations_per_count: i32_from_le(s.skip(24)),
                    },
                    s.skip(28),
                ),
            )
        }
    }

    /// Appends the key code.
    pub fn write(&self, write: &mut Vec<u8>) -> (r: WriteResult)
        ensures
            r == Ok::<(), Error>(()),
            final(write)@ == old(write)@ + self.bytes(),
    {
        write_i32(write, self.film_manufacturer_code);
        write_i32(write, self.film_type);
        write_i32(write, self.film_roll_prefix);
        write_i32(write, self.count);
        write_i32(write, self.perforation_offset);
        write_i32(write, self.perforations_per_frame);
        write_i32(write, self.perforations_per_count);
        assert(write@ =~= old(write)@ + self.bytes());
        Ok(())
    }

    /// Reads a key code.
    pub fn read(read: &mut ByteReader) -> (r: ReadResult<KeyCode>)
        ensures
            reads(*old(read), *final(read), r, KeyCode::read_spec(old(read).remaining())),
    {
        let ghost s = old(read).remaining();
        let film_manufacturer_code = read.read_i32()?;
        let film_type = read.read_i32()?;
        let film_roll_prefix = read.read_i32()?;
        let count = read.read_i32()?;
        proof {
            assert(s.skip(4).skip(4) =~= s.skip(8));
            assert(s.skip(8).skip(4) =~= s.skip(12));
            assert(s.skip(12).skip(4) =~= s.skip(16));
        }
        let perforation_offset = read.read_i32()?;
        let perforations_per_frame = read.read_i32()?;
        let perforations_per_count = read.read_i32()?;
        proof {
            assert(s.skip(16).skip(4) =~= s.skip(20));
            assert(s.skip(20).skip(4) =~= s.skip(24));
            assert(s.skip(24).skip(4) =~= s.skip(28));
        }
        Ok(
            KeyCode {
                film_manufacturer_code,
                film_type,
                film_roll_prefix,
                count,
                perforation_offset,
                perforations_per_frame,
                perforations_per_count,
            },
        )
    }
}

/// The order in which the blocks of a layer stand in the file.
#[derive(Debug, Clone, Copy, PartialEq, Eq)]
pub enum LineOrder {
    /// From the top down.
    IncreasingY,
    /// From the bottom up.
    DecreasingY,
    /// In no order that is known.
    RandomY,
}

impl LineOrder {
    /// The number that stands for the order in a file.
    pub open spec fn code(self) -> u8 {
        match self {
            LineOrder::IncreasingY => 0,
            LineOrder::DecreasingY => 1,
            LineOrder::RandomY => 2,
        }
    }

    /// The order that a number stands for, if any.
    pub open spec fn from_code(code: u8) -> Option<LineOrder> {
        if code == 0 {
            Some(LineOrder::IncreasingY)
        } else if code == 1 {
            Some(LineOrder::DecreasingY)
        } else if code == 2 {
            Some(LineOrder::RandomY)
        } else {
            None
        }
    }

    /// The byte of the order.
    pub open spec fn bytes(self) -> Seq<u8> {
        seq![self.code()]
    }

    /// Reading a line order.
    pub open spec fn read_spec(s: Seq<u8>) -> Parsed<LineOrder> {
        if s.len() < 1 {
            Err(Error::Io)
        } else {
            match LineOrder::from_code(s[0]) {
                Some(line_order) => Ok((line_order, s.skip(1))),
                None => Err(
                    Error::InvalidContent {
                        what: Value::Enum("lineOrder"),
                        required: Required::Range { min: 0, max: 2 },
                    },
                ),
            }
        }
    }

    /// Appends the order.
    pub fn write(self, write: &mut Vec<u8>) -> (r: WriteResult)
        ensures
            r == Ok::<(), Error>(()),
            final(write)@ == old(write)@ + self.bytes(),
    {
        let code: u8 = match self {
            LineOrder::IncreasingY => 0,
            LineOrder::DecreasingY => 1,
            LineOrder::RandomY => 2,
        };
        write_u8(write, code);
        assert(write@ =~= old(write)@ + self.bytes());
        Ok(())
    }

    /// Reads a line order.
    pub fn read(read: &mut ByteReader) -> (r: ReadResult<LineOrder>)
        ensures
            reads(*old(read), *final(read), r, LineOrder::read_spec(old(read).remaining())),
    {
        Ok(
            match read.read_u8()? {
                0 => LineOrder::IncreasingY,
                1 => LineOrder::DecreasingY,
                2 => LineOrder::RandomY,
                _ => return Err(
                    Error::InvalidContent {
                        what: Value::Enum("lineOrder"),
                        required: Required::Range { min: 0, max: 2 },
                    },
                ),
            },
        )
    }
}

/// The product of two 32-bit numbers.
fn product(left: u32, right: u32) -> (r: u64)
    ensures
        r == left * right,
{
    assert(left * right <= 0xFFFF_FFFF * 0xFFFF_FFFF) by (nonlinear_arith)
        requires
            0 <= left <= 0xFFFF_FFFF,
            0 <= right <= 0xFFFF_FFFF,
    ;
    left as u64 * right as u64
}

/// A small picture of the image: rows from the top down, pixels from
/// the left to the right, and for each pixel a red, a green, a blue and
/// an alpha byte.
#[derive(Debug, PartialEq, Eq)]
pub struct Preview {
    pub width: u32,
    pub height: u32,
    /// Four bytes for each pixel.
    pub pixel_data: Vec<i8>,
}

/// What a preview holds.
pub struct PreviewView {
    pub width: u32,
    pub height: u32,
    pub pixel_data: Seq<i8>,
}

impl PreviewView {
    /// Whether there are four bytes for each pixel.
    pub open spec fn is_valid(self) -> bool {
        self.pixel_data.len() == 4 * (self.width * self.height)
    }

    /// What is wrong with the preview, if anything.
    pub open spec fn validate(self) -> Validity {
        if self.is_valid() {
            Ok(())
        } else {
            Err(
                Error::InvalidContent {
                    what: Value::Attribute("preview"),
                    required: Required::Exact("4 * width * height bytes"),
                },
            )
        }
    }

    /// The bytes of the preview: its width, its height and its pixels.
    pub open spec fn bytes(self) -> Seq<u8> {
        u32_le(self.width) + u32_le(self.height) + i8_seq_bits(self.pixel_data)
    }

    /// Reading a preview.
    pub open spec fn read_spec(s: Seq<u8>) -> Parsed<PreviewView> {
        if s.len() < 8 {
            Err(Error::Io)
        } else {
            let width = u32_from_le(s);
            let height = u32_from_le(s.skip(4));
            read_preview_pixels_spec(width, height, s.skip(8))
        }
    }
}

/// Reading the pixels of a preview of the given width and height.
pub open spec fn read_preview_pixels_spec(width: u32, height: u32, s: Seq<u8>) -> Parsed<
    PreviewView,
> {
    let count = 4 * (width * height);
    if s.len() < count {
        Err(Error::Io)
    } else {
        Ok((PreviewView { width, height, pixel_data: i8_seq_from_bits(s.take(count)) }, s.skip(count)))
    }
}

impl View for Preview {
    type V = PreviewView;

    open spec fn view(&self) -> PreviewView {
        PreviewView { width: self.width, height: self.height, pixel_data: self.pixel_data@ }
    }
}

impl Clone for Preview {
    fn clone(&self) -> (r: Preview)
        ensures
            r@ == self@,
    {
        let mut pixel_data: Vec<i8> = Vec::new();
        let mut index: usize = 0;
        while index < self.pixel_data.len()
            invariant
                index <= self.pixel_data@.len(),
                pixel_data@ == self.pixel_data@.take(index as int),
            decreases self.pixel_data@.len() - index,
        {
            pixel_data.push(self.pixel_data[index]);
            index = index + 1;
            assert(pixel_data@ =~= self.pixel_data@.take(index as int));
        }
        assert(pixel_data@ =~= self.pixel_data@);
        Preview { width: self.width, height: self.height, pixel_data }
    }
}

impl Preview {
    /// Says whether the preview has four bytes for each pixel.
    pub fn validate(&self) -> (r: Validity)
        ensures
            r == self@.validate(),
    {
        let pixels = product(self.width, self.height);
        if self.pixel_data.len() % 4 == 0 && ((self.pixel_data.len() / 4) as u64) == pixels {
            Ok(())
        } else {
            Err(
                Error::InvalidContent {
                    what: Value::Attribute("preview"),
                    required: Required::Exact("4 * width * height bytes"),
                },
            )
        }
    }

    /// Appends the bytes of the preview without looking at its size.
    fn write_unchecked(&self, write: &mut Vec<u8>)
        ensures
            final(write)@ == old(write)@ + self@.bytes(),
    {
        write_u32(write, self.width);
        write_u32(write, self.height);
        write_i8_array(write, self.pixel_data.as_slice());
        assert(write@ =~= old(write)@ + self@.bytes());
    }

    /// Appends the preview, if it has four bytes for each pixel.
    pub fn write(&self, write: &mut Vec<u8>) -> (r: WriteResult)
        ensures
            r == self@.validate(),
            final(write)@ == if r is Ok {
                old(write)@ + self@.bytes()
            } else {
                old(write)@
            },
    {
        self.validate()?;
        self.write_unchecked(write);
        Ok(())
    }

    /// Reads a preview. No more is allocated for its pixels than the input holds.
    pub fn read(read: &mut ByteReader) -> (r: ReadResult<Preview>)
        ensures
            final(read).source() == old(read).source(),
            match PreviewView::read_spec(old(read).remaining()) {
                Ok((preview, rest)) => r is Ok && r->Ok_0@ == preview && final(read).remaining()
                    == rest,
                Err(e) => r == Err::<Preview, Error>(e),
            },
    {
        let ghost s = old(read).remaining();
        let width = read.read_u32()?;
        let height = read.read_u32()?;
        proof {
            assert(s.skip(4).skip(4) =~= s.skip(8));
        }
        let pixels = product(width, height);
        let available = read.remaining_len();
        if ((available / 4) as u64) < pixels {
            return Err(Error::Io);
        }
        let count = (pixels as usize) * 4;
        let pixel_data = read.read_i8_vec(count)?;
        Ok(Preview { width, height, pixel_data })
    }
}

/// Whether a layer has its image in smaller sizes too.
#[derive(Debug, Clone, Copy, PartialEq, Eq)]
pub enum LevelMode {
    /// The image in its full size only.
    One,
    /// The image halved along both axes at once, again and again.
    MipMap,
    /// The image halved along each axis on its own, again and again.
    RipMap,
}

/// Which way the size of a smaller level is rounded.
#[derive(Debug, Clone, Copy, PartialEq, Eq)]
pub enum RoundingMode {
    Down,
    Up,
}

/// How a layer is divided into tiles, and which levels it has.
#[derive(Debug, Clone, Copy, PartialEq, Eq)]
pub struct TileDescription {
    pub x_size: u32,
    pub y_size: u32,
    pub level_mode: LevelMode,
    pub rounding_mode: RoundingMode,
}

impl LevelMode {
    /// The number that stands for the mode in a file.
    pub open spec fn code(self) -> u8 {
        match self {
            LevelMode::One => 0,
            LevelMode::MipMap => 1,
            LevelMode::RipMap => 2,
        }
    }

    /// The mode that a number stands for, if any.
    pub open spec fn from_code(code: u8) -> Option<LevelMode> {
        if code == 0 {
            Some(LevelMode::One)
        } else if code == 1 {
            Some(LevelMode::MipMap)
        } else if code == 2 {
            Some(LevelMode::RipMap)
        } else {
            None
        }
    }
}

impl RoundingMode {
    /// The number that stands for the mode in a file.
    pub open spec fn code(self) -> u8 {
        match self {
            RoundingMode::Down => 0,
            RoundingMode::Up => 1,
        }
    }

    /// The mode that a number stands for, if any.
    pub open spec fn from_code(code: u8) -> Option<RoundingMode> {
        if code == 0 {
            Some(RoundingMode::Down)
        } else if code == 1 {
            Some(RoundingMode::Up)
        } else {
            None
        }
    }

    /// The quotient, rounded down or up to a whole number.
    pub open spec fn spec_divide(self, dividend: nat, divisor: nat) -> nat
        recommends
            divisor > 0,
    {
        match self {
            RoundingMode::Down => dividend / divisor,
            RoundingMode::Up => if dividend % divisor == 0 {
                dividend / divisor
            } else {
                dividend / divisor + 1
            },
        }
    }

    /// Rounding down gives the largest whole number that is not above the
    /// quotient, rounding up the smallest that is not below it.
    pub proof fn lemma_divide_rounds(dividend: nat, divisor: nat)
        requires
            divisor > 0,
        ensures
            RoundingMode::Down.spec_divide(dividend, divisor) * divisor <= dividend,
            dividend < (RoundingMode::Down.spec_divide(dividend, divisor) + 1) * divisor,
            RoundingMode::Up.spec_divide(dividend, divisor) * divisor >= dividend,
            dividend > (RoundingMode::Up.spec_divide(dividend, divisor) - 1) * divisor,
    {
        let q = dividend / divisor;
        let m = dividend % divisor;
        assert(dividend == divisor * q + m) by {
            vstd::arithmetic::div_mod::lemma_fundamental_div_mod(dividend as int, divisor as int);
        }
        assert(0 <= m < divisor);
        assert(q * divisor == divisor * q) by (nonlinear_arith);
        assert((q + 1) * divisor == divisor * q + divisor) by (nonlinear_arith);
        assert((q - 1) * divisor == divisor * q - divisor) by (nonlinear_arith);
    }

    /// The quotient, rounded down or up to a whole number.
    pub fn divide(self, dividend: u32, divisor: u32) -> (r: u32)
        requires
            divisor != 0,
        ensures
            r == self.spec_divide(dividend as nat, divisor as nat),
    {
        let result = dividend / divisor;
        let remainder = dividend % divisor;
        match self {
            RoundingMode::Up => {
                if remainder != 0 {
                    assert(result < u32::MAX) by (nonlinear_arith)
                        requires
                            result == dividend / divisor,
                            dividend % divisor != 0,
                            divisor != 0,
                            dividend <= u32::MAX,
                    {
                        if divisor == 1 {
                            assert(dividend % 1 == 0);
                        } else {
                            assert(dividend / divisor <= dividend / 2);
                        }
                    }
                    result + 1
                } else {
                    result
                }
            },
            RoundingMode::Down => result,
        }
    }
}

impl TileDescription {
    /// The byte that holds both modes.
    pub open spec fn mode_byte(self) -> u8 {
        (self.level_mode.code() + 16 * self.rounding_mode.code()) as u8
    }

    /// The nine bytes of the description.
    pub open spec fn bytes(self) -> Seq<u8> {
        u32_le(self.x_size) + u32_le(self.y_size) + seq![self.mode_byte()]
    }

    /// Reading a tile description.
    pub open spec fn read_spec(s: Seq<u8>) -> Parsed<TileDescription> {
        if s.len() < 9 {
            Err(Error::Io)
        } else {
            match LevelMode::from_code(s[8] % 16) {
                None => Err(
                    Error::InvalidContent {
                        what: Value::Enum("level mode"),
                        required: Required::Range { min: 0, max: 2 },
                    },
                ),
                Some(level_mode) => match RoundingMode::from_code(s[8] / 16) {
                    None => Err(
                        Error::InvalidContent {
                            what: Value::Enum("rounding mode"),
                            required: Required::Range { min: 0, max: 1 },
                        },
                    ),
                    Some(rounding_mode) => Ok(
                        (
                            TileDescription {
                                x_size: u32_from_le(s),
                                y_size: u32_from_le(s.skip(4)),
                                level_mode,
                                rounding_mode,
                            },
                            s.skip(9),
                        ),
                    ),
                },
            }
        }
    }

    /// The width and the height of a tile.
    pub fn dimensions(&self) -> (r: (u32, u32))
        ensures
            r == (self.x_size, self.y_size),
    {
        (self.x_size, self.y_size)
    }

    /// Appends the description.
    pub fn write(&self, write: &mut Vec<u8>) -> (r: WriteResult)
        ensures
            r == Ok::<(), Error>(()),
            final(write)@ == old(write)@ + self.bytes(),
    {
        write_u32(write, self.x_size);
        write_u32(write, self.y_size);
        let level_mode: u8 = match self.level_mode {
            LevelMode::One => 0,
            LevelMode::MipMap => 1,
            LevelMode::RipMap => 2,
        };
        let rounding_mode: u8 = match self.rounding_mode {
            RoundingMode::Down => 0,
            RoundingMode::Up => 1,
        };
        let mode: u8 = level_mode + (rounding_mode * 16);
        write_u8(write, mode);
        assert(write@ =~= old(write)@ + self.bytes());
        Ok(())
    }

    /// Reads a tile description.
    pub fn read(read: &mut ByteReader) -> (r: ReadResult<TileDescription>)
        ensures
            reads(*old(read), *final(read), r, TileDescription::read_spec(old(read).remaining())),
    {
        let ghost s = old(read).remaining();
        let x_size = read.read_u32()?;
        let y_size = read.read_u32()?;
        let mode = read.read_u8()?;
        proof {
            assert(s.skip(4).skip(4) =~= s.skip(8));
            assert(s.skip(8).skip(1) =~= s.skip(9));
        }
        let level_mode = match mode % 16 {
            0 => LevelMode::One,
            1 => LevelMode::MipMap,
            2 => LevelMode::RipMap,
            _ => return Err(
                Error::InvalidContent {
                    what: Value::Enum("level mode"),
                    required: Required::Range { min: 0, max: 2 },
                },
            ),
        };
        let rounding_mode = match mode / 16 {
            0 => RoundingMode::Down,
            1 => RoundingMode::Up,
            _ => return Err(
                Error::InvalidContent {
                    what: Value::Enum("rounding mode"),
                    required: Required::Range { min: 0, max: 1 },
                },
            ),
        };
        Ok(TileDescription { x_size, y_size, level_mode, rounding_mode })
    }
}

/// The texts of a vector of texts.
pub open spec fn text_views(texts: Seq<Text>) -> Seq<Seq<u8>> {
    Seq::new(texts.len(), |i: int| texts[i]@)
}

/// The bytes of the texts one after another, each with its size in front.
pub open spec fn text_vector_bytes(texts: Seq<Seq<u8>>) -> Seq<u8>
    decreases texts.len(),
{
    if texts.len() == 0 {
        Seq::empty()
    } else {
        text_vector_bytes(texts.drop_last()) + i32_sized_bytes(texts.last())
    }
}

/// The first thing that is wrong with a text of the vector, if anything.
pub open spec fn validate_texts(texts: Seq<Seq<u8>>) -> Validity
    decreases texts.len(),
{
    if texts.len() == 0 {
        Ok(())
    } else {
        match validate_i32_sized(texts[0], None) {
            Err(e) => Err(e),
            Ok(_) => validate_texts(texts.skip(1)),
        }
    }
}

/// A result with `head` put in front of the texts read.
pub open spec fn after_texts(head: Seq<Seq<u8>>, tail: Parsed<Seq<Seq<u8>>>) -> Parsed<
    Seq<Seq<u8>>,
> {
    match tail {
        Ok((texts, rest)) => Ok((head + texts, rest)),
        Err(e) => Err(e),
    }
}

/// The error for texts whose sizes do not add up to the size of their attribute.
pub open spec fn text_sizes_error() -> Error {
    Error::InvalidContent {
        what: Value::Attribute("stringvector"),
        required: Required::Exact("text sizes that add up to the attribute size"),
    }
}

/// Reading texts, each with its size in front, that take `size` bytes together.
pub open spec fn read_text_vector_spec(s: Seq<u8>, size: nat) -> Parsed<Seq<Seq<u8>>>
    decreases size,
{
    if size == 0 {
        Ok((Seq::empty(), s))
    } else {
        match read_i32_sized_spec(s) {
            Err(e) => Err(e),
            Ok((text, rest)) => if 4 + text.len() > size {
                Err(text_sizes_error())
            } else {
                after_texts(
                    seq![text],
                    read_text_vector_spec(rest, (size - 4 - text.len()) as nat),
                )
            },
        }
    }
}

impl Text {
    /// Reads texts, each with its size in front, that take
    /// `attribute_value_byte_size` bytes together.
    pub fn read_vec_of_i32_sized(read: &mut ByteReader, attribute_value_byte_size: u32) -> (r:
        ReadResult<Vec<Text>>)
        ensures
            final(read).source() == old(read).source(),
            match read_text_vector_spec(
                old(read).remaining(),
                attribute_value_byte_size as nat,
            ) {
                Ok((texts, rest)) => r is Ok && text_views(r->Ok_0@) == texts
                    && final(read).remaining() == rest,
                Err(e) => r == Err::<Vec<Text>, Error>(e),
            },
    {
        let ghost start = old(read).remaining();
        let mut result: Vec<Text> = Vec::new();
        let mut left: u32 = attribute_value_byte_size;
        while left > 0
            invariant
                start == old(read).remaining(),
                read.source() == old(read).source(),
                read_text_vector_spec(start, attribute_value_byte_size as nat) == after_texts(
                    text_views(result@),
                    read_text_vector_spec(read.remaining(), left as nat),
                ),
            decreases left,
        {
            let ghost before = text_views(result@);
            let text = Text::read_i32_sized(read)?;
            let length = text.len();
            if left < 4 || length > (left - 4) as usize {
                return Err(
                    Error::InvalidContent {
                        what: Value::Attribute("stringvector"),
                        required: Required::Exact("text sizes that add up to the attribute size"),
                    },
                );
            }
            left = left - 4 - length as u32;
            result.push(text);
            proof {
                assert(text_views(result@) =~= before + seq![text@]);
                match read_text_vector_spec(read.remaining(), left as nat) {
                    Ok((more, rest)) => {
                        assert(before + (seq![text@] + more) =~= before + seq![text@] + more);
                    },
                    Err(_) => {},
                }
            }
        }
        proof {
            assert(text_views(result@) + Seq::<Seq<u8>>::empty() =~= text_views(result@));
        }
        Ok(result)
    }

    /// Says what is wrong with the first text that is not valid, if any is not.
    fn validate_vec_of_i32_sized_texts(texts: &[Text]) -> (r: Validity)
        ensures
            r == validate_texts(text_views(texts@)),
    {
        let ghost views = text_views(texts@);
        let mut index: usize = 0;
        assert(views.skip(0) =~= views);
        while index < texts.len()
            invariant
                index <= texts@.len(),
                views == text_views(texts@),
                validate_texts(views) == validate_texts(views.skip(index as int)),
            decreases texts@.len() - index,
        {
            proof {
                assert(views.skip(index as int)[0] == texts@[index as int]@);
                assert(views.skip(index as int).skip(1) =~= views.skip(index + 1));
            }
            if texts[index].len() > i32::MAX as usize {
                return Err(Error::InvalidSize);
            }
            texts[index].validate(None)?;
            index = index + 1;
        }
        Ok(())
    }

    /// Appends the texts, each with its size in front, without looking at them.
    fn write_vec_of_i32_sized_texts_unchecked(write: &mut Vec<u8>, texts: &[Text])
        ensures
            final(write)@ == old(write)@ + text_vector_bytes(text_views(texts@)),
    {
        let ghost views = text_views(texts@);
        let mut index: usize = 0;
        while index < texts.len()
            invariant
                index <= texts@.len(),
                views == text_views(texts@),
                write@ == old(write)@ + text_vector_bytes(views.take(index as int)),
            decreases texts@.len() - index,
        {
            let bytes = texts[index].as_slice();
            write_i32(write, bytes.len() as i32);
            write_u8_array(write, bytes);
            index = index + 1;
            proof {
                let taken = views.take(index as int);
                assert(taken.drop_last() =~= views.take(index - 1));
                assert(taken.last() == texts@[index - 1]@);
                assert(write@ =~= old(write)@ + text_vector_bytes(taken));
            }
        }
        proof {
            assert(views.take(index as int) =~= views);
        }
    }

    /// Appends the texts, each with its size in front, if all of them
    /// are valid. No length is too much for such a text.
    pub fn write_vec_of_i32_sized_texts(write: &mut Vec<u8>, texts: &[Text]) -> (r: WriteResult)
        ensures
            r == validate_texts(text_views(texts@)),
            final(write)@ == if r is Ok {
                old(write)@ + text_vector_bytes(text_views(texts@))
            } else {
                old(write)@
            },
    {
        Text::validate_vec_of_i32_sized_texts(texts)?;
        Text::write_vec_of_i32_sized_texts_unchecked(write, texts);
        Ok(())
    }
}

/// The value of an attribute.
#[derive(Debug, PartialEq, Eq)]
pub enum AttributeValue {
    I32Box2(I32Box2),
    F32Box2(F32Box2),
    ChannelList(ChannelList),
    Chromaticities(Chromaticities),
    Compression(Compression),
    /// A 64-bit floating-point number, as its bit pattern.
    F64(u64),
    EnvironmentMap(EnvironmentMap),
    /// A 32-bit floating-point number, as its bit pattern.
    F32(u32),
    I32(i32),
    KeyCode(KeyCode),
    LineOrder(LineOrder),
    /// Nine 32-bit floating-point numbers, as their bit patterns.
    F32Matrix3x3([u32; 9]),
    /// Sixteen 32-bit floating-point numbers, as their bit patterns.
    F32Matrix4x4([u32; 16]),
    Preview(Preview),
    Rational(i32, u32),
    /// A text of any length. Its size in a file is the size of the attribute.
    Text(ParsedText),
    /// Texts, each with its size in front. How many there are follows from
    /// the size of the attribute.
    TextVector(Vec<Text>),
    TileDescription(TileDescription),
    TimeCode(u32, u32),
    I32Vec2(i32, i32),
    F32Vec2(u32, u32),
    I32Vec3(i32, i32, i32),
    F32Vec3(u32, u32, u32),
}

/// What the value of an attribute holds.
pub enum AttributeValueView {
    I32Box2(I32Box2),
    F32Box2(F32Box2),
    ChannelList(Seq<ChannelView>),
    Chromaticities(Chromaticities),
    Compression(Compression),
    F64(u64),
    EnvironmentMap(EnvironmentMap),
    F32(u32),
    I32(i32),
    KeyCode(KeyCode),
    LineOrder(LineOrder),
    F32Matrix3x3(Seq<u32>),
    F32Matrix4x4(Seq<u32>),
    Preview(PreviewView),
    Rational(i32, u32),
    Text(Seq<u8>),
    TextVector(Seq<Seq<u8>>),
    TileDescription(TileDescription),
    TimeCode(u32, u32),
    I32Vec2(i32, i32),
    F32Vec2(u32, u32),
    I32Vec3(i32, i32, i32),
    F32Vec3(u32, u32, u32),
}

impl View for AttributeValue {
    type V = AttributeValueView;

    open spec fn view(&self) -> AttributeValueView {
        match self {
            AttributeValue::I32Box2(value) => AttributeValueView::I32Box2(*value),
            AttributeValue::F32Box2(value) => AttributeValueView::F32Box2(*value),
            AttributeValue::ChannelList(value) => AttributeValueView::ChannelList(value@),
            AttributeValue::Chromaticities(value) => AttributeValueView::Chromaticities(*value),
            AttributeValue::Compression(value) => AttributeValueView::Compression(*value),
            AttributeValue::F64(value) => AttributeValueView::F64(*value),
            AttributeValue::EnvironmentMap(value) => AttributeValueView::EnvironmentMap(*value),
            AttributeValue::F32(value) => AttributeValueView::F32(*value),
            AttributeValue::I32(value) => AttributeValueView::I32(*value),
            AttributeValue::KeyCode(value) => AttributeValueView::KeyCode(*value),
            AttributeValue::LineOrder(value) => AttributeValueView::LineOrder(*value),
            AttributeValue::F32Matrix3x3(value) => AttributeValueView::F32Matrix3x3(value@),
            AttributeValue::F32Matrix4x4(value) => AttributeValueView::F32Matrix4x4(value@),
            AttributeValue::Preview(value) => AttributeValueView::Preview(value@),
            AttributeValue::Rational(a, b) => AttributeValueView::Rational(*a, *b),
            AttributeValue::Text(value) => AttributeValueView::Text(value@),
            AttributeValue::TextVector(value) => AttributeValueView::TextVector(
                text_views(value@),
            ),
            AttributeValue::TileDescription(value) => AttributeValueView::TileDescription(*value),
            AttributeValue::TimeCode(a, b) => AttributeValueView::TimeCode(*a, *b),
            AttributeValue::I32Vec2(x, y) => AttributeValueView::I32Vec2(*x, *y),
            AttributeValue::F32Vec2(x, y) => AttributeValueView::F32Vec2(*x, *y),
            AttributeValue::I32Vec3(x, y, z) => AttributeValueView::I32Vec3(*x, *y, *z),
            AttributeValue::F32Vec3(x, y, z) => AttributeValueView::F32Vec3(*x, *y, *z),
        }
    }
}

/// The error for a value that does not take as many bytes as its attribute says.
pub open spec fn value_size_error() -> Error {
    Error::InvalidContent {
        what: Value::Attribute("size"),
        required: Required::Exact("the byte size of the value"),
    }
}

/// A value that was read counts only if it took exactly `size` bytes of `s`.
pub open spec fn of_size<T>(size: u32, s: Seq<u8>, value: Parsed<T>) -> Parsed<T> {
    match value {
        Err(e) => Err(e),
        Ok((v, rest)) => if s.len() - rest.len() == size {
            Ok((v, rest))
        } else {
            Err(value_size_error())
        },
    }
}

/// The result of a read with the value that was read made into another.
pub open spec fn map_parsed<A, B>(value: Parsed<A>, f: spec_fn(A) -> B) -> Parsed<B> {
    match value {
        Err(e) => Err(e),
        Ok((v, rest)) => Ok((f(v), rest)),
    }
}

/// Reading two 32-bit numbers.
pub open spec fn read_u32_pair_spec(s: Seq<u8>) -> Parsed<(u32, u32)> {
    if s.len() < 8 {
        Err(Error::Io)
    } else {
        Ok(((u32_from_le(s), u32_from_le(s.skip(4))), s.skip(8)))
    }
}

/// Reading three 32-bit numbers.
pub open spec fn read_u32_triple_spec(s: Seq<u8>) -> Parsed<(u32, u32, u32)> {
    if s.len() < 12 {
        Err(Error::Io)
    } else {
        Ok(((u32_from_le(s), u32_from_le(s.skip(4)), u32_from_le(s.skip(8))), s.skip(12)))
    }
}

fn read_u32_pair(read: &mut ByteReader) -> (r: ReadResult<(u32, u32)>)
    ensures
        reads(*old(read), *final(read), r, read_u32_pair_spec(old(read).remaining())),
{
    let ghost s = old(read).remaining();
    let first = read.read_u32()?;
    let second = read.read_u32()?;
    proof {
        assert(s.skip(4).skip(4) =~= s.skip(8));
    }
    Ok((first, second))
}

fn read_u32_triple(read: &mut ByteReader) -> (r: ReadResult<(u32, u32, u32)>)
    ensures
        reads(*old(read), *final(read), r, read_u32_triple_spec(old(read).remaining())),
{
    let ghost s = old(read).remaining();
    let first = read.read_u32()?;
    let second = read.read_u32()?;
    let third = read.read_u32()?;
    proof {
        assert(s.skip(4).skip(4) =~= s.skip(8));
        assert(s.skip(8).skip(4) =~= s.skip(12));
    }
    Ok((first, second, third))
}

/// The signed number with the given bit pattern.
fn signed(bits: u32) -> (r: i32)
    ensures
        r == i32_from_bits(bits),
{
    if bits < 0x8000_0000 {
        bits as i32
    } else {
        (bits as i64 - 0x1_0000_0000) as i32
    }
}

/// Whether the text is the given name.
fn is_name(text: &Text, name: &str) -> (r: bool)
    requires
        vstd::string::is_ascii(name),
    ensures
        r == (text@ == ascii(name)),
{
    bytes_equal(text.as_slice(), ascii_bytes(name))
}

impl AttributeValueView {
    /// Whether the value has the shape that its type asks for: nine or
    /// sixteen numbers in a matrix, three reserved bytes in each channel.
    pub open spec fn wf(self) -> bool {
        match self {
            AttributeValueView::F32Matrix3x3(value) => value.len() == 9,
            AttributeValueView::F32Matrix4x4(value) => value.len() == 16,
            AttributeValueView::ChannelList(channels) => forall|i: int|
                0 <= i < channels.len() ==> (#[trigger] channels[i]).wf(),
            _ => true,
        }
    }

    /// Whether each text of the value that stands in a file with its size
    /// is short enough to be read again.
    pub open spec fn within_limits(self) -> bool {
        match self {
            AttributeValueView::Text(value) => value.len() <= SIZED_TEXT_LIMIT,
            AttributeValueView::TextVector(texts) => forall|i: int|
                0 <= i < texts.len() ==> (#[trigger] texts[i]).len() <= SIZED_TEXT_LIMIT,
            _ => true,
        }
    }

    /// The name of the type of the value, as it stands in a file.
    pub open spec fn kind_name(self) -> Seq<u8> {
        match self {
            AttributeValueView::I32Box2(_) => ascii("box2i"),
            AttributeValueView::F32Box2(_) => ascii("box2f"),
            AttributeValueView::I32(_) => ascii("int"),
            AttributeValueView::F32(_) => ascii("float"),
            AttributeValueView::F64(_) => ascii("double"),
            AttributeValueView::Rational(_, _) => ascii("rational"),
            AttributeValueView::TimeCode(_, _) => ascii("timecode"),
            AttributeValueView::I32Vec2(_, _) => ascii("v2i"),
            AttributeValueView::F32Vec2(_, _) => ascii("v2f"),
            AttributeValueView::I32Vec3(_, _, _) => ascii("v3i"),
            AttributeValueView::F32Vec3(_, _, _) => ascii("v3f"),
            AttributeValueView::ChannelList(_) => ascii("chlist"),
            AttributeValueView::Chromaticities(_) => ascii("chromaticities"),
            AttributeValueView::Compression(_) => ascii("compression"),
            AttributeValueView::EnvironmentMap(_) => ascii("envmap"),
            AttributeValueView::KeyCode(_) => ascii("keycode"),
            AttributeValueView::LineOrder(_) => ascii("lineOrder"),
            AttributeValueView::F32Matrix3x3(_) => ascii("m33f"),
            AttributeValueView::F32Matrix4x4(_) => ascii("m44f"),
            AttributeValueView::Preview(_) => ascii("preview"),
            AttributeValueView::Text(_) => ascii("string"),
            AttributeValueView::TextVector(_) => ascii("stringvector"),
            AttributeValueView::TileDescription(_) => ascii("tiledesc"),
        }
    }

    /// The bytes of the value.
    pub open spec fn bytes(self) -> Seq<u8> {
        match self {
            AttributeValueView::I32Box2(value) => value.bytes(),
            AttributeValueView::F32Box2(value) => value.bytes(),
            AttributeValueView::I32(value) => i32_le(value),
            AttributeValueView::F32(value) => u32_le(value),
            AttributeValueView::F64(value) => u64_le(value),
            AttributeValueView::Rational(a, b) => i32_le(a) + u32_le(b),
            AttributeValueView::TimeCode(a, b) => u32_le(a) + u32_le(b),
            AttributeValueView::I32Vec2(x, y) => i32_le(x) + i32_le(y),
            AttributeValueView::F32Vec2(x, y) => u32_le(x) + u32_le(y),
            AttributeValueView::I32Vec3(x, y, z) => i32_le(x) + i32_le(y) + i32_le(z),
            AttributeValueView::F32Vec3(x, y, z) => u32_le(x) + u32_le(y) + u32_le(z),
            AttributeValueView::ChannelList(channels) => channel_list_bytes(channels),
            AttributeValueView::Chromaticities(value) => value.bytes(),
            AttributeValueView::Compression(value) => value.bytes(),
            AttributeValueView::EnvironmentMap(value) => value.bytes(),
            AttributeValueView::KeyCode(value) => value.bytes(),
            AttributeValueView::LineOrder(value) => value.bytes(),
            AttributeValueView::F32Matrix3x3(value) => u32_seq_le(value),
            AttributeValueView::F32Matrix4x4(value) => u32_seq_le(value),
            AttributeValueView::Preview(value) => value.bytes(),
            AttributeValueView::Text(value) => value,
            AttributeValueView::TextVector(value) => text_vector_bytes(value),
            AttributeValueView::TileDescription(value) => value.bytes(),
        }
    }

    /// What is wrong with the value, if anything: the name of a channel, a
    /// text of a vector of texts, or the size of a preview.
    pub open spec fn validate(self, long_names: bool) -> Validity {
        match self {
            AttributeValueView::ChannelList(channels) => validate_channels(channels, long_names),
            AttributeValueView::Preview(value) => value.validate(),
            AttributeValueView::TextVector(value) => validate_texts(value),
            _ => Ok(()),
        }
    }

    /// Reading a value that is one number or a few, if `kind` names such a type.
    pub open spec fn read_numbers_spec(kind: Seq<u8>, s: Seq<u8>) -> Option<
        Parsed<AttributeValueView>,
    > {
        if kind == ascii("int") {
            Some(map_parsed(read_i32_spec(s), |v: i32| AttributeValueView::I32(v)))
        } else if kind == ascii("float") {
            Some(map_parsed(read_u32_spec(s), |v: u32| AttributeValueView::F32(v)))
        } else if kind == ascii("double") {
            Some(map_parsed(read_u64_spec(s), |v: u64| AttributeValueView::F64(v)))
        } else if kind == ascii("rational") {
            Some(
                map_parsed(
                    read_u32_pair_spec(s),
                    |v: (u32, u32)| AttributeValueView::Rational(i32_from_bits(v.0), v.1),
                ),
            )
        } else if kind == ascii("timecode") {
            Some(
                map_parsed(
                    read_u32_pair_spec(s),
                    |v: (u32, u32)| AttributeValueView::TimeCode(v.0, v.1),
                ),
            )
        } else if kind == ascii("v2i") {
            Some(
                map_parsed(
                    read_u32_pair_spec(s),
                    |v: (u32, u32)|
                        AttributeValueView::I32Vec2(i32_from_bits(v.0), i32_from_bits(v.1)),
                ),
            )
        } else if kind == ascii("v2f") {
            Some(
                map_parsed(
                    read_u32_pair_spec(s),
                    |v: (u32, u32)| AttributeValueView::F32Vec2(v.0, v.1),
                ),
            )
        } else if kind == ascii("v3i") {
            Some(
                map_parsed(
                    read_u32_triple_spec(s),
                    |v: (u32, u32, u32)|
                        AttributeValueView::I32Vec3(
                            i32_from_bits(v.0),
                            i32_from_bits(v.1),
                            i32_from_bits(v.2),
                        ),
                ),
            )
        } else if kind == ascii("v3f") {
            Some(
                map_parsed(
                    read_u32_triple_spec(s),
                    |v: (u32, u32, u32)| AttributeValueView::F32Vec3(v.0, v.1, v.2),
                ),
            )
        } else {
            None
        }
    }

    /// Reading a value that is a record or a choice, if `kind` names such a type.
    pub open spec fn read_records_spec(kind: Seq<u8>, s: Seq<u8>) -> Option<
        Parsed<AttributeValueView>,
    > {
        if kind == ascii("box2i") {
            Some(map_parsed(I32Box2::read_spec(s), |v: I32Box2| AttributeValueView::I32Box2(v)))
        } else if kind == ascii("box2f") {
            Some(map_parsed(F32Box2::read_spec(s), |v: F32Box2| AttributeValueView::F32Box2(v)))
        } else if kind == ascii("chromaticities") {
            Some(
                map_parsed(
                    Chromaticities::read_spec(s),
                    |v: Chromaticities| AttributeValueView::Chromaticities(v),
                ),
            )
        } else if kind == ascii("compression") {
            Some(
                map_parsed(
                    Compression::read_spec(s),
                    |v: Compression| AttributeValueView::Compression(v),
                ),
            )
        } else if kind == ascii("envmap") {
            Some(
                map_parsed(
                    EnvironmentMap::read_spec(s),
                    |v: EnvironmentMap| AttributeValueView::EnvironmentMap(v),
                ),
            )
        } else if kind == ascii("keycode") {
            Some(map_parsed(KeyCode::read_spec(s), |v: KeyCode| AttributeValueView::KeyCode(v)))
        } else if kind == ascii("lineOrder") {
            Some(
                map_parsed(LineOrder::read_spec(s), |v: LineOrder| AttributeValueView::LineOrder(v)),
            )
        } else if kind == ascii("tiledesc") {
            Some(
                map_parsed(
                    TileDescription::read_spec(s),
                    |v: TileDescription| AttributeValueView::TileDescription(v),
                ),
            )
        } else {
            None
        }
    }

    /// Reading a value that is a sequence, if `kind` names such a type.
    pub open spec fn read_sequences_spec(kind: Seq<u8>, size: u32, s: Seq<u8>) -> Option<
        Parsed<AttributeValueView>,
    > {
        if kind == ascii("chlist") {
            Some(
                map_parsed(
                    read_channel_list_spec(s),
                    |v: Seq<ChannelView>| AttributeValueView::ChannelList(v),
                ),
            )
        } else if kind == ascii("m33f") {
            Some(
                map_parsed(
                    read_u32_vec_spec(s, 9),
                    |v: Seq<u32>| AttributeValueView::F32Matrix3x3(v),
                ),
            )
        } else if kind == ascii("m44f") {
            Some(
                map_parsed(
                    read_u32_vec_spec(s, 16),
                    |v: Seq<u32>| AttributeValueView::F32Matrix4x4(v),
                ),
            )
        } else if kind == ascii("preview") {
            Some(
                map_parsed(
                    PreviewView::read_spec(s),
                    |v: PreviewView| AttributeValueView::Preview(v),
                ),
            )
        } else if kind == ascii("string") {
            Some(
                map_parsed(
                    read_sized_spec(s, size as nat),
                    |v: Seq<u8>| AttributeValueView::Text(v),
                ),
            )
        } else if kind == ascii("stringvector") {
            Some(
                map_parsed(
                    read_text_vector_spec(s, size as nat),
                    |v: Seq<Seq<u8>>| AttributeValueView::TextVector(v),
                ),
            )
        } else {
            None
        }
    }

    /// Whether `kind` names one of the types of values.
    pub open spec fn is_known_kind(kind: Seq<u8>) -> bool {
        let nothing = Seq::<u8>::empty();
        ||| AttributeValueView::read_numbers_spec(kind, nothing) is Some
        ||| AttributeValueView::read_records_spec(kind, nothing) is Some
        ||| AttributeValueView::read_sequences_spec(kind, 0, nothing) is Some
    }

    /// Reading a value of the type named `kind`, whatever its size.
    pub open spec fn read_kind_spec(kind: Seq<u8>, size: u32, s: Seq<u8>) -> Parsed<
        AttributeValueView,
    > {
        match AttributeValueView::read_numbers_spec(kind, s) {
            Some(result) => result,
            None => match AttributeValueView::read_records_spec(kind, s) {
                Some(result) => result,
                None => match AttributeValueView::read_sequences_spec(kind, size, s) {
                    Some(result) => result,
                    None => Err(Error::UnknownAttributeType { bytes_to_skip: size }),
                },
            },
        }
    }

    /// Reading a value of the type named `kind` that takes `size` bytes.
    pub open spec fn read_spec(kind: Seq<u8>, size: u32, s: Seq<u8>) -> Parsed<AttributeValueView> {
        of_size(size, s, AttributeValueView::read_kind_spec(kind, size, s))
    }
}

/// The copies of the texts of a vector.
fn clone_texts(texts: &Vec<Text>) -> (r: Vec<Text>)
    ensures
        text_views(r@) == text_views(texts@),
{
    let mut copies: Vec<Text> = Vec::new();
    let mut index: usize = 0;
    while index < texts.len()
        invariant
            index <= texts@.len(),
            copies@.len() == index,
            forall|i: int| 0 <= i < index ==> copies@[i]@ == texts@[i]@,
        decreases texts@.len() - index,
    {
        copies.push(texts[index].clone());
        index = index + 1;
    }
    assert(text_views(copies@) =~= text_views(texts@));
    copies
}

/// The nine numbers of a vector as an array.
fn array_of_9(values: &Vec<u32>) -> (r: [u32; 9])
    requires
        values@.len() == 9,
    ensures
        r@ == values@,
{
    let r = [
        values[0],
        values[1],
        values[2],
        values[3],
        values[4],
        values[5],
        values[6],
        values[7],
        values[8],
    ];
    assert(r@ =~= values@);
    r
}

/// The sixteen numbers of a vector as an array.
fn array_of_16(values: &Vec<u32>) -> (r: [u32; 16])
    requires
        values@.len() == 16,
    ensures
        r@ == values@,
{
    let r = [
        values[0],
        values[1],
        values[2],
        values[3],
        values[4],
        values[5],
        values[6],
        values[7],
        values[8],
        values[9],
        values[10],
        values[11],
        values[12],
        values[13],
        values[14],
        values[15],
    ];
    assert(r@ =~= values@);
    r
}

impl Clone for AttributeValue {
    fn clone(&self) -> (r: AttributeValue)
        ensures
            r@ == self@,
    {
        match self {
            AttributeValue::I32Box2(value) => AttributeValue::I32Box2(*value),
            AttributeValue::F32Box2(value) => AttributeValue::F32Box2(*value),
            AttributeValue::ChannelList(value) => AttributeValue::ChannelList(value.clone()),
            AttributeValue::Chromaticities(value) => AttributeValue::Chromaticities(*value),
            AttributeValue::Compression(value) => AttributeValue::Compression(*value),
            AttributeValue::F64(value) => AttributeValue::F64(*value),
            AttributeValue::EnvironmentMap(value) => AttributeValue::EnvironmentMap(*value),
            AttributeValue::F32(value) => AttributeValue::F32(*value),
            AttributeValue::I32(value) => AttributeValue::I32(*value),
            AttributeValue::KeyCode(value) => AttributeValue::KeyCode(*value),
            AttributeValue::LineOrder(value) => AttributeValue::LineOrder(*value),
            AttributeValue::F32Matrix3x3(value) => AttributeValue::F32Matrix3x3(*value),
            AttributeValue::F32Matrix4x4(value) => AttributeValue::F32Matrix4x4(*value),
            AttributeValue::Preview(value) => AttributeValue::Preview(value.clone()),
            AttributeValue::Rational(a, b) => AttributeValue::Rational(*a, *b),
            AttributeValue::Text(value) => AttributeValue::Text(value.clone()),
            AttributeValue::TextVector(value) => AttributeValue::TextVector(clone_texts(value)),
            AttributeValue::TileDescription(value) => AttributeValue::TileDescription(*value),
            AttributeValue::TimeCode(a, b) => AttributeValue::TimeCode(*a, *b),
            AttributeValue::I32Vec2(x, y) => AttributeValue::I32Vec2(*x, *y),
            AttributeValue::F32Vec2(x, y) => AttributeValue::F32Vec2(*x, *y),
            AttributeValue::I32Vec3(x, y, z) => AttributeValue::I32Vec3(*x, *y, *z),
            AttributeValue::F32Vec3(x, y, z) => AttributeValue::F32Vec3(*x, *y, *z),
        }
    }
}

impl AttributeValue {
    /// How many bytes the value takes in a file.
    pub fn byte_size(&self) -> (r: usize)
        ensures
            r == self@.bytes().len(),
    {
        let mut buffer: Vec<u8> = Vec::new();
        self.write_unchecked(&mut buffer);
        buffer.len()
    }

    /// The name of the type of the value, as it stands in a file.
    pub fn kind_name(&self) -> (r: &'static [u8])
        ensures
            r@ == self@.kind_name(),
    {
        proof {
            reveal_strlit("box2i");
            reveal_strlit("box2f");
            reveal_strlit("int");
            reveal_strlit("float");
            reveal_strlit("double");
            reveal_strlit("rational");
            reveal_strlit("timecode");
            reveal_strlit("v2i");
            reveal_strlit("v2f");
            reveal_strlit("v3i");
            reveal_strlit("v3f");
            reveal_strlit("chlist");
            reveal_strlit("chromaticities");
            reveal_strlit("compression");
            reveal_strlit("envmap");
            reveal_strlit("keycode");
            reveal_strlit("lineOrder");
            reveal_strlit("m33f");
            reveal_strlit("m44f");
            reveal_strlit("preview");
            reveal_strlit("string");
            reveal_strlit("stringvector");
            reveal_strlit("tiledesc");
        }
        match self {
            AttributeValue::I32Box2(_) => ascii_bytes("box2i"),
            AttributeValue::F32Box2(_) => ascii_bytes("box2f"),
            AttributeValue::I32(_) => ascii_bytes("int"),
            AttributeValue::F32(_) => ascii_bytes("float"),
            AttributeValue::F64(_) => ascii_bytes("double"),
            AttributeValue::Rational(_, _) => ascii_bytes("rational"),
            AttributeValue::TimeCode(_, _) => ascii_bytes("timecode"),
            AttributeValue::I32Vec2(_, _) => ascii_bytes("v2i"),
            AttributeValue::F32Vec2(_, _) => ascii_bytes("v2f"),
            AttributeValue::I32Vec3(_, _, _) => ascii_bytes("v3i"),
            AttributeValue::F32Vec3(_, _, _) => ascii_bytes("v3f"),
            AttributeValue::ChannelList(_) => ascii_bytes("chlist"),
            AttributeValue::Chromaticities(_) => ascii_bytes("chromaticities"),
            AttributeValue::Compression(_) => ascii_bytes("compression"),
            AttributeValue::EnvironmentMap(_) => ascii_bytes("envmap"),
            AttributeValue::KeyCode(_) => ascii_bytes("keycode"),
            AttributeValue::LineOrder(_) => ascii_bytes("lineOrder"),
            AttributeValue::F32Matrix3x3(_) => ascii_bytes("m33f"),
            AttributeValue::F32Matrix4x4(_) => ascii_bytes("m44f"),
            AttributeValue::Preview(_) => ascii_bytes("preview"),
            AttributeValue::Text(_) => ascii_bytes("string"),
            AttributeValue::TextVector(_) => ascii_bytes("stringvector"),
            AttributeValue::TileDescription(_) => ascii_bytes("tiledesc"),
        }
    }

    /// Says what is wrong with the value, if anything.
    pub fn validate(&self, long_names: bool) -> (r: Validity)
        ensures
            r == self@.validate(long_names),
    {
        match self {
            AttributeValue::ChannelList(channels) => Channel::validate_list(channels, long_names),
            AttributeValue::Preview(value) => value.validate(),
            AttributeValue::TextVector(value) => Text::validate_vec_of_i32_sized_texts(
                value.as_slice(),
            ),
            _ => Ok(()),
        }
    }

    /// Appends the bytes of the value without looking at it.
    fn write_unchecked(&self, write: &mut Vec<u8>)
        ensures
            final(write)@ == old(write)@ + self@.bytes(),
    {
        match self {
            AttributeValue::I32Box2(value) => {
                let _ = value.write(write);
            },
            AttributeValue::F32Box2(value) => {
                let _ = value.write(write);
            },
            AttributeValue::I32(value) => write_i32(write, *value),
            AttributeValue::F32(value) => write_u32(write, *value),
            AttributeValue::F64(value) => write_u64(write, *value),
            AttributeValue::Rational(a, b) => {
                write_i32(write, *a);
                write_u32(write, *b);
            },
            AttributeValue::TimeCode(a, b) => {
                write_u32(write, *a);
                write_u32(write, *b);
            },
            AttributeValue::I32Vec2(x, y) => {
                write_i32(write, *x);
                write_i32(write, *y);
            },
            AttributeValue::F32Vec2(x, y) => {
                write_u32(write, *x);
                write_u32(write, *y);
            },
            AttributeValue::I32Vec3(x, y, z) => {
                write_i32(write, *x);
                write_i32(write, *y);
                write_i32(write, *z);
            },
            AttributeValue::F32Vec3(x, y, z) => {
                write_u32(write, *x);
                write_u32(write, *y);
                write_u32(write, *z);
            },
            AttributeValue::ChannelList(channels) => Channel::write_list_unchecked(
                channels,
                write,
            ),
            AttributeValue::Chromaticities(value) => {
                let _ = value.write(write);
            },
            AttributeValue::Compression(value) => {
                let _ = value.write(write);
            },
            AttributeValue::EnvironmentMap(value) => {
                let _ = value.write(write);
            },
            AttributeValue::KeyCode(value) => {
                let _ = value.write(write);
            },
            AttributeValue::LineOrder(value) => {
                let _ = value.write(write);
            },
            AttributeValue::F32Matrix3x3(value) => write_u32_array(write, value.as_slice()),
            AttributeValue::F32Matrix4x4(value) => write_u32_array(write, value.as_slice()),
            AttributeValue::Preview(value) => value.write_unchecked(write),
            AttributeValue::Text(value) => write_u8_array(write, value.to_text_bytes()),
            AttributeValue::TextVector(value) => Text::write_vec_of_i32_sized_texts_unchecked(
                write,
                value.as_slice(),
            ),
            AttributeValue::TileDescription(value) => {
                let _ = value.write(write);
            },
        }
        assert(write@ =~= old(write)@ + self@.bytes());
    }

    /// Appends the value, if it is valid.
    pub fn write(&self, write: &mut Vec<u8>, long_names: bool) -> (r: WriteResult)
        ensures
            r == self@.validate(long_names),
            final(write)@ == if r is Ok {
                old(write)@ + self@.bytes()
            } else {
                old(write)@
            },
    {
        self.validate(long_names)?;
        self.write_unchecked(write);
        Ok(())
    }

    /// Whether `kind` names a type of values that are one number or a few.
    fn is_numbers_kind(kind: &Text) -> (r: bool)
        ensures
            r == AttributeValueView::read_numbers_spec(kind@, Seq::empty()) is Some,
    {
        proof {
            reveal_strlit("int");
            reveal_strlit("float");
            reveal_strlit("double");
            reveal_strlit("rational");
            reveal_strlit("timecode");
            reveal_strlit("v2i");
            reveal_strlit("v2f");
            reveal_strlit("v3i");
            reveal_strlit("v3f");
        }
        is_name(kind, "int") || is_name(kind, "float") || is_name(kind, "double") || is_name(
            kind,
            "rational",
        ) || is_name(kind, "timecode") || is_name(kind, "v2i") || is_name(kind, "v2f") || is_name(
            kind,
            "v3i",
        ) || is_name(kind, "v3f")
    }

    /// Whether `kind` names a type of values that are records or choices.
    fn is_records_kind(kind: &Text) -> (r: bool)
        ensures
            r == AttributeValueView::read_records_spec(kind@, Seq::empty()) is Some,
    {
        proof {
            reveal_strlit("box2i");
            reveal_strlit("box2f");
            reveal_strlit("chromaticities");
            reveal_strlit("compression");
            reveal_strlit("envmap");
            reveal_strlit("keycode");
            reveal_strlit("lineOrder");
            reveal_strlit("tiledesc");
        }
        is_name(kind, "box2i") || is_name(kind, "box2f") || is_name(kind, "chromaticities")
            || is_name(kind, "compression") || is_name(kind, "envmap") || is_name(kind, "keycode")
            || is_name(kind, "lineOrder") || is_name(kind, "tiledesc")
    }

    /// Whether `kind` names a type of values that are sequences.
    fn is_sequences_kind(kind: &Text) -> (r: bool)
        ensures
            r == AttributeValueView::read_sequences_spec(kind@, 0, Seq::empty()) is Some,
    {
        proof {
            reveal_strlit("chlist");
            reveal_strlit("m33f");
            reveal_strlit("m44f");
            reveal_strlit("preview");
            reveal_strlit("string");
            reveal_strlit("stringvector");
        }
        is_name(kind, "chlist") || is_name(kind, "m33f") || is_name(kind, "m44f") || is_name(
            kind,
            "preview",
        ) || is_name(kind, "string") || is_name(kind, "stringvector")
    }

    /// Whether `kind` names one of the types of values.
    pub fn is_known_kind(kind: &Text) -> (r: bool)
        ensures
            r == AttributeValueView::is_known_kind(kind@),
    {
        AttributeValue::is_numbers_kind(kind) || AttributeValue::is_records_kind(kind)
            || AttributeValue::is_sequences_kind(kind)
    }

    /// Reads a value that is one number or a few, if `kind` names such a type.
    fn read_numbers(read: &mut ByteReader, kind: &Text) -> (r: Option<ReadResult<AttributeValue>>)
        ensures
            final(read).source() == old(read).source(),
            read_as(
                *old(read),
                *final(read),
                r,
                AttributeValueView::read_numbers_spec(kind@, old(read).remaining()),
            ),
    {
        proof {
            reveal_strlit("int");
            reveal_strlit("float");
            reveal_strlit("double");
            reveal_strlit("rational");
            reveal_strlit("timecode");
            reveal_strlit("v2i");
            reveal_strlit("v2f");
            reveal_strlit("v3i");
            reveal_strlit("v3f");
        }
        if is_name(kind, "int") {
            Some(
                match read.read_i32() {
                    Ok(value) => Ok(AttributeValue::I32(value)),
                    Err(e) => Err(e),
                },
            )
        } else if is_name(kind, "float") {
            Some(
                match read.read_u32() {
                    Ok(value) => Ok(AttributeValue::F32(value)),
                    Err(e) => Err(e),
                },
            )
        } else if is_name(kind, "double") {
            Some(
                match read.read_u64() {
                    Ok(value) => Ok(AttributeValue::F64(value)),
                    Err(e) => Err(e),
                },
            )
        } else if is_name(kind, "rational") {
            Some(
                match read_u32_pair(read) {
                    Ok((a, b)) => Ok(AttributeValue::Rational(signed(a), b)),
                    Err(e) => Err(e),
                },
            )
        } else if is_name(kind, "timecode") {
            Some(
                match read_u32_pair(read) {
                    Ok((a, b)) => Ok(AttributeValue::TimeCode(a, b)),
                    Err(e) => Err(e),
                },
            )
        } else if is_name(kind, "v2i") {
            Some(
                match read_u32_pair(read) {
                    Ok((x, y)) => Ok(AttributeValue::I32Vec2(signed(x), signed(y))),
                    Err(e) => Err(e),
                },
            )
        } else if is_name(kind, "v2f") {
            Some(
                match read_u32_pair(read) {
                    Ok((x, y)) => Ok(AttributeValue::F32Vec2(x, y)),
                    Err(e) => Err(e),
                },
            )
        } else if is_name(kind, "v3i") {
            Some(
                match read_u32_triple(read) {
                    Ok((x, y, z)) => Ok(AttributeValue::I32Vec3(signed(x), signed(y), signed(z))),
                    Err(e) => Err(e),
                },
            )
        } else if is_name(kind, "v3f") {
            Some(
                match read_u32_triple(read) {
                    Ok((x, y, z)) => Ok(AttributeValue::F32Vec3(x, y, z)),
                    Err(e) => Err(e),
                },
            )
        } else {
            None
        }
    }

    /// Reads a value that is a record or a choice, if `kind` names such a type.
    fn read_records(read: &mut ByteReader, kind: &Text) -> (r: Option<ReadResult<AttributeValue>>)
        ensures
            final(read).source() == old(read).source(),
            read_as(
                *old(read),
                *final(read),
                r,
                AttributeValueView::read_records_spec(kind@, old(read).remaining()),
            ),
    {
        proof {
            reveal_strlit("box2i");
            reveal_strlit("box2f");
            reveal_strlit("chromaticities");
            reveal_strlit("compression");
            reveal_strlit("envmap");
            reveal_strlit("keycode");
            reveal_strlit("lineOrder");
            reveal_strlit("tiledesc");
        }
        if is_name(kind, "box2i") {
            Some(
                match I32Box2::read(read) {
                    Ok(value) => Ok(AttributeValue::I32Box2(value)),
                    Err(e) => Err(e),
                },
            )
        } else if is_name(kind, "box2f") {
            Some(
                match F32Box2::read(read) {
                    Ok(value) => Ok(AttributeValue::F32Box2(value)),
                    Err(e) => Err(e),
                },
            )
        } else if is_name(kind, "chromaticities") {
            Some(
                match Chromaticities::read(read) {
                    Ok(value) => Ok(AttributeValue::Chromaticities(value)),
                    Err(e) => Err(e),
                },
            )
        } else if is_name(kind, "compression") {
            Some(
                match Compression::read(read) {
                    Ok(value) => Ok(AttributeValue::Compression(value)),
                    Err(e) => Err(e),
                },
            )
        } else if is_name(kind, "envmap") {
            Some(
                match EnvironmentMap::read(read) {
                    Ok(value) => Ok(AttributeValue::EnvironmentMap(value)),
                    Err(e) => Err(e),
                },
            )
        } else if is_name(kind, "keycode") {
            Some(
                match KeyCode::read(read) {
                    Ok(value) => Ok(AttributeValue::KeyCode(value)),
                    Err(e) => Err(e),
                },
            )
        } else if is_name(kind, "lineOrder") {
            Some(
                match LineOrder::read(read) {
                    Ok(value) => Ok(AttributeValue::LineOrder(value)),
                    Err(e) => Err(e),
                },
            )
        } else if is_name(kind, "tiledesc") {
            Some(
                match TileDescription::read(read) {
                    Ok(value) => Ok(AttributeValue::TileDescription(value)),
                    Err(e) => Err(e),
                },
            )
        } else {
            None
        }
    }

    /// Reads a value that is a sequence, if `kind` names such a type.
    fn read_sequences(read: &mut ByteReader, kind: &Text, byte_size: u32) -> (r: Option<
        ReadResult<AttributeValue>,
    >)
        ensures
            final(read).source() == old(read).source(),
            read_as(
                *old(read),
                *final(read),
                r,
                AttributeValueView::read_sequences_spec(kind@, byte_size, old(read).remaining()),
            ),
    {
        proof {
            reveal_strlit("chlist");
            reveal_strlit("m33f");
            reveal_strlit("m44f");
            reveal_strlit("preview");
            reveal_strlit("string");
            reveal_strlit("stringvector");
        }
        if is_name(kind, "chlist") {
            Some(
                match Channel::read_list(read) {
                    Ok(value) => Ok(AttributeValue::ChannelList(value)),
                    Err(e) => Err(e),
                },
            )
        } else if is_name(kind, "m33f") {
            Some(
                match read.read_u32_vec(9) {
                    Ok(values) => Ok(AttributeValue::F32Matrix3x3(array_of_9(&values))),
                    Err(e) => Err(e),
                },
            )
        } else if is_name(kind, "m44f") {
            Some(
                match read.read_u32_vec(16) {
                    Ok(values) => Ok(AttributeValue::F32Matrix4x4(array_of_16(&values))),
                    Err(e) => Err(e),
                },
            )
        } else if is_name(kind, "preview") {
            Some(
                match Preview::read(read) {
                    Ok(value) => Ok(AttributeValue::Preview(value)),
                    Err(e) => Err(e),
                },
            )
        } else if is_name(kind, "string") {
            Some(
                match Text::read_sized(read, byte_size as usize) {
                    Ok(value) => Ok(AttributeValue::Text(ParsedText::parse(value))),
                    Err(e) => Err(e),
                },
            )
        } else if is_name(kind, "stringvector") {
            Some(
                match Text::read_vec_of_i32_sized(read, byte_size) {
                    Ok(value) => Ok(AttributeValue::TextVector(value)),
                    Err(e) => Err(e),
                },
            )
        } else {
            None
        }
    }

    /// Reads a value of the type named `kind`, whatever its size.
    fn read_kind(read: &mut ByteReader, kind: &Text, byte_size: u32) -> (r: ReadResult<
        AttributeValue,
    >)
        ensures
            final(read).source() == old(read).source(),
            match AttributeValueView::read_kind_spec(kind@, byte_size, old(read).remaining()) {
                Ok((value, rest)) => r is Ok && r->Ok_0@ == value && final(read).remaining()
                    == rest,
                Err(e) => r == Err::<AttributeValue, Error>(e),
            },
            !AttributeValueView::is_known_kind(kind@) ==> final(read).remaining() == old(read).remaining() && r == Err::<AttributeValue, Error>(
                Error::UnknownAttributeType { bytes_to_skip: byte_size },
            ),
    {
        if let Some(result) = AttributeValue::read_numbers(read, kind) {
            return result;
        }
        if let Some(result) = AttributeValue::read_records(read, kind) {
            return result;
        }
        if let Some(result) = AttributeValue::read_sequences(read, kind, byte_size) {
            return result;
        }
        Err(Error::UnknownAttributeType { bytes_to_skip: byte_size })
    }

    /// Reads a value of the type named `kind` that takes `byte_size` bytes.
    /// Where the type is not known, nothing is read, and the error says how
    /// many bytes to skip.
    pub fn read(read: &mut ByteReader, kind: Text, byte_size: u32) -> (r: ReadResult<
        AttributeValue,
    >)
        ensures
            final(read).source() == old(read).source(),
            match AttributeValueView::read_spec(kind@, byte_size, old(read).remaining()) {
                Ok((value, rest)) => r is Ok && r->Ok_0@ == value && final(read).remaining()
                    == rest,
                Err(e) => r == Err::<AttributeValue, Error>(e),
            },
            !AttributeValueView::is_known_kind(kind@) ==> final(read).remaining() == old(read).remaining() && r == Err::<AttributeValue, Error>(
                Error::UnknownAttributeType { bytes_to_skip: byte_size },
            ),
    {
        let before = read.remaining_len();
        let value = AttributeValue::read_kind(read, &kind, byte_size)?;
        let after = read.remaining_len();
        if before < after || before - after != byte_size as usize {
            return Err(
                Error::InvalidContent {
                    what: Value::Attribute("size"),
                    required: Required::Exact("the byte size of the value"),
                },
            );
        }
        Ok(value)
    }

    /// The tile description that the value is, if it is one.
    pub fn to_tile_description(&self) -> (r: Result<TileDescription, Error>)
        ensures
            r == match self@ {
                AttributeValueView::TileDescription(value) => Ok::<TileDescription, Error>(value),
                _ => Err::<TileDescription, Error>(wrong_type_error("tiledesc")),
            },
    {
        match self {
            AttributeValue::TileDescription(value) => Ok(*value),
            _ => Err(wrong_type("tiledesc")),
        }
    }

    /// The number that the value is, if it is a signed 32-bit number.
    pub fn to_i32(&self) -> (r: Result<i32, Error>)
        ensures
            r == match self@ {
                AttributeValueView::I32(value) => Ok::<i32, Error>(value),
                _ => Err::<i32, Error>(wrong_type_error("i32")),
            },
    {
        match self {
            AttributeValue::I32(value) => Ok(*value),
            _ => Err(wrong_type("i32")),
        }
    }

    /// The box that the value is, if it is a box of whole numbers.
    pub fn to_i32_box_2(&self) -> (r: Result<I32Box2, Error>)
        ensures
            r == match self@ {
                AttributeValueView::I32Box2(value) => Ok::<I32Box2, Error>(value),
                _ => Err::<I32Box2, Error>(wrong_type_error("box2i")),
            },
    {
        match self {
            AttributeValue::I32Box2(value) => Ok(*value),
            _ => Err(wrong_type("box2i")),
        }
    }

    /// The compression method that the value is, if it is one.
    pub fn to_compression(&self) -> (r: Result<Compression, Error>)
        ensures
            r == match self@ {
                AttributeValueView::Compression(value) => Ok::<Compression, Error>(value),
                _ => Err::<Compression, Error>(wrong_type_error("compression")),
            },
    {
        match self {
            AttributeValue::Compression(value) => Ok(*value),
            _ => Err(wrong_type("compression")),
        }
    }

    /// The text that the value is, if it is one.
    pub fn to_text(&self) -> (r: Result<&ParsedText, Error>)
        ensures
            match self {
                AttributeValue::Text(value) => r == Ok::<&ParsedText, Error>(value),
                _ => r == Err::<&ParsedText, Error>(wrong_type_error("string")),
            },
    {
        match self {
            AttributeValue::Text(value) => Ok(value),
            _ => Err(wrong_type("string")),
        }
    }

    /// The channel list that the value is, if it is one.
    pub fn to_channel_list(&self) -> (r: Result<&ChannelList, Error>)
        ensures
            match self {
                AttributeValue::ChannelList(value) => r == Ok::<&ChannelList, Error>(value),
                _ => r == Err::<&ChannelList, Error>(wrong_type_error("chlist")),
            },
    {
        match self {
            AttributeValue::ChannelList(value) => Ok(value),
            _ => Err(wrong_type("chlist")),
        }
    }

    /// The chromaticities that the value is, if it is that.
    pub fn to_chromaticities(&self) -> (r: Result<Chromaticities, Error>)
        ensures
            r == match self@ {
                AttributeValueView::Chromaticities(value) => Ok::<Chromaticities, Error>(value),
                _ => Err::<Chromaticities, Error>(wrong_type_error("chromaticities")),
            },
    {
        match self {
            AttributeValue::Chromaticities(value) => Ok(*value),
            _ => Err(wrong_type("chromaticities")),
        }
    }
}

/// A read of a value of one of some types went as `expected` says: nothing
/// was read where the type is none of them; else, on success the value holds
/// what was expected and the reader stands before the rest, and on failure
/// the error is returned.
pub open spec fn read_as(
    before: ByteReader,
    after: ByteReader,
    result: Option<ReadResult<AttributeValue>>,
    expected: Option<Parsed<AttributeValueView>>,
) -> bool {
    match expected {
        None => result is None && after.remaining() == before.remaining(),
        Some(Ok((value, rest))) => result matches Some(Ok(read)) && read@ == value
            && after.remaining() == rest,
        Some(Err(e)) => result == Some(Err::<AttributeValue, Error>(e)),
    }
}

/// The error for a value that is not of the type asked for.
pub open spec fn wrong_type_error(required: &'static str) -> Error {
    Error::InvalidContent { what: Value::Type("attribute"), required: Required::Exact(required) }
}

/// The error for a value that is not of the type asked for.
fn wrong_type(required: &'static str) -> (r: Error)
    ensures
        r == wrong_type_error(required),
{
    Error::InvalidContent { what: Value::Type("attribute"), required: Required::Exact(required) }
}

/// A named value in a header.
#[derive(Debug, PartialEq, Eq)]
pub struct Attribute {
    /// The name of the attribute.
    pub name: Text,
    /// Its value. The type and the byte size that stand in a file follow from it.
    pub value: AttributeValue,
}

/// What an attribute holds.
pub struct AttributeView {
    pub name: Seq<u8>,
    pub value: AttributeValueView,
}

impl View for Attribute {
    type V = AttributeView;

    open spec fn view(&self) -> AttributeView {
        AttributeView { name: self.name@, value: self.value@ }
    }
}

impl Clone for Attribute {
    fn clone(&self) -> (r: Attribute)
        ensures
            r@ == self@,
    {
        Attribute { name: self.name.clone(), value: self.value.clone() }
    }
}

impl AttributeView {
    /// The bytes of the attribute: its name, the name of its type, the
    /// byte size of its value, and its value.
    pub open spec fn bytes(self) -> Seq<u8> {
        self.name.push(0u8) + self.value.kind_name().push(0u8) + i32_le(
            self.value.bytes().len() as i32,
        ) + self.value.bytes()
    }

    /// What is wrong with the attribute, if anything: its name, its value,
    /// or a value of more bytes than a signed 32-bit number can say.
    pub open spec fn validate(self, long_names: bool) -> Validity {
        match validate_text(self.name, Some(long_names)) {
            Err(e) => Err(e),
            Ok(_) => match self.value.validate(long_names) {
                Err(e) => Err(e),
                Ok(_) => if self.value.bytes().len() > i32::MAX {
                    Err(Error::InvalidSize)
                } else {
                    Ok(())
                },
            },
        }
    }

    /// Reading what follows the name of an attribute.
    pub open spec fn read_after_name_spec(name: Seq<u8>, s: Seq<u8>) -> Parsed<AttributeView> {
        match read_null_terminated_spec(s) {
            Err(e) => Err(e),
            Ok((kind, after_kind)) => match read_i32_spec(after_kind) {
                Err(e) => Err(e),
                Ok((size, after_size)) => if size < 0 {
                    Err(Error::InvalidSize)
                } else {
                    map_parsed(
                        AttributeValueView::read_spec(kind, size as u32, after_size),
                        |value: AttributeValueView| AttributeView { name, value },
                    )
                },
            },
        }
    }

    /// Reading an attribute.
    pub open spec fn read_spec(s: Seq<u8>) -> Parsed<AttributeView> {
        match read_null_terminated_spec(s) {
            Err(e) => Err(e),
            Ok((name, rest)) => AttributeView::read_after_name_spec(name, rest),
        }
    }
}

impl Attribute {
    /// Says what is wrong with the attribute, if anything.
    pub fn validate(&self, long_names: bool) -> (r: Validity)
        ensures
            r == self@.validate(long_names),
    {
        self.name.validate(Some(long_names))?;
        self.value.validate(long_names)?;
        let mut buffer: Vec<u8> = Vec::new();
        self.value.write_unchecked(&mut buffer);
        if buffer.len() > i32::MAX as usize {
            return Err(Error::InvalidSize);
        }
        Ok(())
    }

    /// Appends the attribute, if it is valid.
    pub fn write(&self, write: &mut Vec<u8>, long_names: bool) -> (r: WriteResult)
        ensures
            r == self@.validate(long_names),
            final(write)@ == if r is Ok {
                old(write)@ + self@.bytes()
            } else {
                old(write)@
            },
    {
        self.name.validate(Some(long_names))?;
        self.value.validate(long_names)?;
        let mut value_bytes: Vec<u8> = Vec::new();
        self.value.write_unchecked(&mut value_bytes);
        if value_bytes.len() > i32::MAX as usize {
            return Err(Error::InvalidSize);
        }
        write_u8_array(write, self.name.as_slice());
        SequenceEnd::write(write);
        write_u8_array(write, self.value.kind_name());
        SequenceEnd::write(write);
        write_i32(write, value_bytes.len() as i32);
        write_u8_array(write, value_bytes.as_slice());
        assert(write@ =~= old(write)@ + self@.bytes());
        Ok(())
    }

    /// Reads an attribute.
    pub fn read(read: &mut ByteReader) -> (r: ReadResult<Attribute>)
        ensures
            final(read).source() == old(read).source(),
            match AttributeView::read_spec(old(read).remaining()) {
                Ok((attribute, rest)) => r is Ok && r->Ok_0@ == attribute
                    && final(read).remaining() == rest,
                Err(e) => r == Err::<Attribute, Error>(e),
            },
    {
        let name = Text::read_null_terminated(read)?;
        let kind = Text::read_null_terminated(read)?;
        let size = read.read_i32()?;
        if size < 0 {
            return Err(Error::InvalidSize);
        }
        let value = AttributeValue::read(read, kind, size as u32)?;
        Ok(Attribute { name, value })
    }
}

/// The views of the attributes of a vector.
pub open spec fn attribute_views(attributes: Seq<Attribute>) -> Seq<AttributeView> {
    Seq::new(attributes.len(), |i: int| attributes[i]@)
}

/// The bytes of a name, if there is one.
pub open spec fn name_view(name: Option<Text>) -> Option<Seq<u8>> {
    match name {
        Some(text) => Some(text@),
        None => None,
    }
}

/// A copy of the name, if there is one.
pub fn clone_name(name: &Option<Text>) -> (r: Option<Text>)
    ensures
        name_view(r) == name_view(*name),
{
    match name {
        Some(text) => Some(text.clone()),
        None => None,
    }
}

/// Copies of the attributes of a vector.
pub fn clone_attributes(attributes: &Vec<Attribute>) -> (r: Vec<Attribute>)
    ensures
        attribute_views(r@) == attribute_views(attributes@),
{
    let mut copies: Vec<Attribute> = Vec::new();
    let mut index: usize = 0;
    while index < attributes.len()
        invariant
            index <= attributes@.len(),
            copies@.len() == index,
            forall|i: int| 0 <= i < index ==> copies@[i]@ == attributes@[i]@,
        decreases attributes@.len() - index,
    {
        copies.push(attributes[index].clone());
        index = index + 1;
    }
    assert(attribute_views(copies@) =~= attribute_views(attributes@));
    copies
}

} // verus!
