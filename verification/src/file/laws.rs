//! What holds of the layout of attributes in bytes: reading what was
//! written gives the value back, and writing what was read gives the bytes
//! back.

use vstd::prelude::*;
use crate::error::Error;
use crate::compression::Compression;
use crate::io::{
    ascii, i32_le, i32_from_le, u32_le, u32_from_le, i8_seq_bits, i8_seq_from_bits, i32_bits,
    Parsed, lemma_u32_decodes_encoded, lemma_u32_encodes_decoded, lemma_i32_decodes_encoded,
    lemma_i32_encodes_decoded, lemma_u64_decodes_encoded, lemma_u64_encodes_decoded,
    lemma_seq_le_decodes_encoded, lemma_seq_le_encodes_decoded, lemma_bits_round_trip,
};
use crate::file::attributes::{
    I32Box2, F32Box2, PixelType, ChannelView, Chromaticities, EnvironmentMap, KeyCode, LineOrder,
    PreviewView, TileDescription, AttributeValueView, AttributeView, validate_text, leading_nonzero,
    lemma_leading_nonzero, read_null_terminated_spec, read_sized_spec, read_i32_sized_spec,
    i32_sized_bytes, channels_bytes, channel_list_bytes, validate_channels, read_channel_list_spec,
    text_vector_bytes, read_text_vector_spec, after_texts, of_size, SIZED_TEXT_LIMIT,
};

verus! {

/// Bytes put one after another are the same however they are grouped.
pub proof fn lemma_add_assoc(a: Seq<u8>, b: Seq<u8>, c: Seq<u8>)
    ensures
        (a + b) + c == a + (b + c),
{
    assert((a + b) + c =~= a + (b + c));
}

/// A 32-bit number in front of other bytes is read back, and the other bytes are what is left.
pub proof fn lemma_u32_in_front(x: u32, rest: Seq<u8>)
    ensures
        u32_from_le(u32_le(x) + rest) == x,
        (u32_le(x) + rest).skip(4) == rest,
        (u32_le(x) + rest).len() == 4 + rest.len(),
{
    lemma_u32_decodes_encoded(x, rest);
    assert((u32_le(x) + rest).skip(4) =~= rest);
}

/// A signed 32-bit number in front of other bytes is read back, and the other bytes are
/// what is left.
pub proof fn lemma_i32_in_front(x: i32, rest: Seq<u8>)
    ensures
        i32_from_le(i32_le(x) + rest) == x,
        (i32_le(x) + rest).skip(4) == rest,
        (i32_le(x) + rest).len() == 4 + rest.len(),
{
    lemma_i32_decodes_encoded(x, rest);
    assert((i32_le(x) + rest).skip(4) =~= rest);
}

/// The first four bytes are those of the 32-bit number that they are read as.
pub proof fn lemma_u32_at_front(s: Seq<u8>)
    requires
        s.len() >= 4,
    ensures
        s == u32_le(u32_from_le(s)) + s.skip(4),
        s == i32_le(i32_from_le(s)) + s.skip(4),
{
    lemma_u32_encodes_decoded(s);
    lemma_i32_encodes_decoded(s);
    assert(s =~= s.take(4) + s.skip(4));
}

/// Reading a written box of whole numbers gives the box back.
pub proof fn lemma_box2i_read_written(v: I32Box2, tail: Seq<u8>)
    ensures
        I32Box2::read_spec(v.bytes() + tail) == Ok::<(I32Box2, Seq<u8>), Error>((v, tail)),
{
    let r3 = i32_le(v.y_max) + tail;
    let r2 = i32_le(v.x_max) + r3;
    let r1 = i32_le(v.y_min) + r2;
    let s = i32_le(v.x_min) + r1;
    lemma_i32_in_front(v.x_min, r1);
    lemma_i32_in_front(v.y_min, r2);
    lemma_i32_in_front(v.x_max, r3);
    lemma_i32_in_front(v.y_max, tail);
    assert(v.bytes() + tail =~= s);
    assert(s.skip(8) =~= s.skip(4).skip(4));
    assert(s.skip(12) =~= s.skip(8).skip(4));
    assert(s.skip(16) =~= s.skip(12).skip(4));
}

/// Writing a box of whole numbers that was read gives the bytes back.
pub proof fn lemma_box2i_written_read(s: Seq<u8>)
    ensures
        I32Box2::read_spec(s) matches Ok((v, rest)) ==> s == v.bytes() + rest,
{
    if s.len() >= 16 {
        let v = I32Box2::read_spec(s)->Ok_0.0;
        lemma_u32_at_front(s);
        lemma_u32_at_front(s.skip(4));
        lemma_u32_at_front(s.skip(8));
        lemma_u32_at_front(s.skip(12));
        assert(s.skip(8) =~= s.skip(4).skip(4));
        assert(s.skip(12) =~= s.skip(8).skip(4));
        assert(s.skip(16) =~= s.skip(12).skip(4));
        assert(s =~= v.bytes() + s.skip(16));
    }
}

/// Reading a written box of floating-point numbers gives the box back.
pub proof fn lemma_box2f_read_written(v: F32Box2, tail: Seq<u8>)
    ensures
        F32Box2::read_spec(v.bytes() + tail) == Ok::<(F32Box2, Seq<u8>), Error>((v, tail)),
{
    let r3 = u32_le(v.y_max) + tail;
    let r2 = u32_le(v.x_max) + r3;
    let r1 = u32_le(v.y_min) + r2;
    let s = u32_le(v.x_min) + r1;
    lemma_u32_in_front(v.x_min, r1);
    lemma_u32_in_front(v.y_min, r2);
    lemma_u32_in_front(v.x_max, r3);
    lemma_u32_in_front(v.y_max, tail);
    assert(v.bytes() + tail =~= s);
    assert(s.skip(8) =~= s.skip(4).skip(4));
    assert(s.skip(12) =~= s.skip(8).skip(4));
    assert(s.skip(16) =~= s.skip(12).skip(4));
}

/// Writing a box of floating-point numbers that was read gives the bytes back.
pub proof fn lemma_box2f_written_read(s: Seq<u8>)
    ensures
        F32Box2::read_spec(s) matches Ok((v, rest)) ==> s == v.bytes() + rest,
{
    if s.len() >= 16 {
        let v = F32Box2::read_spec(s)->Ok_0.0;
        lemma_u32_at_front(s);
        lemma_u32_at_front(s.skip(4));
        lemma_u32_at_front(s.skip(8));
        lemma_u32_at_front(s.skip(12));
        assert(s.skip(8) =~= s.skip(4).skip(4));
        assert(s.skip(12) =~= s.skip(8).skip(4));
        assert(s.skip(16) =~= s.skip(12).skip(4));
        assert(s =~= v.bytes() + s.skip(16));
    }
}

/// Reading written chromaticities gives them back.
pub proof fn lemma_chromaticities_read_written(v: Chromaticities, tail: Seq<u8>)
    ensures
        Chromaticities::read_spec(v.bytes() + tail) == Ok::<(Chromaticities, Seq<u8>), Error>(
            (v, tail),
        ),
{
    let r7 = u32_le(v.white_y) + tail;
    let r6 = u32_le(v.white_x) + r7;
    let r5 = u32_le(v.blue_y) + r6;
    let r4 = u32_le(v.blue_x) + r5;
    let r3 = u32_le(v.green_y) + r4;
    let r2 = u32_le(v.green_x) + r3;
    let r1 = u32_le(v.red_y) + r2;
    let s = u32_le(v.red_x) + r1;
    lemma_u32_in_front(v.red_x, r1);
    lemma_u32_in_front(v.red_y, r2);
    lemma_u32_in_front(v.green_x, r3);
    lemma_u32_in_front(v.green_y, r4);
    lemma_u32_in_front(v.blue_x, r5);
    lemma_u32_in_front(v.blue_y, r6);
    lemma_u32_in_front(v.white_x, r7);
    lemma_u32_in_front(v.white_y, tail);
    let a = u32_le(v.red_x);
    let b = u32_le(v.red_y);
    let c = u32_le(v.green_x);
    let d = u32_le(v.green_y);
    let e = u32_le(v.blue_x);
    let f = u32_le(v.blue_y);
    let g = u32_le(v.white_x);
    let h = u32_le(v.white_y);
    lemma_add_assoc(a + b + c + d + e + f + g, h, tail);
    lemma_add_assoc(a + b + c + d + e + f, g, r7);
    lemma_add_assoc(a + b + c + d + e, f, r6);
    lemma_add_assoc(a + b + c + d, e, r5);
    lemma_add_assoc(a + b + c, d, r4);
    lemma_add_assoc(a + b, c, r3);
    lemma_add_assoc(a, b, r2);
    assert(v.bytes() + tail == s);
    assert(s.skip(4) == r1);
    assert(s.skip(8) == r2) by {
        assert(s.skip(8) =~= s.skip(4).skip(4));
    }
    assert(s.skip(12) == r3) by {
        assert(s.skip(12) =~= s.skip(8).skip(4));
    }
    assert(s.skip(16) == r4) by {
        assert(s.skip(16) =~= s.skip(12).skip(4));
    }
    assert(s.skip(20) == r5) by {
        assert(s.skip(20) =~= s.skip(16).skip(4));
    }
    assert(s.skip(24) == r6) by {
        assert(s.skip(24) =~= s.skip(20).skip(4));
    }
    assert(s.skip(28) == r7) by {
        assert(s.skip(28) =~= s.skip(24).skip(4));
    }
    assert(s.skip(32) == tail) by {
        assert(s.skip(32) =~= s.skip(28).skip(4));
    }
}

/// Writing chromaticities that were read gives the bytes back.
pub proof fn lemma_chromaticities_written_read(s: Seq<u8>)
    ensures
        Chromaticities::read_spec(s) matches Ok((v, rest)) ==> s == v.bytes() + rest,
{
    if s.len() >= 32 {
        let v = Chromaticities::read_spec(s)->Ok_0.0;
        lemma_u32_at_front(s);
        lemma_u32_at_front(s.skip(4));
        lemma_u32_at_front(s.skip(8));
        lemma_u32_at_front(s.skip(12));
        lemma_u32_at_front(s.skip(16));
        lemma_u32_at_front(s.skip(20));
        lemma_u32_at_front(s.skip(24));
        lemma_u32_at_front(s.skip(28));
        assert(s.skip(8) =~= s.skip(4).skip(4));
        assert(s.skip(12) =~= s.skip(8).skip(4));
        assert(s.skip(16) =~= s.skip(12).skip(4));
        assert(s.skip(20) =~= s.skip(16).skip(4));
        assert(s.skip(24) =~= s.skip(20).skip(4));
        assert(s.skip(28) =~= s.skip(24).skip(4));
        assert(s.skip(32) =~= s.skip(28).skip(4));
        assert(s =~= v.bytes() + s.skip(32));
    }
}

/// Reading a written key code gives the key code back.
pub proof fn lemma_key_code_read_written(v: KeyCode, tail: Seq<u8>)
    ensures
        KeyCode::read_spec(v.bytes() + tail) == Ok::<(KeyCode, Seq<u8>), Error>((v, tail)),
{
    let r6 = i32_le(v.perforations_per_count) + tail;
    let r5 = i32_le(v.perforations_per_frame) + r6;
    let r4 = i32_le(v.perforation_offset) + r5;
    let r3 = i32_le(v.count) + r4;
    let r2 = i32_le(v.film_roll_prefix) + r3;
    let r1 = i32_le(v.film_type) + r2;
    let s = i32_le(v.film_manufacturer_code) + r1;
    lemma_i32_in_front(v.film_manufacturer_code, r1);
    lemma_i32_in_front(v.film_type, r2);
    lemma_i32_in_front(v.film_roll_prefix, r3);
    lemma_i32_in_front(v.count, r4);
    lemma_i32_in_front(v.perforation_offset, r5);
    lemma_i32_in_front(v.perforations_per_frame, r6);
    lemma_i32_in_front(v.perforations_per_count, tail);
    assert(v.bytes() + tail =~= s);
    assert(s.skip(8) =~= s.skip(4).skip(4));
    assert(s.skip(12) =~= s.skip(8).skip(4));
    assert(s.skip(16) =~= s.skip(12).skip(4));
    assert(s.skip(20) =~= s.skip(16).skip(4));
    assert(s.skip(24) =~= s.skip(20).skip(4));
    assert(s.skip(28) =~= s.skip(24).skip(4));
}

/// Writing a key code that was read gives the bytes back.
pub proof fn lemma_key_code_written_read(s: Seq<u8>)
    ensures
        KeyCode::read_spec(s) matches Ok((v, rest)) ==> s == v.bytes() + rest,
{
    if s.len() >= 28 {
        let v = KeyCode::read_spec(s)->Ok_0.0;
        lemma_u32_at_front(s);
        lemma_u32_at_front(s.skip(4));
        lemma_u32_at_front(s.skip(8));
        lemma_u32_at_front(s.skip(12));
        lemma_u32_at_front(s.skip(16));
        lemma_u32_at_front(s.skip(20));
        lemma_u32_at_front(s.skip(24));
        assert(s.skip(8) =~= s.skip(4).skip(4));
        assert(s.skip(12) =~= s.skip(8).skip(4));
        assert(s.skip(16) =~= s.skip(12).skip(4));
        assert(s.skip(20) =~= s.skip(16).skip(4));
        assert(s.skip(24) =~= s.skip(20).skip(4));
        assert(s.skip(28) =~= s.skip(24).skip(4));
        assert(s =~= v.bytes() + s.skip(28));
    }
}

/// Reading a written pixel type, compression method, environment map,
/// line order or tile description gives it back.
pub proof fn lemma_choices_read_written(tail: Seq<u8>)
    ensures
        forall|v: PixelType| #[trigger]
            PixelType::read_spec(v.bytes() + tail) == Ok::<(PixelType, Seq<u8>), Error>((v, tail)),
        forall|v: Compression| #[trigger]
            Compression::read_spec(v.bytes() + tail) == Ok::<(Compression, Seq<u8>), Error>(
                (v, tail),
            ),
        forall|v: EnvironmentMap| #[trigger]
            EnvironmentMap::read_spec(v.bytes() + tail) == Ok::<(EnvironmentMap, Seq<u8>), Error>(
                (v, tail),
            ),
        forall|v: LineOrder| #[trigger]
            LineOrder::read_spec(v.bytes() + tail) == Ok::<(LineOrder, Seq<u8>), Error>((v, tail)),
        forall|v: TileDescription| #[trigger]
            TileDescription::read_spec(v.bytes() + tail) == Ok::<(TileDescription, Seq<u8>), Error>(
                (v, tail),
            ),
{
    assert forall|v: PixelType| #[trigger]
        PixelType::read_spec(v.bytes() + tail) == Ok::<(PixelType, Seq<u8>), Error>(
            (v, tail),
        ) by {
        lemma_i32_in_front(v.code(), tail);
    }
    assert forall|v: Compression| #[trigger]
        Compression::read_spec(v.bytes() + tail) == Ok::<(Compression, Seq<u8>), Error>(
            (v, tail),
        ) by {
        assert((v.bytes() + tail).skip(1) =~= tail);
    }
    assert forall|v: EnvironmentMap| #[trigger]
        EnvironmentMap::read_spec(v.bytes() + tail) == Ok::<(EnvironmentMap, Seq<u8>), Error>(
            (v, tail),
        ) by {
        assert((v.bytes() + tail).skip(1) =~= tail);
    }
    assert forall|v: LineOrder| #[trigger]
        LineOrder::read_spec(v.bytes() + tail) == Ok::<(LineOrder, Seq<u8>), Error>(
            (v, tail),
        ) by {
        assert((v.bytes() + tail).skip(1) =~= tail);
    }
    assert forall|v: TileDescription| #[trigger]
        TileDescription::read_spec(v.bytes() + tail) == Ok::<(TileDescription, Seq<u8>), Error>(
            (v, tail),
        ) by {
        let r2 = seq![v.mode_byte()] + tail;
        let r1 = u32_le(v.y_size) + r2;
        let s = u32_le(v.x_size) + r1;
        lemma_u32_in_front(v.x_size, r1);
        lemma_u32_in_front(v.y_size, r2);
        assert(v.bytes() + tail =~= s);
        assert(s.skip(8) =~= s.skip(4).skip(4));
        assert(s.skip(9) =~= tail);
        assert(s[8] == v.mode_byte());
    }
}

/// Writing a pixel type, compression method, environment map, line
/// order or tile description that was read gives the bytes back.
pub proof fn lemma_choices_written_read(s: Seq<u8>)
    ensures
        PixelType::read_spec(s) matches Ok((v, rest)) ==> s == v.bytes() + rest,
        Compression::read_spec(s) matches Ok((v, rest)) ==> s == v.bytes() + rest,
        EnvironmentMap::read_spec(s) matches Ok((v, rest)) ==> s == v.bytes() + rest,
        LineOrder::read_spec(s) matches Ok((v, rest)) ==> s == v.bytes() + rest,
        TileDescription::read_spec(s) matches Ok((v, rest)) ==> s == v.bytes() + rest,
{
    if s.len() >= 4 {
        lemma_u32_at_front(s);
    }
    if s.len() >= 1 {
        assert(s =~= seq![s[0]] + s.skip(1));
    }
    if s.len() >= 9 {
        lemma_u32_at_front(s.skip(4));
        assert(s.skip(8) =~= s.skip(4).skip(4));
        assert(s.skip(8) =~= seq![s[8]] + s.skip(9));
        if TileDescription::read_spec(s) is Ok {
            let v = TileDescription::read_spec(s)->Ok_0.0;
            assert(v.mode_byte() == s[8]);
            assert(s =~= v.bytes() + s.skip(9));
        }
    }
}

/// Before the position that `leading_nonzero` gives stands no zero byte,
/// and at it stands one, unless it is the end.
pub proof fn lemma_leading_nonzero_is_first(s: Seq<u8>)
    ensures
        leading_nonzero(s) <= s.len(),
        forall|i: int| 0 <= i < leading_nonzero(s) ==> s[i] != 0,
        leading_nonzero(s) < s.len() ==> s[leading_nonzero(s) as int] == 0,
    decreases s.len(),
{
    if s.len() == 0 || s[0] == 0 {
    } else {
        let t = s.skip(1);
        lemma_leading_nonzero_is_first(t);
        assert forall|i: int| 0 <= i < leading_nonzero(s) implies s[i] != 0 by {
            if i > 0 {
                assert(s[i] == t[i - 1]);
            }
        }
        if leading_nonzero(s) < s.len() {
            assert(s[leading_nonzero(s) as int] == t[leading_nonzero(t) as int]);
        }
    }
}

/// Whether no byte of the text is zero.
pub open spec fn has_no_zero(text: Seq<u8>) -> bool {
    forall|i: int| 0 <= i < text.len() ==> text[i] != 0
}

/// A valid text holds no zero byte and is not empty.
pub proof fn lemma_valid_text_has_no_zero(text: Seq<u8>, long_names: Option<bool>)
    requires
        validate_text(text, long_names) is Ok,
    ensures
        has_no_zero(text),
        text.len() > 0,
{
    assert forall|i: int| 0 <= i < text.len() implies text[i] != 0 by {
        if text[i] == 0 {
            assert(!(1 <= text[i] <= 127));
        }
    }
}

/// Reading a text that was written with a zero byte after it gives the text back.
pub proof fn lemma_null_terminated_read_written(text: Seq<u8>, tail: Seq<u8>)
    requires
        has_no_zero(text),
    ensures
        read_null_terminated_spec(text.push(0u8) + tail) == Ok::<(Seq<u8>, Seq<u8>), Error>(
            (text, tail),
        ),
{
    let s = text.push(0u8) + tail;
    assert forall|i: int| 0 <= i < text.len() implies s[i] != 0 by {
        assert(s[i] == text[i]);
    }
    assert(s[text.len() as int] == 0);
    lemma_leading_nonzero(s, text.len() as int);
    assert(s.take(text.len() as int) =~= text);
    assert(s.skip(text.len() as int + 1) =~= tail);
}

/// Writing a text that was read up to a zero byte gives the bytes back.
pub proof fn lemma_null_terminated_written_read(s: Seq<u8>)
    ensures
        read_null_terminated_spec(s) matches Ok((text, rest)) ==> s == text.push(0u8) + rest
            && has_no_zero(text) && rest.len() < s.len(),
{
    lemma_leading_nonzero_is_first(s);
    let n = leading_nonzero(s) as int;
    if n < s.len() {
        let text = s.take(n);
        assert forall|i: int| 0 <= i < text.len() implies text[i] != 0 by {
            assert(text[i] == s[i]);
        }
        assert(s =~= text.push(0u8) + s.skip(n + 1));
    }
}

/// Reading a text that was written with its size in front gives the text back,
/// if the text is within the limit for such texts.
pub proof fn lemma_i32_sized_read_written(text: Seq<u8>, tail: Seq<u8>)
    requires
        text.len() <= SIZED_TEXT_LIMIT,
    ensures
        read_sized_spec(text + tail, text.len()) == Ok::<(Seq<u8>, Seq<u8>), Error>((text, tail)),
        read_i32_sized_spec(i32_sized_bytes(text) + tail) == Ok::<(Seq<u8>, Seq<u8>), Error>(
            (text, tail),
        ),
{
    let s = text + tail;
    assert(s.take(text.len() as int) =~= text);
    assert(s.skip(text.len() as int) =~= tail);
    lemma_i32_in_front(text.len() as i32, s);
    assert(i32_sized_bytes(text) + tail =~= i32_le(text.len() as i32) + s);
}

/// Writing a text that was read with its size in front gives the bytes back.
pub proof fn lemma_i32_sized_written_read(s: Seq<u8>)
    ensures
        read_i32_sized_spec(s) matches Ok((text, rest)) ==> s == i32_sized_bytes(text) + rest
            && text.len() <= SIZED_TEXT_LIMIT && s.len() == 4 + text.len() + rest.len(),
{
    if read_i32_sized_spec(s) is Ok {
        let size = i32_from_le(s);
        let after = s.skip(4);
        lemma_u32_at_front(s);
        let text = after.take(size as int);
        assert(after =~= text + after.skip(size as int));
        assert(s =~= i32_sized_bytes(text) + after.skip(size as int));
    }
}

/// Reading a written channel description gives it back, if its name holds no zero byte.
pub proof fn lemma_channel_read_written(c: ChannelView, tail: Seq<u8>)
    requires
        c.wf(),
        has_no_zero(c.name),
    ensures
        ChannelView::read_spec(c.bytes() + tail) == Ok::<(ChannelView, Seq<u8>), Error>((c, tail)),
{
    lemma_bits_round_trip();
    let linear = seq![
        if c.is_linear {
            1u8
        } else {
            0u8
        },
    ];
    let r4 = i32_le(c.y_sampling) + tail;
    let r3 = i32_le(c.x_sampling) + r4;
    let r2 = i8_seq_bits(c.reserved) + r3;
    let r1 = linear + r2;
    let t = c.pixel_type.bytes() + r1;
    assert(c.bytes() + tail =~= c.name.push(0u8) + t);
    lemma_null_terminated_read_written(c.name, t);
    lemma_i32_in_front(c.pixel_type.code(), r1);
    lemma_i32_in_front(c.x_sampling, r4);
    lemma_i32_in_front(c.y_sampling, tail);
    assert(t.skip(5) =~= r2);
    assert(t.subrange(5, 8) =~= i8_seq_bits(c.reserved));
    assert(i8_seq_from_bits(i8_seq_bits(c.reserved)) =~= c.reserved);
    assert(t.skip(8) =~= r3);
    assert(t.skip(12) =~= r4);
    assert(t.skip(16) =~= tail);
    assert(t[4] == linear[0]);
}

/// Writing a channel description that was read gives the bytes back.
pub proof fn lemma_channel_written_read(s: Seq<u8>)
    ensures
        ChannelView::read_spec(s) matches Ok((c, rest)) ==> s == c.bytes() + rest && c.wf()
            && has_no_zero(c.name) && rest.len() < s.len(),
{
    lemma_null_terminated_written_read(s);
    if ChannelView::read_spec(s) is Ok {
        lemma_bits_round_trip();
        let (c, rest) = ChannelView::read_spec(s)->Ok_0;
        let t = read_null_terminated_spec(s)->Ok_0.1;
        lemma_u32_at_front(t);
        lemma_u32_at_front(t.skip(8));
        lemma_u32_at_front(t.skip(12));
        assert(t.skip(8).skip(4) =~= t.skip(12));
        assert(t.skip(12).skip(4) =~= t.skip(16));
        let reserved = t.subrange(5, 8);
        assert(i8_seq_bits(i8_seq_from_bits(reserved)) =~= reserved);
        assert(t.skip(4) =~= seq![t[4]] + reserved + t.skip(8));
        assert(t =~= c.pixel_type.bytes() + seq![t[4]] + reserved + i32_le(c.x_sampling) + i32_le(
            c.y_sampling,
        ) + rest);
        assert(s =~= c.bytes() + rest);
    }
}

/// The bytes of channel descriptions start with those of the first.
pub proof fn lemma_channels_bytes_front(list: Seq<ChannelView>)
    requires
        list.len() > 0,
    ensures
        channels_bytes(list) == list[0].bytes() + channels_bytes(list.skip(1)),
    decreases list.len(),
{
    if list.len() == 1 {
        assert(list.drop_last() =~= Seq::<ChannelView>::empty());
        assert(list.skip(1) =~= Seq::<ChannelView>::empty());
        assert(channels_bytes(list) =~= list[0].bytes() + channels_bytes(list.skip(1)));
    } else {
        let front = list.drop_last();
        lemma_channels_bytes_front(front);
        assert(front.skip(1) =~= list.skip(1).drop_last());
        assert(list.skip(1).last() == list.last());
        assert(channels_bytes(list) =~= list[0].bytes() + channels_bytes(list.skip(1)));
    }
}

/// Whether every channel description has three reserved bytes.
pub open spec fn channels_wf(list: Seq<ChannelView>) -> bool {
    forall|i: int| 0 <= i < list.len() ==> (#[trigger] list[i]).wf()
}

/// The bytes of a channel list start with those of its first channel.
pub proof fn lemma_channel_list_bytes_front(
    first: ChannelView,
    others: Seq<ChannelView>,
    rest: Seq<u8>,
)
    ensures
        channel_list_bytes(seq![first] + others) + rest == first.bytes() + (channel_list_bytes(
            others,
        ) + rest),
{
    let list = seq![first] + others;
    assert(list.skip(1) =~= others);
    assert(list[0] == first);
    lemma_channels_bytes_front(list);
    assert(channels_bytes(list).push(0u8) + rest =~= first.bytes() + (channels_bytes(others).push(
        0u8,
    ) + rest));
}

/// A list of well-formed channels with a well-formed channel in front is one too.
pub proof fn lemma_channels_wf_front(first: ChannelView, others: Seq<ChannelView>)
    requires
        first.wf(),
        channels_wf(others),
    ensures
        channels_wf(seq![first] + others),
{
    let list = seq![first] + others;
    assert forall|i: int| 0 <= i < list.len() implies (#[trigger] list[i]).wf() by {
        if i > 0 {
            assert(list[i] == others[i - 1]);
        }
    }
}

/// The first byte of a channel description whose name is valid is not zero.
pub proof fn lemma_channel_bytes_start(c: ChannelView, long_names: bool, rest: Seq<u8>)
    requires
        validate_text(c.name, Some(long_names)) is Ok,
    ensures
        (c.bytes() + rest).len() > rest.len(),
        (c.bytes() + rest)[0] != 0,
        has_no_zero(c.name),
{
    lemma_valid_text_has_no_zero(c.name, Some(long_names));
    assert(c.bytes()[0] == c.name[0]);
}

/// Reading a written channel list gives the list back, if the names of
/// its channels are valid.
pub proof fn lemma_channel_list_read_written(
    list: Seq<ChannelView>,
    long_names: bool,
    tail: Seq<u8>,
)
    requires
        channels_wf(list),
        validate_channels(list, long_names) is Ok,
    ensures
        read_channel_list_spec(channel_list_bytes(list) + tail) == Ok::<
            (Seq<ChannelView>, Seq<u8>),
            Error,
        >((list, tail)),
    decreases list.len(),
{
    if list.len() == 0 {
        let s = channel_list_bytes(list) + tail;
        assert(channels_bytes(list) =~= Seq::<u8>::empty());
        assert(s.skip(1) =~= tail);
        assert(s[0] == 0);
        assert(list =~= Seq::<ChannelView>::empty());
    } else {
        let first = list[0];
        let others = list.skip(1);
        assert(seq![first] + others =~= list);
        let t = channel_list_bytes(others) + tail;
        lemma_channel_list_bytes_front(first, others, tail);
        lemma_channel_bytes_start(first, long_names, t);
        assert(first.wf());
        lemma_channel_read_written(first, t);
        assert(channels_wf(others)) by {
            assert forall|i: int| 0 <= i < others.len() implies (#[trigger] others[i]).wf() by {
                assert(others[i] == list[i + 1]);
            }
        }
        lemma_channel_list_read_written(others, long_names, tail);
    }
}

/// Writing a channel list that was read gives the bytes back.
pub proof fn lemma_channel_list_written_read(s: Seq<u8>)
    ensures
        read_channel_list_spec(s) matches Ok((list, rest)) ==> s == channel_list_bytes(list) + rest
            && channels_wf(list),
    decreases s.len(),
{
    if s.len() == 0 {
    } else if s[0] == 0 {
        let none = Seq::<ChannelView>::empty();
        assert(channels_bytes(none) =~= Seq::<u8>::empty());
        assert(s =~= channel_list_bytes(none) + s.skip(1));
    } else {
        lemma_channel_written_read(s);
        match ChannelView::read_spec(s) {
            Err(_) => {},
            Ok((first, t)) => {
                lemma_channel_list_written_read(t);
                match read_channel_list_spec(t) {
                    Err(_) => {},
                    Ok((others, rest)) => {
                        lemma_channel_list_bytes_front(first, others, rest);
                        lemma_channels_wf_front(first, others);
                    },
                }
            },
        }
    }
}

/// Reading a written preview gives the preview back, if it has four bytes for each pixel.
pub proof fn lemma_preview_read_written(v: PreviewView, tail: Seq<u8>)
    requires
        v.is_valid(),
    ensures
        PreviewView::read_spec(v.bytes() + tail) == Ok::<(PreviewView, Seq<u8>), Error>((v, tail)),
{
    lemma_bits_round_trip();
    let r2 = i8_seq_bits(v.pixel_data) + tail;
    let r1 = u32_le(v.height) + r2;
    let s = u32_le(v.width) + r1;
    lemma_u32_in_front(v.width, r1);
    lemma_u32_in_front(v.height, r2);
    assert(v.bytes() + tail =~= s);
    assert(s.skip(8) =~= r2);
    let count = v.pixel_data.len() as int;
    assert(r2.take(count) =~= i8_seq_bits(v.pixel_data));
    assert(r2.skip(count) =~= tail);
    assert(i8_seq_from_bits(i8_seq_bits(v.pixel_data)) =~= v.pixel_data);
}

/// Writing a preview that was read gives the bytes back.
pub proof fn lemma_preview_written_read(s: Seq<u8>)
    ensures
        PreviewView::read_spec(s) matches Ok((v, rest)) ==> s == v.bytes() + rest && v.is_valid(),
{
    if PreviewView::read_spec(s) is Ok {
        lemma_bits_round_trip();
        let (v, rest) = PreviewView::read_spec(s)->Ok_0;
        lemma_u32_at_front(s);
        lemma_u32_at_front(s.skip(4));
        let t = s.skip(8);
        assert(s.skip(4).skip(4) =~= t);
        let count = 4 * (v.width * v.height);
        assert(i8_seq_bits(i8_seq_from_bits(t.take(count))) =~= t.take(count));
        assert(t =~= t.take(count) + t.skip(count));
        assert(s =~= v.bytes() + rest);
    }
}

/// The bytes of texts with their sizes in front start with those of the first.
pub proof fn lemma_text_vector_bytes_front(texts: Seq<Seq<u8>>)
    requires
        texts.len() > 0,
    ensures
        text_vector_bytes(texts) == i32_sized_bytes(texts[0]) + text_vector_bytes(texts.skip(1)),
    decreases texts.len(),
{
    if texts.len() == 1 {
        assert(texts.drop_last() =~= Seq::<Seq<u8>>::empty());
        assert(texts.skip(1) =~= Seq::<Seq<u8>>::empty());
        assert(text_vector_bytes(texts) =~= i32_sized_bytes(texts[0]) + text_vector_bytes(
            texts.skip(1),
        ));
    } else {
        let front = texts.drop_last();
        lemma_text_vector_bytes_front(front);
        assert(front.skip(1) =~= texts.skip(1).drop_last());
        assert(texts.skip(1).last() == texts.last());
        assert(text_vector_bytes(texts) =~= i32_sized_bytes(texts[0]) + text_vector_bytes(
            texts.skip(1),
        ));
    }
}

/// Whether every text is within the limit for texts with their size in front.
pub open spec fn texts_within_limit(texts: Seq<Seq<u8>>) -> bool {
    forall|i: int| 0 <= i < texts.len() ==> (#[trigger] texts[i]).len() <= SIZED_TEXT_LIMIT
}

/// Reading written texts with their sizes in front gives the texts back,
/// if each is within the limit for such texts.
pub proof fn lemma_text_vector_read_written(texts: Seq<Seq<u8>>, tail: Seq<u8>)
    requires
        texts_within_limit(texts),
    ensures
        read_text_vector_spec(text_vector_bytes(texts) + tail, text_vector_bytes(texts).len())
            == Ok::<(Seq<Seq<u8>>, Seq<u8>), Error>((texts, tail)),
    decreases texts.len(),
{
    let bytes = text_vector_bytes(texts);
    if texts.len() == 0 {
        assert(bytes =~= Seq::<u8>::empty());
        assert(bytes + tail =~= tail);
        assert(texts =~= Seq::<Seq<u8>>::empty());
    } else {
        let first = texts[0];
        let others = texts.skip(1);
        lemma_text_vector_bytes_front(texts);
        let more = text_vector_bytes(others);
        let t = more + tail;
        let s = bytes + tail;
        assert(s =~= i32_sized_bytes(first) + t);
        assert(first.len() <= SIZED_TEXT_LIMIT);
        lemma_i32_sized_read_written(first, t);
        assert(read_i32_sized_spec(s) == Ok::<(Seq<u8>, Seq<u8>), Error>((first, t)));
        assert(i32_sized_bytes(first).len() == 4 + first.len());
        assert(bytes.len() == 4 + first.len() + more.len());
        assert forall|i: int| 0 <= i < others.len() implies (#[trigger] others[i]).len()
            <= SIZED_TEXT_LIMIT by {
            assert(others[i] == texts[i + 1]);
        }
        lemma_text_vector_read_written(others, tail);
        assert(seq![first] + others =~= texts);
        let left = (bytes.len() - 4 - first.len()) as nat;
        assert(left == more.len());
        assert(read_text_vector_spec(s, bytes.len()) == after_texts(
            seq![first],
            read_text_vector_spec(t, left),
        ));
    }
}

/// Writing texts that were read with their sizes in front gives the bytes back.
pub proof fn lemma_text_vector_written_read(s: Seq<u8>, size: nat)
    ensures
        read_text_vector_spec(s, size) matches Ok((texts, rest)) ==> s == text_vector_bytes(texts)
            + rest && text_vector_bytes(texts).len() == size,
    decreases size,
{
    if size == 0 {
        assert(s =~= text_vector_bytes(Seq::<Seq<u8>>::empty()) + s);
    } else {
        lemma_i32_sized_written_read(s);
        if read_text_vector_spec(s, size) is Ok {
            let (first, t) = read_i32_sized_spec(s)->Ok_0;
            let left = (size - 4 - first.len()) as nat;
            lemma_text_vector_written_read(t, left);
            let (others, rest) = read_text_vector_spec(t, left)->Ok_0;
            let texts = seq![first] + others;
            assert(texts.skip(1) =~= others);
            lemma_text_vector_bytes_front(texts);
            assert(s =~= text_vector_bytes(texts) + rest);
        }
    }
}

/// Four things about a name that tell the names of the types apart: its
/// length, its second and third byte, and its last byte.
pub open spec fn kind_mark(name: Seq<u8>) -> (nat, u8, u8, u8) {
    (name.len(), name[1], name[2], name[name.len() - 1])
}

/// The marks of the names of the types. No two are the same.
pub proof fn lemma_kind_marks()
    ensures
        kind_mark(ascii("box2i")) == (5nat, 111u8, 120u8, 105u8),
        kind_mark(ascii("box2f")) == (5nat, 111u8, 120u8, 102u8),
        kind_mark(ascii("int")) == (3nat, 110u8, 116u8, 116u8),
        kind_mark(ascii("float")) == (5nat, 108u8, 111u8, 116u8),
        kind_mark(ascii("double")) == (6nat, 111u8, 117u8, 101u8),
        kind_mark(ascii("rational")) == (8nat, 97u8, 116u8, 108u8),
        kind_mark(ascii("timecode")) == (8nat, 105u8, 109u8, 101u8),
        kind_mark(ascii("v2i")) == (3nat, 50u8, 105u8, 105u8),
        kind_mark(ascii("v2f")) == (3nat, 50u8, 102u8, 102u8),
        kind_mark(ascii("v3i")) == (3nat, 51u8, 105u8, 105u8),
        kind_mark(ascii("v3f")) == (3nat, 51u8, 102u8, 102u8),
        kind_mark(ascii("chlist")) == (6nat, 104u8, 108u8, 116u8),
        kind_mark(ascii("chromaticities")) == (14nat, 104u8, 114u8, 115u8),
        kind_mark(ascii("compression")) == (11nat, 111u8, 109u8, 110u8),
        kind_mark(ascii("envmap")) == (6nat, 110u8, 118u8, 112u8),
        kind_mark(ascii("keycode")) == (7nat, 101u8, 121u8, 101u8),
        kind_mark(ascii("lineOrder")) == (9nat, 105u8, 110u8, 114u8),
        kind_mark(ascii("m33f")) == (4nat, 51u8, 51u8, 102u8),
        kind_mark(ascii("m44f")) == (4nat, 52u8, 52u8, 102u8),
        kind_mark(ascii("preview")) == (7nat, 114u8, 101u8, 119u8),
        kind_mark(ascii("string")) == (6nat, 116u8, 114u8, 103u8),
        kind_mark(ascii("stringvector")) == (12nat, 116u8, 114u8, 114u8),
        kind_mark(ascii("tiledesc")) == (8nat, 105u8, 108u8, 99u8),
{
    reveal_strlit("box2i");
    reveal_strlit("box2f");
    reveal_strlit("int");
    reveal_strlit("float");
    reveal_strlit("double");
    reveal_strlit("rational");
    reveal_strlit("timecode");
    reveal_strlit("v2i");
    reveal_strlit("v2f");
    reveal_strlit("v3i");
    reveal_strlit("v3f");
    reveal_strlit("chlist");
    reveal_strlit("chromaticities");
    reveal_strlit("compression");
    reveal_strlit("envmap");
    reveal_strlit("keycode");
    reveal_strlit("lineOrder");
    reveal_strlit("m33f");
    reveal_strlit("m44f");
    reveal_strlit("preview");
    reveal_strlit("string");
    reveal_strlit("stringvector");
    reveal_strlit("tiledesc");
}

/// The name of a type holds no zero byte.
pub proof fn lemma_kind_name_has_no_zero(v: AttributeValueView)
    ensures
        has_no_zero(v.kind_name()),
{
    reveal_strlit("box2i");
    reveal_strlit("box2f");
    reveal_strlit("int");
    reveal_strlit("float");
    reveal_strlit("double");
    reveal_strlit("rational");
    reveal_strlit("timecode");
    reveal_strlit("v2i");
    reveal_strlit("v2f");
    reveal_strlit("v3i");
    reveal_strlit("v3f");
    reveal_strlit("chlist");
    reveal_strlit("chromaticities");
    reveal_strlit("compression");
    reveal_strlit("envmap");
    reveal_strlit("keycode");
    reveal_strlit("lineOrder");
    reveal_strlit("m33f");
    reveal_strlit("m44f");
    reveal_strlit("preview");
    reveal_strlit("string");
    reveal_strlit("stringvector");
    reveal_strlit("tiledesc");
}

/// The whole of a result that took all but `rest` of the bytes that `size` counts.
pub proof fn lemma_of_size<T>(value: T, bytes: Seq<u8>, tail: Seq<u8>)
    requires
        bytes.len() <= u32::MAX,
    ensures
        of_size(
            bytes.len() as u32,
            bytes + tail,
            Ok::<(T, Seq<u8>), Error>((value, tail)),
        ) == Ok::<(T, Seq<u8>), Error>((value, tail)),
{
}

/// Reading a written value that is one number or a few gives the value back.
pub proof fn lemma_numbers_read_written(v: AttributeValueView, tail: Seq<u8>)
    requires
        v is I32 || v is F32 || v is F64 || v is Rational || v is TimeCode || v is I32Vec2
            || v is F32Vec2 || v is I32Vec3 || v is F32Vec3,
    ensures
        AttributeValueView::read_numbers_spec(v.kind_name(), v.bytes() + tail) == Some(
            Ok::<(AttributeValueView, Seq<u8>), Error>((v, tail)),
        ),
        v.bytes().len() <= 12,
{
    lemma_kind_marks();
    lemma_bits_round_trip();
    let s = v.bytes() + tail;
    match v {
        AttributeValueView::I32(x) => {
            lemma_i32_in_front(x, tail);
        },
        AttributeValueView::F32(x) => {
            lemma_u32_in_front(x, tail);
        },
        AttributeValueView::F64(x) => {
            lemma_u64_decodes_encoded(x, tail);
            assert(s.skip(8) =~= tail);
        },
        AttributeValueView::Rational(a, b) => {
            lemma_add_assoc(i32_le(a), u32_le(b), tail);
            lemma_u32_in_front(i32_bits(a), u32_le(b) + tail);
            lemma_u32_in_front(b, tail);
            assert(s.skip(8) =~= s.skip(4).skip(4));
        },
        AttributeValueView::TimeCode(a, b) => {
            lemma_add_assoc(u32_le(a), u32_le(b), tail);
            lemma_u32_in_front(a, u32_le(b) + tail);
            lemma_u32_in_front(b, tail);
            assert(s.skip(8) =~= s.skip(4).skip(4));
        },
        AttributeValueView::I32Vec2(x, y) => {
            lemma_add_assoc(i32_le(x), i32_le(y), tail);
            lemma_u32_in_front(i32_bits(x), i32_le(y) + tail);
            lemma_u32_in_front(i32_bits(y), tail);
            assert(s.skip(8) =~= s.skip(4).skip(4));
        },
        AttributeValueView::F32Vec2(x, y) => {
            lemma_add_assoc(u32_le(x), u32_le(y), tail);
            lemma_u32_in_front(x, u32_le(y) + tail);
            lemma_u32_in_front(y, tail);
            assert(s.skip(8) =~= s.skip(4).skip(4));
        },
        AttributeValueView::I32Vec3(x, y, z) => {
            lemma_add_assoc(i32_le(x) + i32_le(y), i32_le(z), tail);
            lemma_add_assoc(i32_le(x), i32_le(y), i32_le(z) + tail);
            lemma_u32_in_front(i32_bits(x), i32_le(y) + (i32_le(z) + tail));
            lemma_u32_in_front(i32_bits(y), i32_le(z) + tail);
            lemma_u32_in_front(i32_bits(z), tail);
            assert(s.skip(8) =~= s.skip(4).skip(4));
            assert(s.skip(12) =~= s.skip(8).skip(4));
        },
        AttributeValueView::F32Vec3(x, y, z) => {
            lemma_add_assoc(u32_le(x) + u32_le(y), u32_le(z), tail);
            lemma_add_assoc(u32_le(x), u32_le(y), u32_le(z) + tail);
            lemma_u32_in_front(x, u32_le(y) + (u32_le(z) + tail));
            lemma_u32_in_front(y, u32_le(z) + tail);
            lemma_u32_in_front(z, tail);
            assert(s.skip(8) =~= s.skip(4).skip(4));
            assert(s.skip(12) =~= s.skip(8).skip(4));
        },
        _ => {},
    }
}

/// Reading a written value that is a record or a choice gives the value back.
pub proof fn lemma_records_read_written(v: AttributeValueView, tail: Seq<u8>)
    requires
        v is I32Box2 || v is F32Box2 || v is Chromaticities || v is Compression
            || v is EnvironmentMap || v is KeyCode || v is LineOrder || v is TileDescription,
    ensures
        AttributeValueView::read_numbers_spec(v.kind_name(), v.bytes() + tail) is None,
        AttributeValueView::read_records_spec(v.kind_name(), v.bytes() + tail) == Some(
            Ok::<(AttributeValueView, Seq<u8>), Error>((v, tail)),
        ),
        v.bytes().len() <= 32,
{
    lemma_kind_marks();
    lemma_choices_read_written(tail);
    match v {
        AttributeValueView::I32Box2(x) => {
            lemma_box2i_read_written(x, tail);
        },
        AttributeValueView::F32Box2(x) => {
            lemma_box2f_read_written(x, tail);
        },
        AttributeValueView::Chromaticities(x) => {
            lemma_chromaticities_read_written(x, tail);
        },
        AttributeValueView::KeyCode(x) => {
            lemma_key_code_read_written(x, tail);
        },
        _ => {},
    }
}

/// Reading a written value that is a sequence gives the value back, if
/// the value is valid and its texts are within the limit.
pub proof fn lemma_sequences_read_written(v: AttributeValueView, long_names: bool, tail: Seq<u8>)
    requires
        v is ChannelList || v is F32Matrix3x3 || v is F32Matrix4x4 || v is Preview || v is Text
            || v is TextVector,
        v.wf(),
        v.within_limits(),
        v.validate(long_names) is Ok,
        v.bytes().len() <= u32::MAX,
    ensures
        AttributeValueView::read_numbers_spec(v.kind_name(), v.bytes() + tail) is None,
        AttributeValueView::read_records_spec(v.kind_name(), v.bytes() + tail) is None,
        AttributeValueView::read_sequences_spec(
            v.kind_name(),
            v.bytes().len() as u32,
            v.bytes() + tail,
        ) == Some(Ok::<(AttributeValueView, Seq<u8>), Error>((v, tail))),
{
    lemma_kind_marks();
    let s = v.bytes() + tail;
    match v {
        AttributeValueView::ChannelList(channels) => {
            lemma_channel_list_read_written(channels, long_names, tail);
        },
        AttributeValueView::F32Matrix3x3(values) => {
            lemma_seq_le_decodes_encoded(tail);
            assert(s.skip(36) =~= tail);
        },
        AttributeValueView::F32Matrix4x4(values) => {
            lemma_seq_le_decodes_encoded(tail);
            assert(s.skip(64) =~= tail);
        },
        AttributeValueView::Preview(preview) => {
            lemma_preview_read_written(preview, tail);
        },
        AttributeValueView::Text(text) => {
            lemma_i32_sized_read_written(text, tail);
        },
        AttributeValueView::TextVector(texts) => {
            lemma_text_vector_read_written(texts, tail);
        },
        _ => {},
    }
}

/// Reading a written attribute value gives the value back: for every
/// value that is valid, and so can be written, and whose texts are short
/// enough to be read.
pub proof fn lemma_value_read_written(v: AttributeValueView, long_names: bool, tail: Seq<u8>)
    requires
        v.wf(),
        v.within_limits(),
        v.validate(long_names) is Ok,
        v.bytes().len() <= u32::MAX,
    ensures
        AttributeValueView::read_spec(v.kind_name(), v.bytes().len() as u32, v.bytes() + tail)
            == Ok::<(AttributeValueView, Seq<u8>), Error>((v, tail)),
{
    if v is I32 || v is F32 || v is F64 || v is Rational || v is TimeCode || v is I32Vec2
        || v is F32Vec2 || v is I32Vec3 || v is F32Vec3 {
        lemma_numbers_read_written(v, tail);
    } else if v is I32Box2 || v is F32Box2 || v is Chromaticities || v is Compression
        || v is EnvironmentMap || v is KeyCode || v is LineOrder || v is TileDescription {
        lemma_records_read_written(v, tail);
    } else {
        lemma_sequences_read_written(v, long_names, tail);
    }
    lemma_of_size(v, v.bytes(), tail);
}

/// Reading a written attribute gives the attribute back: for every
/// attribute that is valid, and so can be written, and whose texts are short
/// enough to be read.
pub proof fn lemma_attribute_read_written(a: AttributeView, long_names: bool, tail: Seq<u8>)
    requires
        a.value.wf(),
        a.value.within_limits(),
        a.validate(long_names) is Ok,
    ensures
        AttributeView::read_spec(a.bytes() + tail) == Ok::<(AttributeView, Seq<u8>), Error>(
            (a, tail),
        ),
{
    let value = a.value.bytes();
    let size = value.len() as i32;
    let kind = a.value.kind_name();
    let r3 = value + tail;
    let r2 = i32_le(size) + r3;
    let r1 = kind.push(0u8) + r2;
    let s = a.name.push(0u8) + r1;
    lemma_add_assoc(a.name.push(0u8) + kind.push(0u8) + i32_le(size), value, tail);
    lemma_add_assoc(a.name.push(0u8) + kind.push(0u8), i32_le(size), r3);
    lemma_add_assoc(a.name.push(0u8), kind.push(0u8), r2);
    assert(a.bytes() + tail == s);
    lemma_valid_text_has_no_zero(a.name, Some(long_names));
    lemma_null_terminated_read_written(a.name, r1);
    lemma_kind_name_has_no_zero(a.value);
    lemma_null_terminated_read_written(kind, r2);
    lemma_i32_in_front(size, r3);
    lemma_value_read_written(a.value, long_names, tail);
}

/// What it means that writing a value that was read gives the bytes
/// back: the value is of the type named, has the shape that its type asks for,
/// and its bytes are those that were read.
pub open spec fn is_written_read(
    kind: Seq<u8>,
    s: Seq<u8>,
    result: Option<Parsed<AttributeValueView>>,
) -> bool {
    result matches Some(Ok((v, rest))) ==> s == v.bytes() + rest && v.kind_name() == kind && v.wf()
}

/// Writing a value that was read as one number or a few gives the bytes back.
pub proof fn lemma_numbers_written_read(kind: Seq<u8>, s: Seq<u8>)
    ensures
        is_written_read(kind, s, AttributeValueView::read_numbers_spec(kind, s)),
{
    lemma_bits_round_trip();
    if s.len() >= 4 {
        lemma_u32_at_front(s);
    }
    if s.len() >= 8 {
        lemma_u32_at_front(s.skip(4));
        lemma_u64_encodes_decoded(s);
        assert(s =~= s.take(8) + s.skip(8));
        assert(s.skip(4).skip(4) =~= s.skip(8));
        lemma_add_assoc(u32_le(u32_from_le(s)), u32_le(u32_from_le(s.skip(4))), s.skip(8));
    }
    if s.len() >= 12 {
        lemma_u32_at_front(s.skip(8));
        assert(s.skip(8).skip(4) =~= s.skip(12));
        lemma_add_assoc(
            u32_le(u32_from_le(s)) + u32_le(u32_from_le(s.skip(4))),
            u32_le(u32_from_le(s.skip(8))),
            s.skip(12),
        );
        lemma_add_assoc(
            u32_le(u32_from_le(s)),
            u32_le(u32_from_le(s.skip(4))),
            u32_le(u32_from_le(s.skip(8))) + s.skip(12),
        );
    }
}

/// Writing a value that was read as a record or a choice gives the bytes back.
pub proof fn lemma_records_written_read(kind: Seq<u8>, s: Seq<u8>)
    ensures
        is_written_read(kind, s, AttributeValueView::read_records_spec(kind, s)),
{
    lemma_box2i_written_read(s);
    lemma_box2f_written_read(s);
    lemma_chromaticities_written_read(s);
    lemma_key_code_written_read(s);
    lemma_choices_written_read(s);
}

/// Writing a value that was read as a sequence gives the bytes back.
pub proof fn lemma_sequences_written_read(kind: Seq<u8>, size: u32, s: Seq<u8>)
    ensures
        is_written_read(kind, s, AttributeValueView::read_sequences_spec(kind, size, s)),
{
    if kind == ascii("chlist") {
        lemma_channel_list_written_read(s);
    } else if kind == ascii("m33f") {
        lemma_seq_le_encodes_decoded(s, 9);
        if s.len() >= 36 {
            assert(s =~= s.take(36) + s.skip(36));
        }
    } else if kind == ascii("m44f") {
        lemma_seq_le_encodes_decoded(s, 16);
        if s.len() >= 64 {
            assert(s =~= s.take(64) + s.skip(64));
        }
    } else if kind == ascii("preview") {
        lemma_preview_written_read(s);
    } else if kind == ascii("string") {
        if s.len() >= size {
            assert(s =~= s.take(size as int) + s.skip(size as int));
        }
    } else if kind == ascii("stringvector") {
        lemma_text_vector_written_read(s, size as nat);
    }
}

/// Writing an attribute value that was read gives back the bytes that it
/// was read from: the value is of the type that was named and takes the
/// number of bytes that was given.
pub proof fn lemma_value_written_read(kind: Seq<u8>, size: u32, s: Seq<u8>)
    ensures
        AttributeValueView::read_spec(kind, size, s) matches Ok((v, rest)) ==> s == v.bytes() + rest
            && v.kind_name() == kind && v.bytes().len() == size && v.wf(),
{
    lemma_numbers_written_read(kind, s);
    lemma_records_written_read(kind, s);
    lemma_sequences_written_read(kind, size, s);
}

/// Writing an attribute that was read gives back the bytes that it was read from.
pub proof fn lemma_attribute_written_read(s: Seq<u8>)
    ensures
        AttributeView::read_spec(s) matches Ok((a, rest)) ==> s == a.bytes() + rest && a.value.wf(),
{
    lemma_null_terminated_written_read(s);
    match read_null_terminated_spec(s) {
        Err(_) => {},
        Ok((name, r1)) => {
            lemma_null_terminated_written_read(r1);
            match read_null_terminated_spec(r1) {
                Err(_) => {},
                Ok((kind, r2)) => {
                    if r2.len() >= 4 && i32_from_le(r2) >= 0 {
                        let size = i32_from_le(r2);
                        let r3 = r2.skip(4);
                        lemma_u32_at_front(r2);
                        lemma_value_written_read(kind, size as u32, r3);
                        match AttributeValueView::read_spec(kind, size as u32, r3) {
                            Err(_) => {},
                            Ok((value, rest)) => {
                                let a = AttributeView { name, value };
                                let bytes = value.bytes();
                                lemma_add_assoc(
                                    name.push(0u8) + kind.push(0u8) + i32_le(size),
                                    bytes,
                                    rest,
                                );
                                lemma_add_assoc(
                                    name.push(0u8) + kind.push(0u8),
                                    i32_le(size),
                                    bytes + rest,
                                );
                                lemma_add_assoc(
                                    name.push(0u8),
                                    kind.push(0u8),
                                    i32_le(size) + (bytes + rest),
                                );
                                assert(s == a.bytes() + rest);
                            },
                        }
                    }
                },
            }
        },
    }
}

} // verus!
