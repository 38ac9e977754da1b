use exr::error::{Error, Required, Value};
use exr::file::attributes::{
    deep_scan_line_kind, deep_tile_kind, scan_line_kind, tile_kind, I32Box2, ParsedText, Text,
};
use exr::io::{ByteReader, SequenceEnd};

fn too_long(max: usize) -> Error {
    Error::InvalidContent { what: Value::Text, required: Required::Max(max) }
}

#[test]
fn text_lengths_are_checked_against_the_flag() {
    let short = Text::from_bytes(&[b'a'; 31]);
    let medium = Text::from_bytes(&[b'a'; 32]);
    let long = Text::from_bytes(&[b'a'; 255]);
    let longer = Text::from_bytes(&[b'a'; 256]);
    assert_eq!(short.validate(Some(false)), Ok(()));
    assert_eq!(medium.validate(Some(false)), Err(too_long(31)));
    assert_eq!(medium.validate(Some(true)), Ok(()));
    assert_eq!(long.validate(Some(true)), Ok(()));
    assert_eq!(longer.validate(Some(true)), Err(too_long(255)));
    assert_eq!(longer.validate(None), Ok(()));
    assert_eq!(
        Text::validate_bytes(b"", None),
        Err(Error::InvalidContent { what: Value::Text, required: Required::Min(1) })
    );
    let range = Error::InvalidContent {
        what: Value::Text,
        required: Required::Range { min: 1, max: 127 },
    };
    assert_eq!(Text::validate_bytes(b"a\0b", None), Err(range));
    assert_eq!(Text::validate_bytes(b"a\x80", Some(true)), Err(range));
    assert_eq!(Text::validate_bytes(b"a\x7F", Some(true)), Ok(()));
}

#[test]
fn texts_are_made_from_strings_and_shown_as_strings() {
    let name = Text::short_from_str("layer.R");
    assert_eq!(name.to_vec(), b"layer.R".to_vec());
    assert_eq!(name.len(), 7);
    assert_eq!(name.to_string(), "layer.R".to_string());
    assert_eq!(Text::long_from_str("x").to_vec(), vec![b'x']);
    assert_eq!(Text::from_bytes(&[0xE9, b'!']).to_string(), "\u{E9}!".to_string());
    assert_eq!(name.clone(), name);
    assert_ne!(name, Text::from_bytes(b"layer.G"));
}

#[test]
fn texts_are_read_as_written() {
    let name = Text::from_bytes(b"abc");
    let mut bytes = Vec::new();
    name.write_null_terminated(&mut bytes, Some(false)).unwrap();
    name.write_i32_sized(&mut bytes, None).unwrap();
    Text::write_unsized_bytes(b"xy", &mut bytes, None).unwrap();
    Text::write_null_terminated_bytes(b"z", &mut bytes, Some(true)).unwrap();
    SequenceEnd::write(&mut bytes);
    assert_eq!(bytes, b"abc\0\x03\0\0\0abcxyz\0\0".to_vec());
    assert_eq!(SequenceEnd::byte_size(), 1);

    let mut read = ByteReader::new(&bytes);
    assert_eq!(SequenceEnd::has_come(&mut read), Ok(false));
    assert_eq!(Text::read_null_terminated(&mut read), Ok(name.clone()));
    assert_eq!(Text::read_i32_sized(&mut read), Ok(name));
    assert_eq!(Text::read_sized(&mut read, 2), Ok(Text::from_bytes(b"xy")));
    assert_eq!(Text::read_null_terminated(&mut read), Ok(Text::from_bytes(b"z")));
    assert_eq!(SequenceEnd::has_come(&mut read), Ok(true));
    assert_eq!(SequenceEnd::has_come(&mut read), Err(Error::Io));

    assert_eq!(Text::read_null_terminated(&mut ByteReader::new(b"abc")), Err(Error::Io));
    assert_eq!(Text::read_sized(&mut ByteReader::new(b"abc"), 4), Err(Error::Io));
    assert_eq!(Text::read_sized(&mut ByteReader::new(b"abc"), 1025), Err(Error::InvalidSize));
    assert_eq!(
        Text::read_i32_sized(&mut ByteReader::new(&[0xFF, 0xFF, 0xFF, 0xFF, b'a'])),
        Err(Error::InvalidSize)
    );
}

#[test]
fn layer_types_are_told_apart() {
    let types: [(&[u8], ParsedText, bool, bool); 4] = [
        (scan_line_kind(), ParsedText::ScanLine, false, false),
        (tile_kind(), ParsedText::Tile, false, true),
        (deep_scan_line_kind(), ParsedText::DeepScanLine, true, false),
        (deep_tile_kind(), ParsedText::DeepTile, true, true),
    ];
    for (bytes, expected, deep, tile) in types {
        let parsed = ParsedText::parse(Text::from_bytes(bytes));
        assert_eq!(parsed, expected);
        assert_eq!(parsed.to_text_bytes(), bytes);
        assert_eq!(parsed.validate_kind(), Ok(()));
        assert_eq!(parsed.is_deep_kind(), deep);
        assert_eq!(parsed.is_tile_kind(), tile);
    }
    assert_eq!(scan_line_kind(), b"scanlineimage");
    let other = ParsedText::parse(Text::from_bytes(b"scanline"));
    assert_eq!(other, ParsedText::Arbitrary(Text::from_bytes(b"scanline")));
    assert_eq!(other.to_text_bytes(), b"scanline");
    assert!(!other.is_deep_kind() && !other.is_tile_kind());
    assert_eq!(
        other.validate_kind(),
        Err(Error::InvalidContent {
            what: Value::Type("type"),
            required: Required::OneOf("scanlineimage,tiledimage,deepscanline,deeptile"),
        })
    );
}

#[test]
fn boxes_are_validated_and_measured() {
    let window = I32Box2 { x_min: -2, y_min: 0, x_max: 5, y_max: 0 };
    assert_eq!(window.validate(), Ok(()));
    assert_eq!(window.dimensions(), (7, 0));
    let wrong = I32Box2 { x_min: 1, y_min: 0, x_max: 0, y_max: 0 };
    assert_eq!(
        wrong.validate(),
        Err(Error::InvalidContent {
            what: Value::Attribute("box2i"),
            required: Required::Exact("min <= max"),
        })
    );
    let mut bytes = Vec::new();
    window.write(&mut bytes).unwrap();
    assert_eq!(bytes, vec![0xFE, 0xFF, 0xFF, 0xFF, 0, 0, 0, 0, 5, 0, 0, 0, 0, 0, 0, 0]);
    assert_eq!(I32Box2::read(&mut ByteReader::new(&bytes)), Ok(window));
    assert_eq!(I32Box2::read(&mut ByteReader::new(&bytes[0..15])), Err(Error::Io));
}

#[test]
fn vectors_of_texts_are_read_as_written() {
    let texts = vec![Text::from_bytes(b"a"), Text::from_bytes(b"bcd")];
    let mut bytes = Vec::new();
    Text::write_vec_of_i32_sized_texts(&mut bytes, &texts).unwrap();
    assert_eq!(bytes, b"\x01\0\0\0a\x03\0\0\0bcd".to_vec());
    assert_eq!(Text::read_vec_of_i32_sized(&mut ByteReader::new(&bytes), 12), Ok(texts));
    assert_eq!(
        Text::read_vec_of_i32_sized(&mut ByteReader::new(&bytes), 5),
        Ok(vec![Text::from_bytes(b"a")])
    );
    assert_eq!(Text::read_vec_of_i32_sized(&mut ByteReader::new(&bytes), 13), Err(Error::Io));
    let mut unchanged = vec![5];
    assert!(Text::write_vec_of_i32_sized_texts(&mut unchanged, &[Text::from_bytes(b"")]).is_err());
    assert_eq!(unchanged, vec![5]);
}
