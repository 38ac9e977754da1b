use exr::compression::Compression;
use exr::error::{Error, Required, Value};
use exr::file::attributes::{
    Attribute, AttributeValue, Channel, ChannelList, Chromaticities, EnvironmentMap, F32Box2,
    I32Box2, KeyCode, LevelMode, LineOrder, ParsedText, PixelType, Preview, RoundingMode, Text,
    TileDescription,
};
use exr::io::ByteReader;

fn text(bytes: &[u8]) -> Text {
    Text::from_bytes(bytes)
}

fn channel(name: &[u8], pixel_type: PixelType) -> Channel {
    Channel {
        name: text(name),
        pixel_type,
        is_linear: true,
        reserved: [0, -1, 2],
        x_sampling: 1,
        y_sampling: 2,
    }
}

fn all_values() -> Vec<AttributeValue> {
    vec![
        AttributeValue::I32Box2(I32Box2 { x_min: -1, y_min: 2, x_max: 3, y_max: i32::MAX }),
        AttributeValue::F32Box2(F32Box2 {
            x_min: 0.5f32.to_bits(),
            y_min: f32::NAN.to_bits(),
            x_max: 0,
            y_max: u32::MAX,
        }),
        AttributeValue::ChannelList(ChannelList::new(vec![
            channel(b"A", PixelType::F16),
            channel(b"Z.depth", PixelType::U32),
        ])),
        AttributeValue::Chromaticities(Chromaticities {
            red_x: 1,
            red_y: 2,
            green_x: 3,
            green_y: 4,
            blue_x: 5,
            blue_y: 6,
            white_x: 7,
            white_y: 8,
        }),
        AttributeValue::Compression(Compression::PIZ),
        AttributeValue::F64(1.5f64.to_bits()),
        AttributeValue::EnvironmentMap(EnvironmentMap::Cube),
        AttributeValue::F32(1.0f32.to_bits()),
        AttributeValue::I32(i32::MIN),
        AttributeValue::KeyCode(KeyCode {
            film_manufacturer_code: 1,
            film_type: 2,
            film_roll_prefix: 3,
            count: 4,
            perforation_offset: 5,
            perforations_per_frame: 6,
            perforations_per_count: 7,
        }),
        AttributeValue::LineOrder(LineOrder::RandomY),
        AttributeValue::F32Matrix3x3([1, 2, 3, 4, 5, 6, 7, 8, 9]),
        AttributeValue::F32Matrix4x4([16, 15, 14, 13, 12, 11, 10, 9, 8, 7, 6, 5, 4, 3, 2, 1]),
        AttributeValue::Preview(Preview { width: 2, height: 1, pixel_data: vec![1, -2, 3, -4, 5, 6, 7, -128] }),
        AttributeValue::Rational(-3, 4),
        AttributeValue::Text(ParsedText::parse(text(b"any text \xFF\0 at all"))),
        AttributeValue::Text(ParsedText::parse(text(b"deeptile"))),
        AttributeValue::TextVector(vec![text(b"one"), text(b"two words")]),
        AttributeValue::TextVector(Vec::new()),
        AttributeValue::TileDescription(TileDescription {
            x_size: 64,
            y_size: 32,
            level_mode: LevelMode::RipMap,
            rounding_mode: RoundingMode::Up,
        }),
        AttributeValue::TimeCode(1, 2),
        AttributeValue::I32Vec2(-1, 1),
        AttributeValue::F32Vec2(1, 2),
        AttributeValue::I32Vec3(-1, 0, 1),
        AttributeValue::F32Vec3(1, 2, 3),
    ]
}

#[test]
fn every_kind_of_value_is_read_as_written() {
    for value in all_values() {
        let attribute = Attribute { name: text(b"someName"), value };
        let mut bytes = vec![0xAA];
        assert_eq!(attribute.write(&mut bytes, false), Ok(()));
        bytes.extend_from_slice(&[0xBB, 0xCC]);
        let mut read = ByteReader::new(&bytes);
        assert_eq!(read.read_u8(), Ok(0xAA));
        assert_eq!(Attribute::read(&mut read).as_ref(), Ok(&attribute));
        assert_eq!(read.remaining_len(), 2);
        assert_eq!(read.position(), bytes.len() - 2);

        let size_at = 1 + 9 + attribute.value.kind_name().len() + 1;
        let size = i32::from_le_bytes(bytes[size_at..size_at + 4].try_into().unwrap());
        assert_eq!(size as usize, attribute.value.byte_size());
        assert_eq!(bytes.len(), size_at + 4 + size as usize + 2);

        let mut again = Vec::new();
        Attribute::read(&mut ByteReader::new(&bytes[1..])).unwrap().write(&mut again, true).unwrap();
        assert_eq!(again, &bytes[1..bytes.len() - 2]);
        assert_eq!(attribute.clone(), attribute);
    }
}

#[test]
fn kind_names_are_those_of_the_format() {
    let names: Vec<&[u8]> = all_values().iter().map(|value| value.kind_name()).collect();
    let expected: Vec<&[u8]> = vec![
        b"box2i", b"box2f", b"chlist", b"chromaticities", b"compression", b"double", b"envmap",
        b"float", b"int", b"keycode", b"lineOrder", b"m33f", b"m44f", b"preview", b"rational",
        b"string", b"string", b"stringvector", b"stringvector", b"tiledesc", b"timecode", b"v2i",
        b"v2f", b"v3i", b"v3f",
    ];
    assert_eq!(names, expected);
    assert!(AttributeValue::is_known_kind(&text(b"v2i")));
    assert!(!AttributeValue::is_known_kind(&text(b"vec2i")));
}

#[test]
fn channel_list_bytes_are_exact() {
    let list = ChannelList::new(vec![channel(b"G", PixelType::F32)]);
    assert_eq!(list.len(), 1);
    assert_eq!(list.get(0).unwrap().name.to_vec(), b"G".to_vec());
    assert!(list.get(1).is_none());
    let mut bytes = Vec::new();
    Channel::write_list(&list, &mut bytes, false).unwrap();
    assert_eq!(
        bytes,
        vec![b'G', 0, 2, 0, 0, 0, 1, 0, 0xFF, 2, 1, 0, 0, 0, 2, 0, 0, 0, 0]
    );
    assert_eq!(Channel::read_list(&mut ByteReader::new(&bytes)), Ok(list.clone()));
    assert_eq!(list.clone(), list);
    let mut wrong = bytes.clone();
    wrong[2] = 3;
    assert_eq!(
        Channel::read_list(&mut ByteReader::new(&wrong)),
        Err(Error::InvalidContent {
            what: Value::Enum("pixelType"),
            required: Required::Range { min: 0, max: 2 }
        })
    );
    wrong[2] = 2;
    wrong[6] = 2;
    assert_eq!(
        Channel::read_list(&mut ByteReader::new(&wrong)),
        Err(Error::InvalidContent {
            what: Value::Enum("pLinear"),
            required: Required::Range { min: 0, max: 1 }
        })
    );
    assert_eq!(Channel::read_list(&mut ByteReader::new(&bytes[0..18])), Err(Error::Io));
}

#[test]
fn tile_description_packs_both_modes_into_one_byte() {
    let tiles = TileDescription {
        x_size: 1,
        y_size: 2,
        level_mode: LevelMode::RipMap,
        rounding_mode: RoundingMode::Up,
    };
    assert_eq!(tiles.dimensions(), (1, 2));
    let mut bytes = Vec::new();
    tiles.write(&mut bytes).unwrap();
    assert_eq!(bytes, vec![1, 0, 0, 0, 2, 0, 0, 0, 18]);
    assert_eq!(TileDescription::read(&mut ByteReader::new(&bytes)), Ok(tiles));
    bytes[8] = 3;
    assert_eq!(
        TileDescription::read(&mut ByteReader::new(&bytes)),
        Err(Error::InvalidContent {
            what: Value::Enum("level mode"),
            required: Required::Range { min: 0, max: 2 }
        })
    );
    bytes[8] = 0x21;
    assert_eq!(
        TileDescription::read(&mut ByteReader::new(&bytes)),
        Err(Error::InvalidContent {
            what: Value::Enum("rounding mode"),
            required: Required::Range { min: 0, max: 1 }
        })
    );
}

#[test]
fn choices_are_read_from_their_numbers() {
    for (code, compression) in [
        Compression::Uncompressed,
        Compression::RLE,
        Compression::ZIP1,
        Compression::ZIP16,
        Compression::PIZ,
        Compression::PXR24,
        Compression::B44,
        Compression::B44A,
    ]
    .into_iter()
    .enumerate()
    {
        let mut bytes = Vec::new();
        compression.write(&mut bytes).unwrap();
        assert_eq!(bytes, vec![code as u8]);
        assert_eq!(Compression::read(&mut ByteReader::new(&bytes)), Ok(compression));
    }
    assert_eq!(
        Compression::read(&mut ByteReader::new(&[8])),
        Err(Error::InvalidContent {
            what: Value::Enum("compression"),
            required: Required::Range { min: 0, max: 7 }
        })
    );
    assert_eq!(
        LineOrder::read(&mut ByteReader::new(&[3])),
        Err(Error::InvalidContent {
            what: Value::Enum("lineOrder"),
            required: Required::Range { min: 0, max: 2 }
        })
    );
    assert_eq!(
        EnvironmentMap::read(&mut ByteReader::new(&[2])),
        Err(Error::InvalidContent {
            what: Value::Enum("envmap"),
            required: Required::Range { min: 0, max: 1 }
        })
    );
    assert_eq!(EnvironmentMap::read(&mut ByteReader::new(&[])), Err(Error::Io));
    assert_eq!(PixelType::read(&mut ByteReader::new(&[1, 0, 0, 0])), Ok(PixelType::F16));
    assert_eq!(PixelType::F16.bytes_per_sample(), 2);
    assert_eq!(PixelType::F32.bytes_per_sample(), 4);
    assert_eq!(PixelType::U32.bytes_per_sample(), 4);
    assert_eq!(Compression::ZIP16.scan_lines_per_block(), 16);
    assert_eq!(Compression::RLE.scan_lines_per_block(), 1);
    assert_eq!(Compression::PIZ.scan_lines_per_block(), 32);
    assert!(Compression::PIZ.is_lossless());
    assert!(!Compression::B44.is_lossless());
}

#[test]
fn sizes_that_contradict_the_value_are_refused() {
    let attribute = Attribute { name: text(b"n"), value: AttributeValue::I32(5) };
    let mut bytes = Vec::new();
    attribute.write(&mut bytes, false).unwrap();
    assert_eq!(bytes, b"n\0int\0\x04\0\0\0\x05\0\0\0".to_vec());
    let mut wrong = bytes.clone();
    wrong[6] = 3;
    assert_eq!(
        Attribute::read(&mut ByteReader::new(&wrong)),
        Err(Error::InvalidContent {
            what: Value::Attribute("size"),
            required: Required::Exact("the byte size of the value")
        })
    );
    wrong[6] = 0xFF;
    wrong[7] = 0xFF;
    wrong[8] = 0xFF;
    wrong[9] = 0xFF;
    assert_eq!(Attribute::read(&mut ByteReader::new(&wrong)), Err(Error::InvalidSize));

    let texts = b"t\0stringvector\0\x0A\0\0\0\x03\0\0\0abc\x02\0\0\0de";
    assert_eq!(
        Attribute::read(&mut ByteReader::new(texts)),
        Err(Error::InvalidContent {
            what: Value::Attribute("stringvector"),
            required: Required::Exact("text sizes that add up to the attribute size")
        })
    );
    let long = Attribute {
        name: text(b"t"),
        value: AttributeValue::Text(ParsedText::parse(text(&[b'x'; 1025]))),
    };
    let mut bytes = Vec::new();
    long.write(&mut bytes, false).unwrap();
    assert_eq!(Attribute::read(&mut ByteReader::new(&bytes)), Err(Error::InvalidSize));

    let preview = Preview { width: 2, height: 2, pixel_data: vec![0; 15] };
    let mut bytes = vec![1];
    assert_eq!(
        preview.write(&mut bytes),
        Err(Error::InvalidContent {
            what: Value::Attribute("preview"),
            required: Required::Exact("4 * width * height bytes")
        })
    );
    assert_eq!(bytes, vec![1]);
    let huge = [0xFF, 0xFF, 0xFF, 0xFF, 0xFF, 0xFF, 0xFF, 0xFF, 1, 2, 3];
    assert_eq!(Preview::read(&mut ByteReader::new(&huge)), Err(Error::Io));
}

#[test]
fn values_are_taken_as_their_type_only() {
    let tiles = TileDescription {
        x_size: 1,
        y_size: 1,
        level_mode: LevelMode::One,
        rounding_mode: RoundingMode::Down,
    };
    let wrong = |required| Error::InvalidContent {
        what: Value::Type("attribute"),
        required: Required::Exact(required),
    };
    let number = AttributeValue::I32(3);
    assert_eq!(number.to_i32(), Ok(3));
    assert_eq!(number.to_tile_description(), Err(wrong("tiledesc")));
    assert_eq!(number.to_i32_box_2(), Err(wrong("box2i")));
    assert_eq!(number.to_compression(), Err(wrong("compression")));
    assert_eq!(number.to_text(), Err(wrong("string")));
    assert_eq!(number.to_channel_list(), Err(wrong("chlist")));
    assert_eq!(number.to_chromaticities(), Err(wrong("chromaticities")));
    assert_eq!(AttributeValue::TileDescription(tiles).to_tile_description(), Ok(tiles));
    assert_eq!(AttributeValue::TileDescription(tiles).to_i32(), Err(wrong("i32")));
    assert_eq!(
        AttributeValue::Compression(Compression::RLE).to_compression(),
        Ok(Compression::RLE)
    );
    let parsed = ParsedText::parse(text(b"tiledimage"));
    assert_eq!(parsed, ParsedText::Tile);
    assert_eq!(AttributeValue::Text(parsed.clone()).to_text(), Ok(&parsed));
}
