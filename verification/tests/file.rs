use exr::chunk::{read_offset_tables, write_offset_table, Block, Chunk};
use exr::compression::Compression;
use exr::error::Error;
use exr::file::attributes::{Attribute, AttributeValue, PixelType, Text, TileDescription, LevelMode, RoundingMode};
use exr::image::simple::{Channel, Channels, Image, Part, Samples};
use exr::io::ByteReader;
use exr::math::{IntRect, Vec2};
use exr::meta::header::UnknownAttribute;
use exr::meta::MetaData;

fn gray_image() -> Image {
    let samples = Samples::F16(vec![half::f16::ONE.to_bits(); 256]);
    let channel = Channel::new(Text::from_bytes(b"Y"), false, samples);
    let mut part = Part::new(
        Text::from_bytes(b"main"),
        Compression::Uncompressed,
        IntRect::new(Vec2(0, 0), Vec2(16, 16)),
        Channels::from_vec(vec![channel]),
    );
    part.attributes.push(Attribute {
        name: Text::from_bytes(b"owner"),
        value: AttributeValue::I32(7),
    });
    Image::new_from_single_part(part)
}

#[test]
fn meta_data_is_read_as_written() {
    let meta_data = gray_image().infer_meta_data().unwrap();
    let mut bytes = Vec::new();
    meta_data.write(&mut bytes).unwrap();
    assert_eq!(&bytes[0..4], &[0x76, 0x2F, 0x31, 0x01]);
    let mut read = ByteReader::new(&bytes);
    let (again, unknown) = MetaData::read(&mut read, false).unwrap();
    assert_eq!(again, meta_data);
    assert_eq!(unknown, vec![Vec::<UnknownAttribute>::new()]);
    assert_eq!(read.remaining_len(), 0);
    assert_eq!(again.headers[0].chunk_count, 16);
    assert_eq!(again.headers[0].channels.get(0).unwrap().pixel_type, PixelType::F16);

    let mut rewritten = Vec::new();
    again.write(&mut rewritten).unwrap();
    assert_eq!(rewritten, bytes);
}

fn with_attribute(attribute: &[u8]) -> Vec<u8> {
    let meta_data = gray_image().infer_meta_data().unwrap();
    let mut bytes = Vec::new();
    meta_data.write(&mut bytes).unwrap();
    let end = bytes.pop();
    assert_eq!(end, Some(0));
    bytes.extend_from_slice(attribute);
    bytes.push(0);
    bytes
}

#[test]
fn unknown_attribute_is_skipped_or_refused() {
    let bytes = with_attribute(b"myStuff\0bogus\0\x07\0\0\0abcdefg");
    let mut read = ByteReader::new(&bytes);
    let (meta_data, unknown) = MetaData::read(&mut read, true).unwrap();
    assert_eq!(meta_data, gray_image().infer_meta_data().unwrap());
    assert_eq!(
        unknown,
        vec![vec![UnknownAttribute {
            name: Text::from_bytes(b"myStuff"),
            kind: Text::from_bytes(b"bogus"),
            byte_size: 7,
        }]]
    );
    let mut read = ByteReader::new(&bytes);
    assert_eq!(
        MetaData::read(&mut read, false),
        Err(Error::UnknownAttributeType { bytes_to_skip: 7 })
    );
}

#[test]
fn tiles_in_scan_line_file_are_refused() {
    let tiles = Attribute {
        name: Text::from_bytes(b"tiles"),
        value: AttributeValue::TileDescription(TileDescription {
            x_size: 4,
            y_size: 4,
            level_mode: LevelMode::One,
            rounding_mode: RoundingMode::Down,
        }),
    };
    let mut attribute = Vec::new();
    tiles.write(&mut attribute, true).unwrap();
    let bytes = with_attribute(&attribute);
    let mut read = ByteReader::new(&bytes);
    assert_eq!(MetaData::read(&mut read, true), Err(Error::InvalidAttribute { name: "tiles" }));
}

#[test]
fn offset_tables_have_one_offset_for_each_chunk() {
    let meta_data = gray_image().infer_meta_data().unwrap();
    let offsets: Vec<u64> = (0..16).map(|index| 1000 + 40 * index).collect();
    let mut bytes = Vec::new();
    write_offset_table(&mut bytes, &offsets);
    assert_eq!(bytes.len(), 16 * 8);
    let mut read = ByteReader::new(&bytes);
    assert_eq!(read_offset_tables(&mut read, &meta_data.headers), Ok(vec![offsets]));
    let mut short = ByteReader::new(&bytes[0..100]);
    assert_eq!(read_offset_tables(&mut short, &meta_data.headers), Err(Error::Io));
}

#[test]
fn chunk_is_read_as_written() {
    let meta_data = gray_image().infer_meta_data().unwrap();
    let chunk = Chunk {
        part_number: 0,
        block: Block::ScanLine { y_coordinate: 3, compressed_pixels: vec![9; 32] },
    };
    let mut bytes = Vec::new();
    chunk.write(&mut bytes, false).unwrap();
    assert_eq!(&bytes[0..8], &[3, 0, 0, 0, 32, 0, 0, 0]);
    let mut read = ByteReader::new(&bytes);
    assert_eq!(Chunk::read(&mut read, false, &meta_data.headers), Ok(chunk));
    let mut short = ByteReader::new(&bytes[0..20]);
    assert_eq!(Chunk::read(&mut short, false, &meta_data.headers), Err(Error::Io));
    let large = Chunk {
        part_number: 0,
        block: Block::ScanLine { y_coordinate: 3, compressed_pixels: vec![9; 33] },
    };
    let mut bytes = Vec::new();
    large.write(&mut bytes, false).unwrap();
    let mut read = ByteReader::new(&bytes);
    assert_eq!(Chunk::read(&mut read, false, &meta_data.headers), Err(Error::InvalidSize));
}
