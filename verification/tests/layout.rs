use exr::block::Sample;
use exr::chunk::{compute_chunk_offsets, patch_offset_table, read_offset_table, write_offset_table};
use exr::error::Error;
use exr::file::attributes::{Attribute, AttributeValue, I32Box2, Text};
use exr::image::RgbaPixel;
use exr::io::ByteReader;
use exr::math::{IntRect, Vec2};
use exr::meta::{Header, MagicNumber, Requirements};

#[test]
fn rectangles_become_boxes_and_back() {
    let rectangle = IntRect::new(Vec2(-3, 4), Vec2(10, 20));
    let bounds = I32Box2 { x_min: -3, y_min: 4, x_max: 6, y_max: 23 };
    assert_eq!(rectangle.to_box(), Ok(bounds));
    assert_eq!(IntRect::from_box(bounds), Ok(rectangle));
    assert_eq!(bounds.dimensions(), (9, 19));

    let one = I32Box2 { x_min: 5, y_min: 5, x_max: 5, y_max: 5 };
    assert_eq!(IntRect::from_box(one), Ok(IntRect::new(Vec2(5, 5), Vec2(1, 1))));

    assert!(IntRect::new(Vec2(0, 0), Vec2(0, 4)).to_box().is_err());
    assert!(IntRect::new(Vec2(i32::MAX, 0), Vec2(2, 1)).to_box().is_err());
    assert_eq!(
        IntRect::new(Vec2(i32::MAX, 0), Vec2(1, 1)).to_box(),
        Ok(I32Box2 { x_min: i32::MAX, y_min: 0, x_max: i32::MAX, y_max: 0 })
    );
    let turned = I32Box2 { x_min: 1, y_min: 0, x_max: 0, y_max: 0 };
    assert!(IntRect::from_box(turned).is_err());
}

#[test]
fn areas_are_computed_without_overflow() {
    assert_eq!(Vec2(7usize, 6usize).checked_area(), Some(42));
    assert_eq!(Vec2(usize::MAX, 2usize).checked_area(), None);
    assert_eq!(Vec2(0usize, usize::MAX).checked_area(), Some(0));
    assert_eq!(Vec2(3usize, 4usize).x(), 3);
    assert_eq!(Vec2(3usize, 4usize).y(), 4);
}

#[test]
fn offsets_follow_the_sizes_of_the_chunks() {
    assert_eq!(compute_chunk_offsets(100, &[10, 20, 30]), Ok(vec![100, 110, 130]));
    assert_eq!(compute_chunk_offsets(7, &[]), Ok(vec![]));
    assert_eq!(compute_chunk_offsets(u64::MAX - 5, &[5]), Ok(vec![u64::MAX - 5]));
    assert_eq!(compute_chunk_offsets(u64::MAX - 5, &[3, 3]), Err(Error::InvalidSize));
}

#[test]
fn offset_tables_are_patched_in_place() {
    let mut file: Vec<u8> = vec![0xAA; 20];
    assert_eq!(patch_offset_table(&mut file, 2, &[0x0102, 0x0304]), Ok(()));
    let mut expected: Vec<u8> = vec![0xAA; 2];
    expected.extend_from_slice(&[2, 1, 0, 0, 0, 0, 0, 0, 4, 3, 0, 0, 0, 0, 0, 0]);
    expected.extend_from_slice(&[0xAA; 2]);
    assert_eq!(file, expected);

    let before = file.clone();
    assert_eq!(patch_offset_table(&mut file, 5, &[1, 2]), Err(Error::Io));
    assert_eq!(file, before);
    assert_eq!(patch_offset_table(&mut file, usize::MAX, &[1]), Err(Error::Io));
    assert_eq!(file, before);
    assert_eq!(patch_offset_table(&mut file, 20, &[]), Ok(()));
    assert_eq!(file, before);
}

#[test]
fn one_offset_table_is_read_as_written() {
    let table: Vec<u64> = vec![0, 1, u64::MAX, 0x0807_0605_0403_0201];
    let mut bytes = vec![0x55];
    write_offset_table(&mut bytes, &table);
    assert_eq!(bytes.len(), 1 + 4 * 8);
    assert_eq!(&bytes[25..33], &[1, 2, 3, 4, 5, 6, 7, 8]);
    let mut read = ByteReader::new(&bytes[1..]);
    assert_eq!(read_offset_table(&mut read, 4), Ok(table.clone()));
    assert_eq!(read.remaining_len(), 0);
    let mut read = ByteReader::new(&bytes[1..]);
    assert_eq!(read_offset_table(&mut read, 3), Ok(table[0..3].to_vec()));
    assert_eq!(read.remaining_len(), 8);
    let mut read = ByteReader::new(&bytes[1..]);
    assert_eq!(read_offset_table(&mut read, 5), Err(Error::Io));
}

#[test]
fn files_start_with_the_magic_number() {
    let mut bytes = Vec::new();
    MagicNumber::write(&mut bytes);
    assert_eq!(bytes, vec![0x76, 0x2F, 0x31, 0x01]);
    let mut read = ByteReader::new(&bytes);
    assert_eq!(MagicNumber::validate_exr(&mut read), Ok(()));
    assert_eq!(read.remaining_len(), 0);

    let other = [0x76, 0x2F, 0x31, 0x02];
    let mut read = ByteReader::new(&other);
    assert_eq!(MagicNumber::validate_exr(&mut read), Err(Error::InvalidMagic));
    let short = [0x76, 0x2F, 0x31];
    let mut read = ByteReader::new(&short);
    assert_eq!(MagicNumber::validate_exr(&mut read), Err(Error::Io));
}

#[test]
fn headers_without_a_required_attribute_are_refused() {
    let requirements = Requirements::new(2, false, false, false, false);
    assert_eq!(
        Header::from_attributes(&[], &requirements),
        Err(Error::MissingAttribute { name: "channels" })
    );
    let owner = Attribute { name: Text::from_bytes(b"owner"), value: AttributeValue::I32(7) };
    assert_eq!(
        Header::from_attributes(&[owner], &requirements),
        Err(Error::MissingAttribute { name: "channels" })
    );
    let channels = Attribute { name: Text::from_bytes(b"channels"), value: AttributeValue::I32(7) };
    assert_eq!(
        Header::from_attributes(&[channels], &requirements),
        Err(Error::InvalidAttribute { name: "channels" })
    );
}

#[test]
fn pixels_are_made_of_samples_and_taken_apart() {
    let red = Sample::F32(0x3F00_0000);
    let green = Sample::F16(0x3800);
    let blue = Sample::U32(7);
    let alpha = Sample::F32(0x3E80_0000);
    let one = Sample::F32(0x3F80_0000);

    assert_eq!(RgbaPixel::from((red, green, blue)), RgbaPixel::rgb(red, green, blue));
    assert_eq!(RgbaPixel::from([red, green, blue]), RgbaPixel::rgb(red, green, blue));
    assert_eq!(
        RgbaPixel::from((red, green, blue, alpha)),
        RgbaPixel::rgba(red, green, blue, alpha)
    );
    assert_eq!(
        RgbaPixel::from([red, green, blue, alpha]),
        RgbaPixel::new(red, green, blue, Some(alpha))
    );

    let opaque = RgbaPixel::rgb(red, green, blue);
    let clear = RgbaPixel::rgba(red, green, blue, alpha);
    let three: (Sample, Sample, Sample) = clear.into();
    assert_eq!(three, (red, green, blue));
    let four: (Sample, Sample, Sample, Sample) = opaque.into();
    assert_eq!(four, (red, green, blue, one));
    let four: (Sample, Sample, Sample, Sample) = clear.into();
    assert_eq!(four, (red, green, blue, alpha));
    let three: [Sample; 3] = opaque.into();
    assert_eq!(three, [red, green, blue]);
    let four: [Sample; 4] = opaque.into();
    assert_eq!(four, [red, green, blue, one]);
    let four: [Sample; 4] = clear.into();
    assert_eq!(four, [red, green, blue, alpha]);
}
