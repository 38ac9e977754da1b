use exr::error::{Error, Required, Value};
use exr::file::attributes::{Attribute, AttributeValue, I32Box2, Text};
use exr::io::ByteReader;

#[test]
fn box_attribute_round_trips() {
    let attribute = Attribute {
        name: Text::from_bytes(b"dataWindow"),
        value: AttributeValue::I32Box2(I32Box2 { x_min: 0, y_min: -3, x_max: 15, y_max: 15 }),
    };
    let mut bytes = Vec::new();
    attribute.write(&mut bytes, false).unwrap();
    let mut expected = b"dataWindow\0box2i\0".to_vec();
    expected.extend_from_slice(&[16, 0, 0, 0]);
    expected.extend_from_slice(&[0, 0, 0, 0, 0xFD, 0xFF, 0xFF, 0xFF, 15, 0, 0, 0, 15, 0, 0, 0]);
    assert_eq!(bytes, expected);
    let mut read = ByteReader::new(&bytes);
    assert_eq!(Attribute::read(&mut read), Ok(attribute));
    assert_eq!(read.remaining_len(), 0);
}

#[test]
fn short_names_reject_long_text() {
    let name = Text::from_bytes(&[b'a'; 32]);
    let mut bytes = vec![7u8];
    assert_eq!(
        name.write_null_terminated(&mut bytes, Some(false)),
        Err(Error::InvalidContent { what: Value::Text, required: Required::Max(31) })
    );
    assert_eq!(bytes, vec![7u8]);
    assert_eq!(name.write_null_terminated(&mut bytes, Some(true)), Ok(()));
    assert_eq!(bytes.len(), 34);
}
