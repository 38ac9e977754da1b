use exr::error::Error;
use exr::io::{
    bytes_equal, write_i32, write_i8, write_i8_array, write_u16, write_u16_array, write_u32,
    write_u32_array, write_u64, write_u8, write_u8_array, ByteReader,
};

#[test]
fn numbers_are_written_lowest_byte_first() {
    let mut bytes = Vec::new();
    write_u8(&mut bytes, 0x12);
    write_i8(&mut bytes, -2);
    write_u16(&mut bytes, 0x3C00);
    write_u32(&mut bytes, 0x0102_0304);
    write_i32(&mut bytes, -2);
    write_u64(&mut bytes, 0x0102_0304_0506_0708);
    assert_eq!(
        bytes,
        vec![
            0x12, 0xFE, 0x00, 0x3C, 4, 3, 2, 1, 0xFE, 0xFF, 0xFF, 0xFF, 8, 7, 6, 5, 4, 3, 2, 1
        ]
    );
    let mut read = ByteReader::new(&bytes);
    assert_eq!(read.read_u8(), Ok(0x12));
    assert_eq!(read.read_i8(), Ok(-2));
    assert_eq!(read.read_u16(), Ok(0x3C00));
    assert_eq!(read.read_u32(), Ok(0x0102_0304));
    assert_eq!(read.read_i32(), Ok(-2));
    assert_eq!(read.position(), 12);
    assert_eq!(read.read_u64(), Ok(0x0102_0304_0506_0708));
    assert_eq!(read.remaining_len(), 0);
    assert_eq!(read.read_u8(), Err(Error::Io));
}

#[test]
fn extreme_numbers_are_read_as_written() {
    for value in [i32::MIN, -1, 0, 1, i32::MAX] {
        let mut bytes = Vec::new();
        write_i32(&mut bytes, value);
        assert_eq!(bytes, value.to_le_bytes().to_vec());
        assert_eq!(ByteReader::new(&bytes).read_i32(), Ok(value));
    }
    for value in [0, 1, 0xFF, 0x100, 0xFFFF_FFFF, u64::MAX] {
        let mut bytes = Vec::new();
        write_u64(&mut bytes, value);
        assert_eq!(bytes, value.to_le_bytes().to_vec());
        assert_eq!(ByteReader::new(&bytes).read_u64(), Ok(value));
    }
    for value in [i8::MIN, -1, 0, i8::MAX] {
        let mut bytes = Vec::new();
        write_i8(&mut bytes, value);
        assert_eq!(ByteReader::new(&bytes).read_i8(), Ok(value));
    }
}

#[test]
fn arrays_are_read_as_written() {
    let mut bytes = Vec::new();
    write_u8_array(&mut bytes, &[1, 2]);
    write_i8_array(&mut bytes, &[-1, 3]);
    write_u16_array(&mut bytes, &[0x0102, 0xFFFE]);
    write_u32_array(&mut bytes, &[1, 0x8000_0000]);
    assert_eq!(bytes, vec![1, 2, 0xFF, 3, 2, 1, 0xFE, 0xFF, 1, 0, 0, 0, 0, 0, 0, 0x80]);
    let mut read = ByteReader::new(&bytes);
    assert_eq!(read.read_u8_vec(2, 2), Ok(vec![1, 2]));
    assert_eq!(read.read_i8_vec(2), Ok(vec![-1, 3]));
    assert_eq!(read.skip(4), Ok(()));
    assert_eq!(read.read_u32_vec(2), Ok(vec![1, 0x8000_0000]));
    assert_eq!(read.read_u32_vec(1), Err(Error::Io));
    assert_eq!(read.skip(1), Err(Error::Io));
    assert_eq!(read.skip_if_eq(0), Err(Error::Io));

    let mut read = ByteReader::new(&bytes);
    assert_eq!(read.read_u8_vec(3, 2), Err(Error::InvalidSize));
    assert_eq!(read.read_u8_vec(17, 20), Err(Error::Io));
    assert_eq!(read.read_i8_vec(17), Err(Error::Io));
    assert_eq!(read.skip_if_eq(2), Ok(false));
    assert_eq!(read.skip_if_eq(1), Ok(true));
    assert_eq!(read.position(), 1);
    assert!(bytes_equal(b"abc", b"abc"));
    assert!(!bytes_equal(b"abc", b"abd"));
    assert!(!bytes_equal(b"abc", b"ab"));
}
