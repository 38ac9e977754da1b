use exr::compression::Compression;
use exr::error::Error;
use exr::file::attributes::{LevelMode, RoundingMode, TileDescription};
use exr::io::ByteReader;
use exr::math::Vec2;
use exr::meta::header::UnknownAttribute;
use exr::meta::{
    compute_chunk_count, compute_level_count, compute_level_size, mip_map_levels,
    BlockDescription, MagicNumber, Requirements,
};

#[test]
fn rounding_divides_up_and_down() {
    assert_eq!(RoundingMode::Up.divide(10, 4), 3);
    assert_eq!(RoundingMode::Down.divide(10, 4), 2);
    assert_eq!(RoundingMode::Up.divide(8, 4), 2);
    assert_eq!(RoundingMode::Up.divide(0, 4), 0);
    assert_eq!(RoundingMode::Up.divide(u32::MAX, 2), 0x8000_0000);
}

#[test]
fn mip_levels_of_ten_by_ten() {
    let levels = mip_map_levels(RoundingMode::Down, Vec2(10, 10));
    let sizes: Vec<(usize, usize)> = levels.iter().map(|(_, size)| (size.0, size.1)).collect();
    assert_eq!(sizes, vec![(10, 10), (5, 5), (2, 2), (1, 1)]);
    assert_eq!(compute_level_count(RoundingMode::Down, 10), 4);
    assert_eq!(compute_level_count(RoundingMode::Up, 10), 5);
    assert_eq!(compute_level_size(RoundingMode::Up, 10, 2), 3);
    assert_eq!(compute_level_size(RoundingMode::Down, 10, 70), 1);
    let tiles = TileDescription {
        x_size: 4,
        y_size: 4,
        level_mode: LevelMode::MipMap,
        rounding_mode: RoundingMode::Down,
    };
    assert_eq!(
        compute_chunk_count(Compression::Uncompressed, Vec2(10, 10), BlockDescription::Tiles(tiles)),
        Ok(15)
    );
    assert_eq!(
        compute_chunk_count(Compression::ZIP16, Vec2(10, 33), BlockDescription::ScanLines),
        Ok(3)
    );
}

#[test]
fn requirements_pack_into_version_bits() {
    let requirements = Requirements::new(2, true, false, true, false);
    assert_eq!(requirements.pack(), 2 | (1 << 10) | (1 << 12));
    let mut bytes = Vec::new();
    MagicNumber::write(&mut bytes);
    requirements.write(&mut bytes).unwrap();
    assert_eq!(bytes, vec![0x76, 0x2F, 0x31, 0x01, 0x02, 0x14, 0x00, 0x00]);
    let mut read = ByteReader::new(&bytes);
    assert_eq!(MagicNumber::validate_exr(&mut read), Ok(()));
    assert_eq!(Requirements::read(&mut read), Ok(requirements));
    let mut wrong = ByteReader::new(&[0x76, 0x2F, 0x31, 0x02]);
    assert_eq!(MagicNumber::validate_exr(&mut wrong), Err(Error::InvalidMagic));
    let mut newer = ByteReader::new(&[3, 0, 0, 0]);
    assert_eq!(Requirements::read(&mut newer), Err(Error::UnsupportedVersion));
    let _ = UnknownAttribute {
        name: exr::file::attributes::Text::from_bytes(b"a"),
        kind: exr::file::attributes::Text::from_bytes(b"b"),
        byte_size: 0,
    };
}
