use exr::block::{f16_is_nan, f32_is_nan, Sample};
use exr::chunk::{Block, BlockBounds, BlockCoordinates, TileCoordinates};
use exr::compression::{
    accept_decompressed, choose_stored_bytes, compress_uncompressed, decompress_uncompressed,
    is_stored_uncompressed, take_framed_pixels, Compression,
};
use exr::error::{Error, Required, Value};
use exr::file::attributes::{
    Channel, ChannelList, LevelMode, LineOrder, PixelType, RoundingMode, Text, TileDescription,
};
use exr::image::{
    AnyChannel, AnyChannels, Blocks, ContainsNaN, Encoding, FlatSamples, Image, Layer,
    LayerAttributes, Levels, RgbaChannels, RgbaPixel, RgbaSampleTypes, RipMaps,
};
use exr::math::{IntRect, Vec2};
use exr::meta::{
    calculate_block_size, ceil_log_2, compute_block_count, divide, floor_log_2, rip_map_levels,
    BlockDescription, Header,
};
use exr::sort::{bytes_precede, sort_by_name};

fn header(size: Vec2<usize>, blocks: BlockDescription, compression: Compression) -> Header {
    let channels = ChannelList::new(
        [PixelType::F16, PixelType::F32, PixelType::U32]
            .into_iter()
            .zip([b"A", b"B", b"C"])
            .map(|(pixel_type, name)| Channel {
                name: Text::from_bytes(name),
                pixel_type,
                is_linear: false,
                reserved: [0, 0, 0],
                x_sampling: 1,
                y_sampling: 1,
            })
            .collect(),
    );
    let window = IntRect::new(Vec2(-3, 5), size);
    Header {
        channels,
        compression,
        blocks,
        line_order: LineOrder::IncreasingY,
        data_window: window,
        display_window: window,
        pixel_aspect: 0x3F80_0000,
        screen_window_center: Vec2(0, 0),
        screen_window_width: 0x3F80_0000,
        name: None,
        custom_attributes: Vec::new(),
        chunk_count: 0,
        deep: false,
        deep_data_version: None,
        max_samples_per_pixel: None,
    }
}

fn tiles(level_mode: LevelMode) -> BlockDescription {
    BlockDescription::Tiles(TileDescription {
        x_size: 4,
        y_size: 4,
        level_mode,
        rounding_mode: RoundingMode::Down,
    })
}

fn tile(x: i32, y: i32, level_x: i32, level_y: i32) -> BlockCoordinates {
    BlockCoordinates::Tile(TileCoordinates {
        tile_index: Vec2(x, y),
        level_index: Vec2(level_x, level_y),
    })
}

fn coordinate_error() -> Error {
    Error::InvalidContent {
        what: Value::Attribute("block coordinates"),
        required: Required::Exact("the start of a block within the layer"),
    }
}

#[test]
fn logarithms_and_quotients_round_as_asked() {
    assert_eq!(floor_log_2(0), 0);
    assert_eq!(floor_log_2(1), 0);
    assert_eq!(floor_log_2(9), 3);
    assert_eq!(floor_log_2(usize::MAX), usize::BITS as usize - 1);
    assert_eq!(ceil_log_2(1), 0);
    assert_eq!(ceil_log_2(8), 3);
    assert_eq!(ceil_log_2(9), 4);
    assert_eq!(ceil_log_2(usize::MAX), usize::BITS as usize);
    assert_eq!(divide(RoundingMode::Up, 9, 4), 3);
    assert_eq!(divide(RoundingMode::Down, 9, 4), 2);
    assert_eq!(divide(RoundingMode::Up, usize::MAX, 2), usize::MAX / 2 + 1);
    assert_eq!(compute_block_count(10, 4), 3);
    assert_eq!(calculate_block_size(10, 4, 4), Ok(4));
    assert_eq!(calculate_block_size(10, 4, 8), Ok(2));
    assert!(calculate_block_size(10, 4, 10).is_err());
}

#[test]
fn tiles_at_the_edge_are_cut_down() {
    let header = header(Vec2(10, 7), tiles(LevelMode::One), Compression::RLE);
    let bounds = |x, y| header.bounds_of(tile(x, y, 0, 0));
    assert_eq!(
        bounds(0, 0),
        Ok(BlockBounds { level: Vec2(0, 0), position: Vec2(0, 0), size: Vec2(4, 4) })
    );
    assert_eq!(
        bounds(2, 1),
        Ok(BlockBounds { level: Vec2(0, 0), position: Vec2(8, 4), size: Vec2(2, 3) })
    );
    assert_eq!(bounds(3, 0), Err(coordinate_error()));
    assert_eq!(bounds(0, 2), Err(coordinate_error()));
    assert_eq!(bounds(-1, 0), Err(coordinate_error()));
    assert_eq!(header.bounds_of(tile(0, 0, 1, 1)), Err(Error::InvalidLevelIndex));
    assert_eq!(
        header.bounds_of(BlockCoordinates::ScanLine { y_coordinate: 5 }),
        Err(coordinate_error())
    );
    assert_eq!(header.block_byte_size(Vec2(2, 3)), 2 * 3 * (2 + 4 + 4));
    assert_eq!(header.max_block_size(), Vec2(4, 4));
    let block = tile(2, 1, 0, 0).with_pixels(vec![1, 2, 3]);
    assert_eq!(header.block_bounds(&block), bounds(2, 1));
    assert_eq!(block.coordinates(), tile(2, 1, 0, 0));
    assert_eq!(block.compressed_pixels(), &vec![1, 2, 3]);
    assert!(header.is_flat_full_resolution(tile(2, 1, 0, 0)));
    assert!(!header.is_flat_full_resolution(tile(0, 0, 1, 0)));
}

#[test]
fn blocks_are_counted_level_by_level() {
    let mips = header(Vec2(10, 10), tiles(LevelMode::MipMap), Compression::RLE);
    let expected = [
        (0, 0, 0),
        (1, 0, 0),
        (2, 0, 0),
        (0, 1, 0),
        (1, 1, 0),
        (2, 1, 0),
        (0, 2, 0),
        (1, 2, 0),
        (2, 2, 0),
        (0, 0, 1),
        (1, 0, 1),
        (0, 1, 1),
        (1, 1, 1),
        (0, 0, 2),
        (0, 0, 3),
    ];
    for (index, (x, y, level)) in expected.into_iter().enumerate() {
        assert_eq!(mips.block_at(index), Ok(tile(x, y, level, level)));
        assert!(mips.bounds_of(tile(x, y, level, level)).is_ok());
    }
    assert!(mips.block_at(15).is_err());
    assert_eq!(
        mips.bounds_of(tile(1, 1, 1, 1)),
        Ok(BlockBounds { level: Vec2(1, 1), position: Vec2(4, 4), size: Vec2(1, 1) })
    );
    assert_eq!(mips.bounds_of(tile(0, 0, 1, 2)), Err(Error::InvalidLevelIndex));
    assert_eq!(mips.bounds_of(tile(0, 0, 4, 4)), Err(Error::InvalidLevelIndex));

    let rips = header(Vec2(5, 2), tiles(LevelMode::RipMap), Compression::RLE);
    let levels = rip_map_levels(RoundingMode::Down, Vec2(5, 2));
    let expected = vec![
        (Vec2(0, 0), Vec2(5, 2)),
        (Vec2(1, 0), Vec2(2, 2)),
        (Vec2(2, 0), Vec2(1, 2)),
        (Vec2(0, 1), Vec2(5, 1)),
        (Vec2(1, 1), Vec2(2, 1)),
        (Vec2(2, 1), Vec2(1, 1)),
    ];
    assert_eq!(levels, expected);
    assert_eq!(rips.block_at(0), Ok(tile(0, 0, 0, 0)));
    assert_eq!(rips.block_at(1), Ok(tile(1, 0, 0, 0)));
    assert_eq!(rips.block_at(2), Ok(tile(0, 0, 1, 0)));
    assert_eq!(rips.block_at(4), Ok(tile(0, 0, 0, 1)));
    assert_eq!(rips.block_at(7), Ok(tile(0, 0, 2, 1)));
    assert!(rips.block_at(8).is_err());
    assert_eq!(
        rips.bounds_of(tile(1, 0, 0, 1)),
        Ok(BlockBounds { level: Vec2(0, 1), position: Vec2(4, 0), size: Vec2(1, 1) })
    );
}

#[test]
fn scan_line_blocks_start_at_whole_blocks() {
    let header = header(Vec2(10, 40), BlockDescription::ScanLines, Compression::ZIP16);
    assert_eq!(header.block_at(0), Ok(BlockCoordinates::ScanLine { y_coordinate: 5 }));
    assert_eq!(header.block_at(2), Ok(BlockCoordinates::ScanLine { y_coordinate: 37 }));
    assert!(header.block_at(3).is_err());
    let bounds = |y_coordinate| header.bounds_of(BlockCoordinates::ScanLine { y_coordinate });
    assert_eq!(
        bounds(21),
        Ok(BlockBounds { level: Vec2(0, 0), position: Vec2(0, 16), size: Vec2(10, 16) })
    );
    assert_eq!(
        bounds(37),
        Ok(BlockBounds { level: Vec2(0, 0), position: Vec2(0, 32), size: Vec2(10, 8) })
    );
    assert_eq!(bounds(6), Err(coordinate_error()));
    assert_eq!(bounds(4), Err(coordinate_error()));
    assert_eq!(bounds(45), Err(coordinate_error()));
    assert_eq!(header.bounds_of(tile(0, 0, 0, 0)), Err(coordinate_error()));
    assert_eq!(header.max_block_size(), Vec2(10, 16));
    let block = Block::ScanLine { y_coordinate: 37, compressed_pixels: Vec::new() };
    assert_eq!(header.block_bounds(&block), bounds(37));
}

#[test]
fn stored_bytes_are_the_shorter_of_both() {
    assert_eq!(choose_stored_bytes(vec![1, 2, 3], vec![9, 9]), vec![9, 9]);
    assert_eq!(choose_stored_bytes(vec![1, 2, 3], vec![9, 9, 9]), vec![1, 2, 3]);
    assert_eq!(choose_stored_bytes(vec![1, 2, 3], vec![9, 9, 9, 9]), vec![1, 2, 3]);
    assert!(is_stored_uncompressed(&[1, 2, 3], 3));
    assert!(!is_stored_uncompressed(&[1, 2], 3));
    assert_eq!(accept_decompressed(vec![1, 2, 3], 3), Ok(vec![1, 2, 3]));
    assert_eq!(accept_decompressed(vec![1, 2], 3), Err(Error::InvalidCompressedData));
    assert_eq!(accept_decompressed(vec![1, 2, 3, 4], 3), Err(Error::InvalidCompressedData));
    assert_eq!(take_framed_pixels(vec![1, 2, 3], vec![7], 3), Ok(vec![1, 2, 3]));
    assert_eq!(take_framed_pixels(vec![9, 9], vec![1, 2, 3], 3), Ok(vec![1, 2, 3]));
    assert_eq!(take_framed_pixels(vec![9, 9], vec![1, 2], 3), Err(Error::InvalidCompressedData));
    let stored = compress_uncompressed(vec![4, 5, 6]);
    assert_eq!(decompress_uncompressed(stored, 3), Ok(vec![4, 5, 6]));
    assert_eq!(decompress_uncompressed(vec![4, 5], 3), Err(Error::InvalidCompressedData));
}

#[test]
fn names_are_ordered_as_their_bytes() {
    assert!(bytes_precede(b"A", b"B"));
    assert!(bytes_precede(b"A", b"AA"));
    assert!(bytes_precede(b"Z", b"a"));
    assert!(bytes_precede(b"", b"a"));
    assert!(!bytes_precede(b"B", b"A"));
    assert!(!bytes_precede(b"A", b"A"));
    assert!(!bytes_precede(b"", b""));
    let channel = |name: &[u8], samples| AnyChannel::new(Text::from_bytes(name), samples);
    let sorted = sort_by_name(vec![channel(b"b", 1), channel(b"a", 2), channel(b"b", 3), channel(b"B", 4)]);
    let order: Vec<i32> = sorted.iter().map(|channel| channel.sample_data).collect();
    assert_eq!(order, vec![4, 2, 1, 3]);
    let channels = AnyChannels::new(vec![channel(b"R", 1), channel(b"G", 2), channel(b"A", 3)]);
    let names: Vec<String> = channels.list.iter().map(|channel| channel.name.to_string()).collect();
    assert_eq!(names, vec!["A", "G", "R"]);
    assert!(channels.list[0].quantize_linearly);
    assert!(!channels.list[1].quantize_linearly);
    assert!(!channel(b"y", 0).quantize_linearly);
    assert!(channel(b"YY", 0).quantize_linearly);
    assert_eq!(channel(b"Z", 0).sampling, Vec2(1, 1));
}

#[test]
fn levels_are_found_by_their_index() {
    let single = Levels::Singular(7);
    assert_eq!(single.get_level(Vec2(0, 0)), Ok(&7));
    assert_eq!(single.get_level(Vec2(1, 0)), Err(Error::InvalidLevelIndex));
    assert_eq!(single.levels_as_slice(), &[7]);
    assert_eq!(single.level_mode(), LevelMode::One);

    let mut mips = Levels::Mip(vec![10, 11, 12]);
    assert_eq!(mips.get_level(Vec2(2, 2)), Ok(&12));
    assert_eq!(mips.get_level(Vec2(1, 2)), Err(Error::InvalidLevelIndex));
    assert_eq!(mips.get_level(Vec2(3, 3)), Err(Error::InvalidLevelIndex));
    *mips.get_level_mut(Vec2(1, 1)).unwrap() = 21;
    assert_eq!(mips.levels_as_slice(), &[10, 21, 12]);
    assert_eq!(mips.get_level_mut(Vec2(0, 1)), Err(Error::InvalidLevelIndex));
    assert_eq!(mips.level_mode(), LevelMode::MipMap);

    let mut rips = RipMaps { map_data: vec![0, 1, 2, 3, 4, 5], level_count: Vec2(3, 2) };
    assert_eq!(rips.get_level_index(Vec2(2, 1)), 5);
    assert_eq!(rips.get_by_level(Vec2(1, 1)), Some(&4));
    assert_eq!(rips.get_by_level(Vec2(3, 0)), None);
    assert_eq!(rips.get_by_level(Vec2(0, 2)), None);
    *rips.get_by_level_mut(Vec2(0, 1)).unwrap() = 30;
    let mut levels = Levels::Rip(rips);
    assert_eq!(levels.get_level(Vec2(0, 1)), Ok(&30));
    assert_eq!(levels.get_level(Vec2(3, 1)), Err(Error::InvalidLevelIndex));
    *levels.get_level_mut(Vec2(2, 0)).unwrap() = 20;
    assert_eq!(levels.levels_as_slice(), &[0, 1, 20, 30, 4, 5]);
    assert_eq!(levels.level_mode(), LevelMode::RipMap);
}

#[test]
fn levels_come_with_their_sizes() {
    let encoding = Encoding {
        compression: Compression::Uncompressed,
        blocks: Blocks::Tiles { tile_size: Vec2(4, 4), rounding_mode: RoundingMode::Up },
        line_order: LineOrder::IncreasingY,
    };
    let layer = Layer::new(Vec2(5, 2), LayerAttributes::default(), encoding, ());
    let mips = Levels::Mip(vec!['a', 'b', 'c', 'd', 'e']);
    assert_eq!(
        layer.levels_with_resolution(&mips),
        vec![(&'a', Vec2(5, 2)), (&'b', Vec2(3, 1)), (&'c', Vec2(2, 1)), (&'d', Vec2(1, 1))]
    );
    let rips = Levels::Rip(RipMaps { map_data: vec!['a', 'b', 'c'], level_count: Vec2(4, 2) });
    assert_eq!(
        layer.levels_with_resolution(&rips),
        vec![(&'a', Vec2(5, 2)), (&'b', Vec2(3, 2)), (&'c', Vec2(2, 2))]
    );
    let scan_lines = Layer::new(Vec2(5, 2), LayerAttributes::default(), Encoding::uncompressed(), ());
    assert_eq!(scan_lines.levels_with_resolution(&Levels::Singular('s')), vec![(&'s', Vec2(5, 2))]);
}

#[test]
fn images_are_made_with_their_defaults() {
    let image = Image::with_single_layer(Vec2(3, 4), 'c');
    assert_eq!(image.layer_data.encoding, Encoding::fast_lossless());
    assert_eq!(Encoding::default(), Encoding::fast_lossless());
    assert_eq!(image.attributes.display_window, IntRect::new(Vec2(0, 0), Vec2(3, 4)));
    assert_eq!(image.attributes.pixel_aspect, 1.0f32.to_bits());
    assert_eq!(image.layer_data.attributes, LayerAttributes::default());
    assert_eq!(image.layer_data.size, Vec2(3, 4));
    let other = Image::with_encoded_single_layer(Vec2(3, 4), Encoding::small_lossless(), 'c');
    assert_eq!(other.layer_data.encoding.compression, Compression::ZIP16);
    assert_eq!(Encoding::small_fast_lossy().compression, Compression::PIZ);
    let mut attributes = LayerAttributes::default();
    attributes.layer_position = Vec2(-5, 6);
    let layer = Layer::new(Vec2(1, 2), attributes, Encoding::uncompressed(), 'c');
    let moved = Image::from_single_layer(layer.clone());
    assert_eq!(moved.attributes.display_window, IntRect::new(Vec2(-5, 6), Vec2(1, 2)));
    assert_eq!(Image::new(moved.attributes, layer), moved);
    let channels = RgbaChannels::new(RgbaSampleTypes::rgba_f16(), "storage");
    assert_eq!(channels.sample_types.3, Some(PixelType::F16));
    assert_eq!(channels.storage, "storage");
    assert_eq!(RgbaSampleTypes::rgb_f32().3, None);
    assert_eq!(RgbaSampleTypes::rgb_f16().0, PixelType::F16);
    assert_eq!(RgbaSampleTypes::rgba_f32().1, PixelType::F32);
}

#[test]
fn pixels_have_an_alpha_of_one_by_default() {
    let one = Sample::F32(1.0f32.to_bits());
    let half = Sample::F16(half::f16::from_f32(0.5).to_bits());
    let pixel = RgbaPixel::rgb(one, half, Sample::U32(3));
    assert_eq!(pixel.alpha, None);
    assert_eq!(pixel.alpha_or_default(), one);
    assert_eq!(Sample::default_alpha(), one);
    let pixel = RgbaPixel::rgba(one, half, Sample::U32(3), half);
    assert_eq!(pixel.alpha_or_default(), half);
    assert_eq!(RgbaPixel::new(one, half, Sample::U32(3), Some(half)), pixel);
    assert_eq!(half.sample_type(), PixelType::F16);
    assert_eq!(Sample::U32(3).sample_type(), PixelType::U32);
}

#[test]
fn samples_that_are_no_numbers_are_found() {
    assert!(f32_is_nan(f32::NAN.to_bits()));
    assert!(f32_is_nan((-f32::NAN).to_bits()));
    assert!(!f32_is_nan(f32::INFINITY.to_bits()));
    assert!(!f32_is_nan(f32::NEG_INFINITY.to_bits()));
    assert!(!f32_is_nan(0));
    assert!(f16_is_nan(half::f16::NAN.to_bits()));
    assert!(!f16_is_nan(half::f16::INFINITY.to_bits()));
    assert!(!f16_is_nan(half::f16::MAX.to_bits()));
    for bits in [0u16, 1, 0x7BFF, 0x7C00, 0x7C01, 0x7FFF, 0x8000, 0xFC00, 0xFC01, 0xFFFF] {
        assert_eq!(f16_is_nan(bits), half::f16::from_bits(bits).is_nan());
    }
    let clean = FlatSamples::F32(vec![0, 1.5f32.to_bits()]);
    let dirty = FlatSamples::F16(vec![0, half::f16::NAN.to_bits()]);
    let whole = FlatSamples::U32(vec![u32::MAX, 0x7FC0_0000]);
    assert!(!clean.contains_nan_pixels());
    assert!(dirty.contains_nan_pixels());
    assert!(!whole.contains_nan_pixels());
    assert_eq!(dirty.len(), 2);
    let channel = |samples| AnyChannel::new(Text::from_bytes(b"R"), Levels::Singular(samples));
    let layer = |samples| {
        Layer::new(
            Vec2(2, 1),
            LayerAttributes::default(),
            Encoding::uncompressed(),
            AnyChannels::new(vec![channel(clean.clone()), channel(samples)]),
        )
    };
    assert!(Image::from_single_layer(layer(dirty.clone())).contains_nan_pixels());
    assert!(!Image::from_single_layer(layer(whole.clone())).contains_nan_pixels());
    assert!(Levels::Mip(vec![clean.clone(), dirty]).contains_nan_pixels());
    assert!(!vec![clean, whole].contains_nan_pixels());
}
