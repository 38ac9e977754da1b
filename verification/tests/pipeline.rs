use exr::chunk::{patch_offset_table, read_offset_tables, Block, Chunk};
use exr::compression::{accept_decompressed, Compression};
use exr::error::Error;
use exr::file::attributes::{LineOrder, Text};
use exr::image::simple::{Channel, Channels, Image, Part, Samples};
use exr::io::ByteReader;
use exr::math::{IntRect, Vec2};
use exr::meta::MetaData;
use exr::schedule::{
    block_in_order, block_places, check_places, image_chunks, read_file, write_file, BlockPlace,
};

fn write(image: &Image) -> Result<(Vec<u8>, Vec<Vec<u64>>), Error> {
    let meta_data = image.infer_meta_data()?;
    let chunks = image_chunks(image, &meta_data.headers)?;
    let file = write_file(&meta_data, &chunks)?;
    let mut read = ByteReader::new(&file);
    MetaData::read(&mut read, false)?;
    let tables = read_offset_tables(&mut read, &meta_data.headers)?;
    Ok((file, tables))
}

fn read(file: &[u8]) -> Result<Image, Error> {
    let contents = read_file(file, true)?;
    let headers = &contents.meta_data.headers;
    let mut image = Image::allocate(headers)?;
    for chunk in contents.chunks.iter() {
        let header = &headers[chunk.part_number as usize];
        let bounds = header.block_bounds(&chunk.block)?;
        let expected = header.block_byte_size(bounds.size);
        let pixels = accept_decompressed(chunk.block.compressed_pixels().clone(), expected)?;
        image.insert_block(chunk.part_number as usize, bounds, &pixels)?;
    }
    Ok(image)
}

fn gray_image() -> Image {
    let samples = Samples::F16(vec![half::f16::ONE.to_bits(); 256]);
    let channel = Channel::new(Text::from_bytes(b"Y"), false, samples);
    let mut part = Part::new(
        Text::from_bytes(b"main"),
        Compression::Uncompressed,
        IntRect::new(Vec2(0, 0), Vec2(16, 16)),
        Channels::from_vec(vec![channel]),
    );
    part.line_order = LineOrder::IncreasingY;
    Image::new_from_single_part(part)
}

#[test]
fn gray_image_is_read_as_written() {
    let image = gray_image();
    let (file, tables) = write(&image).unwrap();
    assert_eq!(tables.len(), 1);
    assert_eq!(tables[0].len(), 16);
    assert!(tables[0].windows(2).all(|pair| pair[0] < pair[1]));
    let again = read(&file).unwrap();
    assert_eq!(again, image);
    match &again.parts.get(0).unwrap().channels.get(0).unwrap().samples {
        Samples::F16(samples) => {
            assert_eq!(samples.len(), 256);
            assert!(samples.iter().all(|sample| half::f16::from_bits(*sample) == half::f16::ONE));
        },
        _ => panic!("the samples are 16-bit floating-point numbers"),
    }
}

#[test]
fn colored_tiles_are_read_as_written() {
    let names: [&[u8]; 3] = [b"R", b"G", b"B"];
    let channels: Vec<Channel> = names
        .iter()
        .enumerate()
        .map(|(index, name)| {
            let samples = (0..70u32).map(|sample| (sample * 3 + index as u32).to_le()).collect();
            Channel::new(Text::from_bytes(name), false, Samples::F32(samples))
        })
        .collect();
    let mut part = Part::new(
        Text::from_bytes(b"tiled"),
        Compression::RLE,
        IntRect::new(Vec2(-3, 5), Vec2(10, 7)),
        Channels::from_vec(channels),
    );
    part.tiles = Some(Vec2(4, 4));
    let second = gray_image().parts.get(0).unwrap().clone();
    let image = Image::new_from_parts(
        exr::image::simple::Parts::from_vec(vec![part, second]),
        IntRect::new(Vec2(0, 0), Vec2(16, 16)),
    );
    let (file, tables) = write(&image).unwrap();
    assert_eq!(tables[0].len(), 6);
    assert_eq!(tables[1].len(), 16);
    let again = read(&file).unwrap();
    assert_eq!(again, image);
}

#[test]
fn offset_past_the_end_is_refused() {
    let (mut file, tables) = write(&gray_image()).unwrap();
    let table = vec![file.len() as u64 + 10; 16];
    let table_start = tables[0][0] as usize - 16 * 8;
    patch_offset_table(&mut file, table_start, &table).unwrap();
    assert_eq!(read(&file), Err(Error::Io));
    let truncated = &file[0..file.len() - 1];
    let mut table = tables[0].clone();
    table.reverse();
    let mut file = truncated.to_vec();
    patch_offset_table(&mut file, table_start, &table).unwrap();
    assert_eq!(read(&file), Err(Error::Io));
}

#[test]
fn blocks_stand_layer_after_layer() {
    let image = gray_image();
    let meta_data = image.infer_meta_data().unwrap();
    let places = block_places(&meta_data.headers).unwrap();
    assert_eq!(places.len(), 16);
    for (index, place) in places.iter().enumerate() {
        assert_eq!(
            *place,
            BlockPlace {
                part_number: 0,
                coordinates: exr::chunk::BlockCoordinates::ScanLine { y_coordinate: index as i32 },
            }
        );
    }
    let chunks = image_chunks(&image, &meta_data.headers).unwrap();
    assert_eq!(chunks.len(), 16);
    let one = half::f16::ONE.to_bits().to_le_bytes();
    let row: Vec<u8> = (0..16).flat_map(|_| one).collect();
    assert_eq!(
        chunks[5],
        Chunk { part_number: 0, block: Block::ScanLine { y_coordinate: 5, compressed_pixels: row } }
    );
    assert_eq!(check_places(&meta_data.headers, &chunks), Ok(()));
}

#[test]
fn file_is_meta_data_then_offsets_then_chunks() {
    let image = gray_image();
    let meta_data = image.infer_meta_data().unwrap();
    let chunks = image_chunks(&image, &meta_data.headers).unwrap();
    let file = write_file(&meta_data, &chunks).unwrap();
    let mut expected = Vec::new();
    meta_data.write(&mut expected).unwrap();
    let chunks_start = expected.len() + 16 * 8;
    for index in 0..16u64 {
        expected.extend_from_slice(&(chunks_start as u64 + index * (8 + 32)).to_le_bytes());
    }
    for chunk in chunks.iter() {
        chunk.write(&mut expected, false).unwrap();
    }
    assert_eq!(file, expected);
    assert_eq!(file.len(), chunks_start + 16 * 40);

    let contents = read_file(&file, false).unwrap();
    assert_eq!(contents.meta_data, meta_data);
    assert_eq!(contents.chunks, chunks);
    assert_eq!(contents.unknown_attributes, vec![vec![]]);
}

#[test]
fn chunks_out_of_place_are_not_written() {
    let image = gray_image();
    let meta_data = image.infer_meta_data().unwrap();
    let chunks = image_chunks(&image, &meta_data.headers).unwrap();

    let fewer = &chunks[0..15];
    assert!(matches!(write_file(&meta_data, fewer), Err(Error::InvalidContent { .. })));

    let mut swapped = chunks.clone();
    swapped.swap(3, 4);
    assert!(matches!(write_file(&meta_data, &swapped), Err(Error::InvalidContent { .. })));

    let mut elsewhere = chunks.clone();
    elsewhere[7].part_number = 1;
    assert!(matches!(write_file(&meta_data, &elsewhere), Err(Error::InvalidContent { .. })));

    let mut shorter = chunks.clone();
    shorter[2] = Chunk {
        part_number: 0,
        block: Block::ScanLine { y_coordinate: 2, compressed_pixels: vec![1, 2, 3] },
    };
    let file = write_file(&meta_data, &shorter).unwrap();
    assert_eq!(read_file(&file, false).unwrap().chunks, shorter);
}

#[test]
fn scan_lines_in_decreasing_order_stand_from_the_bottom_up() {
    let samples = Samples::U32((0..64u32).collect());
    let channel = Channel::new(Text::from_bytes(b"Z"), false, samples);
    let mut part = Part::new(
        Text::from_bytes(b"depth"),
        Compression::Uncompressed,
        IntRect::new(Vec2(0, -2), Vec2(16, 4)),
        Channels::from_vec(vec![channel]),
    );
    part.line_order = LineOrder::DecreasingY;
    let image = Image::new_from_single_part(part);
    let meta_data = image.infer_meta_data().unwrap();
    assert_eq!(meta_data.headers[0].line_order, LineOrder::DecreasingY);

    let places = block_places(&meta_data.headers).unwrap();
    let rows: Vec<_> = places.iter().map(|place| place.coordinates).collect();
    assert_eq!(
        rows,
        vec![
            exr::chunk::BlockCoordinates::ScanLine { y_coordinate: 1 },
            exr::chunk::BlockCoordinates::ScanLine { y_coordinate: 0 },
            exr::chunk::BlockCoordinates::ScanLine { y_coordinate: -1 },
            exr::chunk::BlockCoordinates::ScanLine { y_coordinate: -2 },
        ]
    );
    assert_eq!(block_in_order(&meta_data.headers[0], 0), meta_data.headers[0].block_at(3));
    assert!(block_in_order(&meta_data.headers[0], 4).is_err());

    let (file, tables) = write(&image).unwrap();
    assert!(tables[0].windows(2).all(|pair| pair[0] < pair[1]));
    let contents = read_file(&file, false).unwrap();
    assert_eq!(contents.chunks[0].block.coordinates(), rows[0]);
    let first: Vec<u8> = (48..64u32).flat_map(|sample| sample.to_le_bytes()).collect();
    assert_eq!(contents.chunks[0].block.compressed_pixels(), &first);
    assert_eq!(read(&file).unwrap(), image);
}

#[test]
fn blocks_can_be_put_in_any_order() {
    let samples = Samples::U32((0..60u32).map(|sample| sample * 7 + 1).collect());
    let channel = Channel::new(Text::from_bytes(b"id"), false, samples);
    let mut part = Part::new(
        Text::from_bytes(b"ids"),
        Compression::Uncompressed,
        IntRect::new(Vec2(2, 3), Vec2(10, 6)),
        Channels::from_vec(vec![channel]),
    );
    part.tiles = Some(Vec2(4, 4));
    let image = Image::new_from_single_part(part);
    let meta_data = image.infer_meta_data().unwrap();
    let headers = &meta_data.headers;
    let chunks = image_chunks(&image, headers).unwrap();
    assert_eq!(chunks.len(), 6);

    let put = |order: &[usize]| {
        let mut filled = Image::allocate(headers).unwrap();
        for index in order {
            let chunk = &chunks[*index];
            let bounds = headers[0].block_bounds(&chunk.block).unwrap();
            filled.insert_block(0, bounds, chunk.block.compressed_pixels()).unwrap();
        }
        filled
    };
    assert_eq!(put(&[0, 1, 2, 3, 4, 5]), image);
    assert_eq!(put(&[5, 4, 3, 2, 1, 0]), image);
    assert_eq!(put(&[3, 0, 5, 1, 4, 2]), image);
    assert_ne!(put(&[0, 1, 2, 3, 4]), image);

    let filled = put(&[2, 4, 0, 5, 3, 1]);
    for chunk in chunks.iter() {
        let bounds = headers[0].block_bounds(&chunk.block).unwrap();
        let mut pixels = Vec::new();
        filled.extract_block(0, bounds, &mut pixels).unwrap();
        assert_eq!(&pixels, chunk.block.compressed_pixels());
        assert_eq!(pixels.len(), bounds.size.0 * bounds.size.1 * 4);
    }
}

#[test]
fn colors_are_listed_blue_green_red() {
    let names: [&[u8]; 3] = [b"R", b"G", b"B"];
    let channels: Vec<Channel> = names
        .iter()
        .map(|name| {
            let samples = vec![1.5f32.to_bits(); 12 * 9];
            Channel::new(Text::from_bytes(name), false, Samples::F32(samples))
        })
        .collect();
    let part = Part::new(
        Text::from_bytes(b"crow"),
        Compression::Uncompressed,
        IntRect::new(Vec2(0, 0), Vec2(12, 9)),
        Channels::from_vec(channels),
    );
    let image = Image::new_from_single_part(part);
    let (file, tables) = write(&image).unwrap();
    let contents = read_file(&file, false).unwrap();
    assert_eq!(contents.meta_data.headers.len(), 1);
    let header = &contents.meta_data.headers[0];
    let listed: Vec<Vec<u8>> = (0..header.channels.len())
        .map(|index| header.channels.get(index).unwrap().name.to_vec())
        .collect();
    assert_eq!(listed, vec![b"B".to_vec(), b"G".to_vec(), b"R".to_vec()]);
    for index in 0..3 {
        assert_eq!(
            header.channels.get(index).unwrap().pixel_type,
            exr::file::attributes::PixelType::F32
        );
    }
    assert_eq!(header.compression, Compression::Uncompressed);
    assert_eq!(header.chunk_count, header.data_window.size.1);
    assert_eq!(header.chunk_count, 9);
    assert_eq!(tables[0].len(), 9);
    assert_eq!(contents.chunks.len(), 9);
    assert_eq!(contents.chunks[0].block.compressed_pixels().len(), 12 * 3 * 4);
    assert_eq!(read(&file).unwrap(), image);
}
