use exr::block::{Line, LineIndex};
use exr::compression::Compression;
use exr::error::Error;
use exr::file::attributes::{Attribute, AttributeValue, PixelType, Text};
use exr::image::simple::{Channel, Channels, Image, Part, Samples};
use exr::math::{IntRect, Vec2};

fn y_part() -> Part {
    let samples = Samples::F16(vec![half::f16::ONE.to_bits(); 256]);
    let channel = Channel::new(Text::from_bytes(b"Y"), false, samples);
    Part::new(
        Text::from_bytes(b"main"),
        Compression::Uncompressed,
        IntRect::new(Vec2(0, 0), Vec2(16, 16)),
        Channels::from_vec(vec![channel]),
    )
}

#[test]
fn extracted_line_is_inserted_again() {
    let image = Image::new_from_single_part(y_part());
    let index = LineIndex { part: 0, channel: 0, level: Vec2(0, 0), position: Vec2(0, 3), width: 16 };
    assert!(image.check_holds_line(index));
    let mut bytes = Vec::new();
    image.extract_line(index, &mut bytes);
    assert_eq!(bytes.len(), 32);
    assert_eq!(&bytes[0..2], &[0x00, 0x3C]);

    let headers = image.infer_meta_data().unwrap().headers;
    assert_eq!(headers[0].chunk_count, 16);
    let mut copy = Image::allocate(&headers).unwrap();
    let line = Line { location: index, sample_type: PixelType::F16, value: &bytes };
    copy.insert_line(line).unwrap();
    let mut again = Vec::new();
    copy.extract_line(index, &mut again);
    assert_eq!(again, bytes);
    let wrong = Line { location: index, sample_type: PixelType::F32, value: &bytes };
    assert_eq!(copy.insert_line(wrong), Err(Error::TypeMismatch));
}

#[test]
fn part_sorts_channels() {
    let names: [&[u8]; 3] = [b"R", b"G", b"B"];
    let channels = names
        .iter()
        .map(|name| Channel::new(Text::from_bytes(name), false, Samples::F32(vec![0; 4])))
        .collect();
    let part = Part::new(
        Text::from_bytes(b"rgb"),
        Compression::Uncompressed,
        IntRect::new(Vec2(0, 0), Vec2(2, 2)),
        Channels::from_vec(channels),
    );
    let sorted: Vec<Vec<u8>> = part.channels.as_slice().iter().map(|c| c.name.to_vec()).collect();
    assert_eq!(sorted, vec![b"B".to_vec(), b"G".to_vec(), b"R".to_vec()]);
}

#[test]
fn channels_are_made_and_measured() {
    let linear = Channel::new_linear(Text::from_bytes(b"A"), Samples::U32(vec![1, 2, 3, 4, 5, 6]));
    assert!(linear.is_linear);
    assert_eq!(linear.sampling, Vec2(1, 1));
    assert_eq!(linear.samples.len(), 6);
    assert_eq!(linear.samples.sample_type(), PixelType::U32);
    assert!(linear.check_fits(Vec2(3, 2)));
    assert!(!linear.check_fits(Vec2(3, 3)));
    let mut sparse = Channel::new(Text::from_bytes(b"C"), false, Samples::F32(vec![0; 6]));
    sparse.sampling = Vec2(2, 1);
    assert!(sparse.check_fits(Vec2(6, 2)));
    assert!(sparse.check_fits(Vec2(7, 2)));
    assert!(!sparse.check_fits(Vec2(6, 3)));
    sparse.sampling = Vec2(0, 1);
    assert!(!sparse.check_fits(Vec2(6, 2)));
    let attribute = linear.infer_channel_attribute();
    assert_eq!(attribute.pixel_type, PixelType::U32);
    assert_eq!((attribute.x_sampling, attribute.y_sampling), (1, 1));
    assert_eq!(attribute.reserved, [0, 0, 0]);
    assert!(attribute.is_linear);

    let channels = Channels::from_vec(vec![linear.clone(), sparse]);
    assert!(!channels.is_empty());
    assert_eq!(channels.len(), 2);
    assert_eq!(channels.get(0), Some(&linear));
    assert_eq!(channels.get(2), None);
    assert_eq!(channels.clone().into_vec().len(), 2);
    assert!(Channels::from_vec(Vec::new()).is_empty());
    assert_eq!(Samples::allocate(Vec2(3, 2), PixelType::F16), Samples::F16(vec![0; 6]));
    assert_eq!(Samples::allocate(Vec2(0, 2), PixelType::U32), Samples::U32(Vec::new()));
}

#[test]
fn lines_outside_of_the_image_are_refused() {
    let mut image = Image::new_from_single_part(y_part());
    let bytes = vec![0u8; 32];
    let index = LineIndex { part: 0, channel: 0, level: Vec2(0, 0), position: Vec2(0, 3), width: 16 };
    let line = |location| Line { location, sample_type: PixelType::F16, value: &bytes };
    let before = image.clone();
    assert_eq!(image.insert_line(line(LineIndex { part: 1, ..index })), Err(Error::InvalidPartIndex));
    assert_eq!(
        image.insert_line(line(LineIndex { channel: 1, ..index })),
        Err(Error::InvalidChannelIndex)
    );
    assert_eq!(
        image.insert_line(line(LineIndex { level: Vec2(1, 0), ..index })),
        Err(Error::InvalidLevelIndex)
    );
    assert!(image.insert_line(line(LineIndex { position: Vec2(1, 3), ..index })).is_err());
    assert!(image.insert_line(line(LineIndex { position: Vec2(0, 16), ..index })).is_err());
    assert!(image.insert_line(line(LineIndex { width: 15, ..index })).is_err());
    assert_eq!(image, before);
    assert!(!image.check_holds_line(LineIndex { position: Vec2(0, 16), ..index }));
    assert!(!image.check_holds_line(LineIndex { part: 1, ..index }));
    assert_eq!(image.insert_line(line(index)), Ok(()));
    assert_ne!(image, before);
    assert_eq!(image.minimum_version(), 2);
    assert!(!image.has_long_names());
    assert_eq!(line(index).f16_samples(), Ok(vec![0; 16]));
    assert_eq!(line(index).f32_samples(), Err(Error::TypeMismatch));
    assert_eq!(line(index).u32_samples(), Err(Error::TypeMismatch));
    let wide = Line { location: LineIndex { width: 8, ..index }, sample_type: PixelType::F32, value: &bytes };
    assert_eq!(wide.f32_samples(), Ok(vec![0; 8]));
    let whole = Line { location: LineIndex { width: 8, ..index }, sample_type: PixelType::U32, value: &bytes };
    assert_eq!(whole.u32_samples(), Ok(vec![0; 8]));
    assert!(whole.check_samples(PixelType::U32).is_ok());
}

#[test]
fn headers_are_refused_for_channels_out_of_order() {
    let mut part = y_part();
    let mut channels = part.channels.clone().into_vec();
    channels.push(channels[0].clone());
    part.channels = Channels::from_vec(channels);
    assert_eq!(
        part.infer_header(part.data_window, 0x3F80_0000),
        Err(Error::InvalidContent {
            what: exr::error::Value::Attribute("channels"),
            required: exr::error::Required::Exact("sorted by name, each name once"),
        })
    );
    let mut part = y_part();
    part.tiles = Some(Vec2(0, 4));
    assert_eq!(
        part.infer_header(part.data_window, 0x3F80_0000),
        Err(Error::InvalidContent {
            what: exr::error::Value::Attribute("tiles"),
            required: exr::error::Required::Min(1),
        })
    );
    let empty: [exr::meta::Header; 0] = [];
    let image = Image::allocate(&empty).unwrap();
    assert_eq!(image.display_window, IntRect::zero());
    assert_eq!(image.pixel_aspect, 0x3F80_0000);
    assert_eq!(image.parts.len(), 0);
}

#[test]
fn long_names_are_asked_for_where_a_name_is_long() {
    let channel = |name: &[u8]| {
        Channel::new(Text::from_bytes(name), false, Samples::F16(vec![0; 4]))
    };
    let part = |name: &[u8], channels: Vec<Channel>| {
        Part::new(
            Text::from_bytes(name),
            Compression::Uncompressed,
            IntRect::new(Vec2(0, 0), Vec2(2, 2)),
            Channels::from_vec(channels),
        )
    };
    let of_31 = [b'a'; 31];
    let of_32 = [b'a'; 32];
    let of_256 = [b'a'; 256];

    let short = Image::new_from_single_part(part(&of_31, vec![channel(&of_31)]));
    assert!(!short.has_long_names());
    let meta_data = short.infer_meta_data().unwrap();
    assert!(!meta_data.requirements.has_long_names);
    let mut bytes = Vec::new();
    assert_eq!(meta_data.write(&mut bytes), Ok(()));
    assert_eq!(&bytes[4..8], &[2, 0, 0, 0]);

    let long_channel = Image::new_from_single_part(part(b"main", vec![channel(&of_32)]));
    assert!(long_channel.has_long_names());
    let meta_data = long_channel.infer_meta_data().unwrap();
    assert!(meta_data.requirements.has_long_names);
    let mut bytes = Vec::new();
    assert_eq!(meta_data.write(&mut bytes), Ok(()));
    assert_eq!(&bytes[4..8], &[2, 4, 0, 0]);

    let long_part = Image::new_from_single_part(part(&of_32, vec![channel(b"Y")]));
    assert!(long_part.has_long_names());
    assert!(long_part.parts.get(0).unwrap().has_long_names());

    let mut with_attribute = part(b"main", vec![channel(b"Y")]);
    with_attribute.attributes.push(Attribute {
        name: Text::from_bytes(&of_32),
        value: AttributeValue::I32(1),
    });
    assert!(with_attribute.has_long_names());
    with_attribute.attributes[0].name = Text::from_bytes(&of_31);
    assert!(!with_attribute.has_long_names());

    let too_long = Image::new_from_single_part(part(b"main", vec![channel(&of_256)]));
    assert!(too_long.has_long_names());
    let meta_data = too_long.infer_meta_data().unwrap();
    let mut bytes = Vec::new();
    assert!(meta_data.write(&mut bytes).is_err());
    assert!(bytes.is_empty());
}
