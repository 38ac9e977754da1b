//! Images in memory: layers of channels of samples, with their attributes.

pub mod simple;

use vstd::prelude::*;
use crate::error::Error;
use crate::math::{Vec2, IntRect};
use crate::compression::Compression;
use crate::block::{Sample, SampleType, spec_f16_is_nan, spec_f32_is_nan, f16_is_nan, f32_is_nan};
use crate::file::attributes::{LevelMode, LineOrder, PixelType, RoundingMode, Text};
use crate::sort::{Named, sort_by_name, sorted_by_name};
use crate::meta::{
    mip_map_levels, rip_map_levels, rip_level_index, spec_level_count, spec_max, is_level,
};

verus! {

/// A grid of pixels with a red, a green, a blue and perhaps an alpha
/// channel, kept in a pixel storage of the caller's own.
#[derive(Debug, Clone, PartialEq, Eq)]
pub struct RgbaChannels<PixelStorage> {
    /// The sample type of each of the channels.
    pub sample_types: RgbaSampleTypes,
    /// The caller's pixel storage.
    pub storage: PixelStorage,
}

/// The sample types of the red, green, blue and alpha channels, in that
/// order. The alpha channel is optional.
#[derive(Copy, Debug, Clone, PartialEq, Eq)]
pub struct RgbaSampleTypes(
    pub SampleType,
    pub SampleType,
    pub SampleType,
    pub Option<SampleType>,
);

/// One pixel with a red, a green, a blue and perhaps an alpha sample.
#[derive(Copy, Clone, Debug, PartialEq, Eq)]
pub struct RgbaPixel {
    pub red: Sample,
    pub green: Sample,
    pub blue: Sample,
    pub alpha: Option<Sample>,
}

impl<SampleStorage> RgbaChannels<SampleStorage> {
    /// The channels of the given sample types over the given storage.
    pub fn new(convert_to: RgbaSampleTypes, source_samples: SampleStorage) -> (r: Self)
        ensures
            r.sample_types == convert_to,
            r.storage == source_samples,
    {
        RgbaChannels { sample_types: convert_to, storage: source_samples }
    }
}

impl RgbaPixel {
    /// The pixel with the given samples.
    pub fn new(red: Sample, green: Sample, blue: Sample, alpha: Option<Sample>) -> (r: Self)
        ensures
            r == (RgbaPixel { red, green, blue, alpha }),
    {
        RgbaPixel { red, green, blue, alpha }
    }

    /// The pixel with the given samples and no alpha sample.
    pub fn rgb(red: Sample, green: Sample, blue: Sample) -> (r: Self)
        ensures
            r == (RgbaPixel { red, green, blue, alpha: None }),
    {
        RgbaPixel::new(red, green, blue, None)
    }

    /// The pixel with the given samples.
    pub fn rgba(red: Sample, green: Sample, blue: Sample, alpha: Sample) -> (r: Self)
        ensures
            r == (RgbaPixel { red, green, blue, alpha: Some(alpha) }),
    {
        RgbaPixel::new(red, green, blue, Some(alpha))
    }

    /// The alpha sample of the pixel, or fully opaque where it has none.
    pub fn alpha_or_default(&self) -> (r: Sample)
        ensures
            r == match self.alpha {
                Some(alpha) => alpha,
                None => Sample::F32(0x3F80_0000u32),
            },
    {
        match self.alpha {
            Some(alpha) => alpha,
            None => Sample::default_alpha(),
        }
    }
}

impl From<(Sample, Sample, Sample)> for RgbaPixel {
    /// The pixel with the given red, green and blue samples and no alpha sample.
    fn from(samples: (Sample, Sample, Sample)) -> (r: RgbaPixel) {
        RgbaPixel::rgb(samples.0, samples.1, samples.2)
    }
}

impl vstd::std_specs::convert::FromSpecImpl<(Sample, Sample, Sample)> for RgbaPixel {
    open spec fn obeys_from_spec() -> bool {
        true
    }

    open spec fn from_spec(samples: (Sample, Sample, Sample)) -> RgbaPixel {
        RgbaPixel { red: samples.0, green: samples.1, blue: samples.2, alpha: None }
    }
}

impl From<(Sample, Sample, Sample, Sample)> for RgbaPixel {
    /// The pixel with the given red, green, blue and alpha samples.
    fn from(samples: (Sample, Sample, Sample, Sample)) -> (r: RgbaPixel) {
        RgbaPixel::rgba(samples.0, samples.1, samples.2, samples.3)
    }
}

impl vstd::std_specs::convert::FromSpecImpl<(Sample, Sample, Sample, Sample)> for RgbaPixel {
    open spec fn obeys_from_spec() -> bool {
        true
    }

    open spec fn from_spec(samples: (Sample, Sample, Sample, Sample)) -> RgbaPixel {
        RgbaPixel { red: samples.0, green: samples.1, blue: samples.2, alpha: Some(samples.3) }
    }
}

impl From<RgbaPixel> for (Sample, Sample, Sample) {
    /// The red, green and blue samples of the pixel.
    fn from(pixel: RgbaPixel) -> (r: (Sample, Sample, Sample)) {
        (pixel.red, pixel.green, pixel.blue)
    }
}

impl vstd::std_specs::convert::FromSpecImpl<RgbaPixel> for (Sample, Sample, Sample) {
    open spec fn obeys_from_spec() -> bool {
        true
    }

    open spec fn from_spec(pixel: RgbaPixel) -> (Sample, Sample, Sample) {
        (pixel.red, pixel.green, pixel.blue)
    }
}

impl From<RgbaPixel> for (Sample, Sample, Sample, Sample) {
    /// The red, green, blue and alpha samples of the pixel, with an
    /// alpha of one where the pixel has none.
    fn from(pixel: RgbaPixel) -> (r: (Sample, Sample, Sample, Sample)) {
        (pixel.red, pixel.green, pixel.blue, pixel.alpha_or_default())
    }
}

impl vstd::std_specs::convert::FromSpecImpl<RgbaPixel> for (Sample, Sample, Sample, Sample) {
    open spec fn obeys_from_spec() -> bool {
        true
    }

    open spec fn from_spec(pixel: RgbaPixel) -> (Sample, Sample, Sample, Sample) {
        (
            pixel.red,
            pixel.green,
            pixel.blue,
            match pixel.alpha {
                Some(alpha) => alpha,
                None => Sample::F32(0x3F80_0000u32),
            },
        )
    }
}

impl From<[Sample; 3]> for RgbaPixel {
    /// The pixel with the given red, green and blue samples and no alpha sample.
    fn from(samples: [Sample; 3]) -> (r: RgbaPixel) {
        RgbaPixel::rgb(samples[0], samples[1], samples[2])
    }
}

impl vstd::std_specs::convert::FromSpecImpl<[Sample; 3]> for RgbaPixel {
    open spec fn obeys_from_spec() -> bool {
        true
    }

    open spec fn from_spec(samples: [Sample; 3]) -> RgbaPixel {
        RgbaPixel { red: samples@[0], green: samples@[1], blue: samples@[2], alpha: None }
    }
}

impl From<[Sample; 4]> for RgbaPixel {
    /// The pixel with the given red, green, blue and alpha samples.
    fn from(samples: [Sample; 4]) -> (r: RgbaPixel) {
        RgbaPixel::rgba(samples[0], samples[1], samples[2], samples[3])
    }
}

impl vstd::std_specs::convert::FromSpecImpl<[Sample; 4]> for RgbaPixel {
    open spec fn obeys_from_spec() -> bool {
        true
    }

    open spec fn from_spec(samples: [Sample; 4]) -> RgbaPixel {
        RgbaPixel {
            red: samples@[0],
            green: samples@[1],
            blue: samples@[2],
            alpha: Some(samples@[3]),
        }
    }
}

impl From<RgbaPixel> for [Sample; 3] {
    /// The red, green and blue samples of the pixel.
    fn from(pixel: RgbaPixel) -> (r: [Sample; 3]) {
        [pixel.red, pixel.green, pixel.blue]
    }
}

impl vstd::std_specs::convert::FromSpecImpl<RgbaPixel> for [Sample; 3] {
    open spec fn obeys_from_spec() -> bool {
        true
    }

    open spec fn from_spec(pixel: RgbaPixel) -> [Sample; 3] {
        [pixel.red, pixel.green, pixel.blue]
    }
}

impl From<RgbaPixel> for [Sample; 4] {
    /// The red, green, blue and alpha samples of the pixel, with an
    /// alpha of one where the pixel has none.
    fn from(pixel: RgbaPixel) -> (r: [Sample; 4]) {
        [pixel.red, pixel.green, pixel.blue, pixel.alpha_or_default()]
    }
}

impl vstd::std_specs::convert::FromSpecImpl<RgbaPixel> for [Sample; 4] {
    open spec fn obeys_from_spec() -> bool {
        true
    }

    open spec fn from_spec(pixel: RgbaPixel) -> [Sample; 4] {
        [
            pixel.red,
            pixel.green,
            pixel.blue,
            match pixel.alpha {
                Some(alpha) => alpha,
                None => Sample::F32(0x3F80_0000u32),
            },
        ]
    }
}

/// Values that may hold a floating-point sample that is not a number.
pub trait ContainsNaN {
    /// Whether any sample is not a number.
    spec fn has_nan(&self) -> bool;

    /// Whether any sample is not a number.
    fn contains_nan_pixels(&self) -> (r: bool)
        ensures
            r == self.has_nan(),
    ;
}

/// What a file says of an image as a whole.
#[derive(Debug, Clone, Copy, PartialEq, Eq)]
pub struct ImageAttributes {
    /// The rectangle that a viewer shows.
    pub display_window: IntRect,
    /// The width of a pixel divided by its height, a 32-bit
    /// floating-point number as its bit pattern.
    pub pixel_aspect: u32,
}

impl ImageAttributes {
    /// The attributes of an image with the given display window whose
    /// pixels are as wide as they are high.
    pub fn new(display_window: IntRect) -> (r: ImageAttributes)
        ensures
            r == (ImageAttributes { display_window, pixel_aspect: 0x3F80_0000u32 }),
    {
        ImageAttributes { display_window, pixel_aspect: 0x3F80_0000 }
    }
}

/// What a file says of a layer, apart from how its pixels are stored.
#[derive(Debug, Clone, PartialEq, Eq)]
pub struct LayerAttributes {
    /// The name of the layer. A file with one layer needs none.
    pub layer_name: Option<Text>,
    /// The position of the top left pixel of the layer in the plane.
    pub layer_position: Vec2<i32>,
    /// The center of the screen window, two 32-bit floating-point numbers
    /// as their bit patterns.
    pub screen_window_center: Vec2<u32>,
    /// The width of the screen window, a 32-bit floating-point number as
    /// its bit pattern.
    pub screen_window_width: u32,
}

impl Default for LayerAttributes {
    /// A layer without a name at the origin, with a screen window of width
    /// one around the origin.
    fn default() -> (r: LayerAttributes)
        ensures
            r.layer_name is None,
            r.layer_position == Vec2(0i32, 0i32),
            r.screen_window_center == Vec2(0u32, 0u32),
            r.screen_window_width == 0x3F80_0000u32,
    {
        LayerAttributes {
            layer_name: None,
            layer_position: Vec2(0, 0),
            screen_window_center: Vec2(0, 0),
            screen_window_width: 0x3F80_0000,
        }
    }
}

/// An image: its attributes and its layers. `Layers` is one `Layer` or
/// a vector of them.
#[derive(Debug, Clone, PartialEq, Eq)]
pub struct Image<Layers> {
    /// The attributes of the image as a whole.
    pub attributes: ImageAttributes,
    /// The layer or the layers of the image.
    pub layer_data: Layers,
}

/// The layers of an image with more than one.
pub type Layers<Channels> = Vec<Layer<Channels>>;

/// One layer of an image. `Channels` is `RgbaChannels` or `AnyChannels`.
#[derive(Debug, Clone, PartialEq, Eq)]
pub struct Layer<Channels> {
    /// The channels of the layer with their samples.
    pub channel_data: Channels,
    /// The attributes of the layer.
    pub attributes: LayerAttributes,
    /// The width and the height of the layer in pixels.
    pub size: Vec2<usize>,
    /// How the pixels are divided into blocks and compressed.
    pub encoding: Encoding,
}

/// How the pixels of a layer are divided into blocks and compressed.
#[derive(Copy, Clone, Debug, PartialEq, Eq)]
pub struct Encoding {
    /// How the pixel bytes of each block are compressed.
    pub compression: Compression,
    /// How the pixels are divided into blocks.
    pub blocks: Blocks,
    /// The order in which the blocks stand in the file.
    pub line_order: LineOrder,
}

/// How the pixels of a layer are divided into blocks.
#[derive(Copy, Clone, Debug, PartialEq, Eq)]
pub enum Blocks {
    /// Blocks of one or more whole scan lines.
    ScanLines,
    /// Tiles of a fixed size, at each resolution level.
    Tiles {
        /// The width and the height of a tile.
        tile_size: Vec2<usize>,
        /// Which way the size of a smaller level is rounded.
        rounding_mode: RoundingMode,
    },
}

/// Channels of any names and number, sorted by name.
#[derive(Debug, Clone, PartialEq, Eq)]
pub struct AnyChannels<Samples> {
    /// The channels. `AnyChannels::new` sorts them.
    pub list: Vec<AnyChannel<Samples>>,
}

/// One channel of any name.
#[derive(Debug, Clone, PartialEq, Eq)]
pub struct AnyChannel<Samples> {
    /// The name of the channel.
    pub name: Text,
    /// The samples of the channel.
    pub sample_data: Samples,
    /// Whether the samples are to be quantized linearly when they are
    /// compressed lossily, as is right for all but colors and luminance.
    pub quantize_linearly: bool,
    /// One sample stands for this many pixels along x and along y.
    pub sampling: Vec2<usize>,
}

/// The samples of a channel at one resolution level or at several.
#[derive(Debug, Clone, PartialEq, Eq)]
pub enum Levels<Samples> {
    /// The samples at full resolution only.
    Singular(Samples),
    /// The samples at each level of a mip map, the largest first.
    Mip(LevelMaps<Samples>),
    /// The samples at each level of a rip map.
    Rip(RipMaps<Samples>),
}

/// The samples at each of several resolution levels.
pub type LevelMaps<Samples> = Vec<Samples>;

/// The samples at each level of a rip map: at each pair of a level along
/// x and a level along y.
#[derive(Debug, Clone, PartialEq, Eq)]
pub struct RipMaps<Samples> {
    /// The levels, row by row: the level `(x, y)` stands at the index
    /// `y * level_count.0 + x`.
    pub map_data: LevelMaps<Samples>,
    /// How many levels there are along x and along y.
    pub level_count: Vec2<usize>,
}

/// The samples of a channel at one resolution: row after row in one
/// vector. A floating-point sample is held as its bit pattern.
#[derive(Debug, Clone, PartialEq, Eq)]
pub enum FlatSamples {
    /// 16-bit floating-point samples.
    F16(Vec<u16>),
    /// 32-bit floating-point samples.
    F32(Vec<u32>),
    /// Unsigned 32-bit samples.
    U32(Vec<u32>),
}

impl RgbaSampleTypes {
    /// Red, green and blue as 16-bit floating-point numbers, without alpha.
    pub fn rgb_f16() -> (r: RgbaSampleTypes)
        ensures
            r == RgbaSampleTypes(PixelType::F16, PixelType::F16, PixelType::F16, None),
    {
        RgbaSampleTypes(PixelType::F16, PixelType::F16, PixelType::F16, None)
    }

    /// Red, green and blue as 32-bit floating-point numbers, without alpha.
    pub fn rgb_f32() -> (r: RgbaSampleTypes)
        ensures
            r == RgbaSampleTypes(PixelType::F32, PixelType::F32, PixelType::F32, None),
    {
        RgbaSampleTypes(PixelType::F32, PixelType::F32, PixelType::F32, None)
    }

    /// Red, green, blue and alpha as 16-bit floating-point numbers.
    pub fn rgba_f16() -> (r: RgbaSampleTypes)
        ensures
            r == RgbaSampleTypes(
                PixelType::F16,
                PixelType::F16,
                PixelType::F16,
                Some(PixelType::F16),
            ),
    {
        RgbaSampleTypes(PixelType::F16, PixelType::F16, PixelType::F16, Some(PixelType::F16))
    }

    /// Red, green, blue and alpha as 32-bit floating-point numbers.
    pub fn rgba_f32() -> (r: RgbaSampleTypes)
        ensures
            r == RgbaSampleTypes(
                PixelType::F32,
                PixelType::F32,
                PixelType::F32,
                Some(PixelType::F32),
            ),
    {
        RgbaSampleTypes(PixelType::F32, PixelType::F32, PixelType::F32, Some(PixelType::F32))
    }
}

impl Encoding {
    /// No compression, blocks of scan lines from the top down.
    pub fn uncompressed() -> (r: Encoding)
        ensures
            r == (Encoding {
                compression: Compression::Uncompressed,
                blocks: Blocks::ScanLines,
                line_order: LineOrder::IncreasingY,
            }),
    {
        Encoding {
            compression: Compression::Uncompressed,
            blocks: Blocks::ScanLines,
            line_order: LineOrder::IncreasingY,
        }
    }

    /// Run-length encoding in tiles of 64 by 64 pixels, in any order.
    pub fn fast_lossless() -> (r: Encoding)
        ensures
            r == (Encoding {
                compression: Compression::RLE,
                blocks: Blocks::Tiles {
                    tile_size: Vec2(64usize, 64usize),
                    rounding_mode: RoundingMode::Down,
                },
                line_order: LineOrder::RandomY,
            }),
    {
        Encoding {
            compression: Compression::RLE,
            blocks: Blocks::Tiles { tile_size: Vec2(64, 64), rounding_mode: RoundingMode::Down },
            line_order: LineOrder::RandomY,
        }
    }

    /// Deflate in blocks of sixteen scan lines from the top down.
    pub fn small_lossless() -> (r: Encoding)
        ensures
            r == (Encoding {
                compression: Compression::ZIP16,
                blocks: Blocks::ScanLines,
                line_order: LineOrder::IncreasingY,
            }),
    {
        Encoding {
            compression: Compression::ZIP16,
            blocks: Blocks::ScanLines,
            line_order: LineOrder::IncreasingY,
        }
    }

    /// Wavelets in tiles of 256 by 256 pixels, in any order.
    pub fn small_fast_lossy() -> (r: Encoding)
        ensures
            r == (Encoding {
                compression: Compression::PIZ,
                blocks: Blocks::Tiles {
                    tile_size: Vec2(256usize, 256usize),
                    rounding_mode: RoundingMode::Down,
                },
                line_order: LineOrder::RandomY,
            }),
    {
        Encoding {
            compression: Compression::PIZ,
            blocks: Blocks::Tiles { tile_size: Vec2(256, 256), rounding_mode: RoundingMode::Down },
            line_order: LineOrder::RandomY,
        }
    }
}

impl Default for Encoding {
    /// Run-length encoding in tiles of 64 by 64 pixels, in any order.
    fn default() -> (r: Encoding)
        ensures
            r == (Encoding {
                compression: Compression::RLE,
                blocks: Blocks::Tiles {
                    tile_size: Vec2(64usize, 64usize),
                    rounding_mode: RoundingMode::Down,
                },
                line_order: LineOrder::RandomY,
            }),
    {
        Encoding::fast_lossless()
    }
}

impl FlatSamples {
    /// How many samples there are.
    pub open spec fn spec_len(&self) -> nat {
        match self {
            FlatSamples::F16(samples) => samples@.len(),
            FlatSamples::F32(samples) => samples@.len(),
            FlatSamples::U32(samples) => samples@.len(),
        }
    }

    /// How many samples there are.
    pub fn len(&self) -> (r: usize)
        ensures
            r == self.spec_len(),
    {
        match self {
            FlatSamples::F16(vec) => vec.len(),
            FlatSamples::F32(vec) => vec.len(),
            FlatSamples::U32(vec) => vec.len(),
        }
    }
}

/// Whether any of the bit patterns of 16-bit floating-point numbers is that of no number.
pub open spec fn any_f16_is_nan(samples: Seq<u16>) -> bool {
    exists|i: int| 0 <= i < samples.len() && spec_f16_is_nan(#[trigger] samples[i])
}

/// Whether any of the bit patterns of 32-bit floating-point numbers is that of no number.
pub open spec fn any_f32_is_nan(samples: Seq<u32>) -> bool {
    exists|i: int| 0 <= i < samples.len() && spec_f32_is_nan(#[trigger] samples[i])
}

/// Says whether any of the bit patterns of 16-bit floating-point numbers is that of no number.
pub fn contains_f16_nan(values: &[u16]) -> (r: bool)
    ensures
        r == any_f16_is_nan(values@),
{
    let mut index: usize = 0;
    while index < values.len()
        invariant
            index <= values@.len(),
            forall|i: int| 0 <= i < index ==> !spec_f16_is_nan(#[trigger] values@[i]),
        decreases values@.len() - index,
    {
        if f16_is_nan(values[index]) {
            assert(spec_f16_is_nan(values@[index as int]));
            return true;
        }
        index = index + 1;
    }
    false
}

/// Says whether any of the bit patterns of 32-bit floating-point numbers is that of no number.
pub fn contains_f32_nan(values: &[u32]) -> (r: bool)
    ensures
        r == any_f32_is_nan(values@),
{
    let mut index: usize = 0;
    while index < values.len()
        invariant
            index <= values@.len(),
            forall|i: int| 0 <= i < index ==> !spec_f32_is_nan(#[trigger] values@[i]),
        decreases values@.len() - index,
    {
        if f32_is_nan(values[index]) {
            assert(spec_f32_is_nan(values@[index as int]));
            return true;
        }
        index = index + 1;
    }
    false
}

impl ContainsNaN for FlatSamples {
    open spec fn has_nan(&self) -> bool {
        match self {
            FlatSamples::F16(samples) => any_f16_is_nan(samples@),
            FlatSamples::F32(samples) => any_f32_is_nan(samples@),
            FlatSamples::U32(_) => false,
        }
    }

    fn contains_nan_pixels(&self) -> (r: bool) {
        match self {
            FlatSamples::F16(values) => contains_f16_nan(values.as_slice()),
            FlatSamples::F32(values) => contains_f32_nan(values.as_slice()),
            FlatSamples::U32(_) => false,
        }
    }
}

impl<T: ContainsNaN> ContainsNaN for Vec<T> {
    open spec fn has_nan(&self) -> bool {
        exists|i: int| 0 <= i < self@.len() && (#[trigger] self@[i]).has_nan()
    }

    fn contains_nan_pixels(&self) -> (r: bool) {
        let mut index: usize = 0;
        while index < self.len()
            invariant
                index <= self@.len(),
                forall|i: int| 0 <= i < index ==> !(#[trigger] self@[i]).has_nan(),
            decreases self@.len() - index,
        {
            if self[index].contains_nan_pixels() {
                return true;
            }
            index = index + 1;
        }
        false
    }
}

impl<C: ContainsNaN> ContainsNaN for Levels<C> {
    open spec fn has_nan(&self) -> bool {
        match self {
            Levels::Singular(samples) => samples.has_nan(),
            Levels::Mip(maps) => maps.has_nan(),
            Levels::Rip(maps) => maps.map_data.has_nan(),
        }
    }

    fn contains_nan_pixels(&self) -> (r: bool) {
        match self {
            Levels::Singular(samples) => samples.contains_nan_pixels(),
            Levels::Mip(maps) => maps.contains_nan_pixels(),
            Levels::Rip(maps) => maps.map_data.contains_nan_pixels(),
        }
    }
}

impl<C: ContainsNaN> ContainsNaN for AnyChannel<C> {
    open spec fn has_nan(&self) -> bool {
        self.sample_data.has_nan()
    }

    fn contains_nan_pixels(&self) -> (r: bool) {
        self.sample_data.contains_nan_pixels()
    }
}

impl<C: ContainsNaN> ContainsNaN for AnyChannels<C> {
    open spec fn has_nan(&self) -> bool {
        self.list.has_nan()
    }

    fn contains_nan_pixels(&self) -> (r: bool) {
        self.list.contains_nan_pixels()
    }
}

impl<C: ContainsNaN> ContainsNaN for Layer<C> {
    open spec fn has_nan(&self) -> bool {
        self.channel_data.has_nan()
    }

    fn contains_nan_pixels(&self) -> (r: bool) {
        self.channel_data.contains_nan_pixels()
    }
}

impl<L: ContainsNaN> ContainsNaN for Image<L> {
    open spec fn has_nan(&self) -> bool {
        self.layer_data.has_nan()
    }

    fn contains_nan_pixels(&self) -> (r: bool) {
        self.layer_data.contains_nan_pixels()
    }
}

impl<Samples> Named for AnyChannel<Samples> {
    open spec fn spec_name(&self) -> Seq<u8> {
        self.name@
    }

    fn name(&self) -> (r: &Text) {
        &self.name
    }
}

impl<SampleData> AnyChannels<SampleData> {
    /// The channels sorted by name. Channels of the same name stay in the
    /// order that they were in.
    pub fn new(list: Vec<AnyChannel<SampleData>>) -> (r: Self)
        ensures
            r.list@ == sorted_by_name(list@),
    {
        AnyChannels { list: sort_by_name(list) }
    }
}

impl<LevelSamples> Levels<LevelSamples> {
    /// The samples at the given level, if there is such a level: the
    /// level `(0, 0)` where there is one level only; a level with the same
    /// index along x and along y in a mip map; a level within the counts
    /// of levels in a rip map.
    pub open spec fn spec_get_level(&self, level: Vec2<usize>) -> Option<LevelSamples> {
        match self {
            Levels::Singular(samples) => if level == Vec2(0usize, 0usize) {
                Some(*samples)
            } else {
                None
            },
            Levels::Mip(maps) => if level.0 == level.1 && level.0 < maps@.len() {
                Some(maps@[level.0 as int])
            } else {
                None
            },
            Levels::Rip(maps) => maps.spec_get_by_level(level),
        }
    }

    /// The samples at the given level. Fails with `InvalidLevelIndex`
    /// where there is no such level.
    pub fn get_level(&self, level: Vec2<usize>) -> (r: Result<&LevelSamples, Error>)
        ensures
            match self.spec_get_level(level) {
                Some(samples) => r == Ok::<&LevelSamples, Error>(&samples),
                None => r == Err::<&LevelSamples, Error>(Error::InvalidLevelIndex),
            },
    {
        match self {
            Levels::Singular(block) => {
                if level.0 == 0 && level.1 == 0 {
                    Ok(block)
                } else {
                    Err(Error::InvalidLevelIndex)
                }
            },
            Levels::Mip(block) => {
                if level.0 == level.1 && level.0 < block.len() {
                    Ok(&block[level.0])
                } else {
                    Err(Error::InvalidLevelIndex)
                }
            },
            Levels::Rip(block) => match block.get_by_level(level) {
                Some(samples) => Ok(samples),
                None => Err(Error::InvalidLevelIndex),
            },
        }
    }

    /// All levels, the largest first.
    pub open spec fn spec_levels(&self) -> Seq<LevelSamples> {
        match self {
            Levels::Singular(samples) => seq![*samples],
            Levels::Mip(maps) => maps@,
            Levels::Rip(maps) => maps.map_data@,
        }
    }

    /// Which levels there are.
    pub fn level_mode(&self) -> (r: LevelMode)
        ensures
            r == match self {
                Levels::Singular(_) => LevelMode::One,
                Levels::Mip(_) => LevelMode::MipMap,
                Levels::Rip(_) => LevelMode::RipMap,
            },
    {
        match self {
            Levels::Singular(_) => LevelMode::One,
            Levels::Mip(_) => LevelMode::MipMap,
            Levels::Rip(_) => LevelMode::RipMap,
        }
    }
}

impl<Samples> RipMaps<Samples> {
    /// The index of the level `(x, y)` in the vector of levels.
    pub open spec fn spec_level_index(&self, level: Vec2<usize>) -> int {
        self.level_count.0 * level.1 + level.0
    }

    /// The samples at the given level, if the level is within the counts
    /// of levels and the vector of levels holds it.
    pub open spec fn spec_get_by_level(&self, level: Vec2<usize>) -> Option<Samples> {
        if level.0 < self.level_count.0 && level.1 < self.level_count.1 && self.spec_level_index(
            level,
        ) < self.map_data@.len() {
            Some(self.map_data@[self.spec_level_index(level)])
        } else {
            None
        }
    }

    /// The index of the level `(x, y)` in the vector of levels.
    pub fn get_level_index(&self, level: Vec2<usize>) -> (r: usize)
        requires
            self.spec_level_index(level) <= usize::MAX,
        ensures
            r == self.spec_level_index(level),
    {
        assert(0 <= self.level_count.0 * level.1) by (nonlinear_arith);
        self.level_count.0 * level.1 + level.0
    }

    /// The index of the level `(x, y)` in the vector of levels, if the
    /// level is within the counts of levels and the vector holds it.
    fn checked_level_index(&self, level: Vec2<usize>) -> (r: Option<usize>)
        ensures
            r == if level.0 < self.level_count.0 && level.1 < self.level_count.1
                && self.spec_level_index(level) < self.map_data@.len() {
                Some(self.spec_level_index(level) as usize)
            } else {
                None
            },
    {
        if level.0 >= self.level_count.0 || level.1 >= self.level_count.1 {
            return None;
        }
        let len = self.map_data.len();
        match self.level_count.0.checked_mul(level.1) {
            None => None,
            Some(row) => match row.checked_add(level.0) {
                None => None,
                Some(index) => if index < len {
                    Some(index)
                } else {
                    None
                },
            },
        }
    }

    /// The samples at the given level, if there is such a level.
    pub fn get_by_level(&self, level: Vec2<usize>) -> (r: Option<&Samples>)
        ensures
            match self.spec_get_by_level(level) {
                Some(samples) => r == Some(&samples),
                None => r is None,
            },
    {
        assert(0 <= self.level_count.0 * level.1) by (nonlinear_arith);
        let len = self.map_data.len();
        match self.checked_level_index(level) {
            Some(index) => Some(&self.map_data[index]),
            None => None,
        }
    }
}

impl<ChannelData> Layer<ChannelData> {
    /// A layer of the given size, attributes, encoding and channels.
    pub fn new(
        dimensions: Vec2<usize>,
        attributes: LayerAttributes,
        encoding: Encoding,
        channels: ChannelData,
    ) -> (r: Self)
        ensures
            r == (Layer { channel_data: channels, attributes, size: dimensions, encoding }),
    {
        Layer { channel_data: channels, attributes, size: dimensions, encoding }
    }
}

impl<LayerData> Image<LayerData> {
    /// An image of the given attributes and layers.
    pub fn new(image_attributes: ImageAttributes, layer_data: LayerData) -> (r: Self)
        ensures
            r == (Image { attributes: image_attributes, layer_data }),
    {
        Image { attributes: image_attributes, layer_data }
    }
}

impl<ChannelData> Image<Layer<ChannelData>> {
    /// An image of one layer. Its display window is the rectangle of the layer.
    pub fn from_single_layer(layer: Layer<ChannelData>) -> (r: Self)
        ensures
            r.layer_data == layer,
            r.attributes == (ImageAttributes {
                display_window: IntRect {
                    position: layer.attributes.layer_position,
                    size: layer.size,
                },
                pixel_aspect: 0x3F80_0000u32,
            }),
    {
        let bounds = IntRect::new(layer.attributes.layer_position, layer.size);
        Image::new(ImageAttributes::new(bounds), layer)
    }

    /// An image of one layer of the given size, encoding and channels,
    /// without a name, at the origin.
    pub fn with_encoded_single_layer(size: Vec2<usize>, encoding: Encoding, channels: ChannelData)
        -> (r: Self)
        ensures
            r.layer_data.channel_data == channels,
            r.layer_data.size == size,
            r.layer_data.encoding == encoding,
            r.layer_data.attributes.layer_name is None,
            r.attributes == (ImageAttributes {
                display_window: IntRect { position: Vec2(0i32, 0i32), size },
                pixel_aspect: 0x3F80_0000u32,
            }),
    {
        Image::from_single_layer(Layer::new(size, LayerAttributes::default(), encoding, channels))
    }

    /// An image of one layer of the given size and channels, without a
    /// name, at the origin, with run-length encoding in tiles.
    pub fn with_single_layer(size: Vec2<usize>, channels: ChannelData) -> (r: Self)
        ensures
            r.layer_data.channel_data == channels,
            r.layer_data.size == size,
            r.layer_data.encoding == (Encoding {
                compression: Compression::RLE,
                blocks: Blocks::Tiles {
                    tile_size: Vec2(64usize, 64usize),
                    rounding_mode: RoundingMode::Down,
                },
                line_order: LineOrder::RandomY,
            }),
            r.layer_data.attributes.layer_name is None,
            r.attributes == (ImageAttributes {
                display_window: IntRect { position: Vec2(0i32, 0i32), size },
                pixel_aspect: 0x3F80_0000u32,
            }),
    {
        Image::with_encoded_single_layer(size, Encoding::default(), channels)
    }
}

/// Whether the name is that of a color or of luminance: one of the
/// letters R, G, B, L and Y, large or small.
pub open spec fn is_luminance_name(name: Seq<u8>) -> bool {
    name.len() == 1 && (name[0] == 82 || name[0] == 114 || name[0] == 71 || name[0] == 103
        || name[0] == 66 || name[0] == 98 || name[0] == 76 || name[0] == 108 || name[0] == 89
        || name[0] == 121)
}

impl<SampleData> AnyChannel<SampleData> {
    /// A channel of the given name and samples, with a sample for each
    /// pixel. Its samples are to be quantized linearly unless its name is
    /// that of a color or of luminance.
    pub fn new(name: Text, sample_data: SampleData) -> (r: Self)
        ensures
            r == (AnyChannel {
                name,
                sample_data,
                quantize_linearly: !is_luminance_name(name@),
                sampling: Vec2(1usize, 1usize),
            }),
    {
        let bytes = name.as_slice();
        let luminance_based = bytes.len() == 1 && (bytes[0] == 82 || bytes[0] == 114 || bytes[0]
            == 71 || bytes[0] == 103 || bytes[0] == 66 || bytes[0] == 98 || bytes[0] == 76
            || bytes[0] == 108 || bytes[0] == 89 || bytes[0] == 121);
        AnyChannel {
            name,
            sample_data,
            quantize_linearly: !luminance_based,
            sampling: Vec2(1, 1),
        }
    }
}

/// `std::slice::from_ref`: a slice of the one item.
#[verifier::external_body]
fn slice_of_one<T>(item: &T) -> (r: &[T])
    ensures
        r@ == seq![*item],
{
    std::slice::from_ref(item)
}

impl<LevelSamples> Levels<LevelSamples> {
    /// All levels, the largest first.
    pub fn levels_as_slice(&self) -> (r: &[LevelSamples])
        ensures
            r@ == self.spec_levels(),
    {
        match self {
            Levels::Singular(data) => slice_of_one(data),
            Levels::Mip(maps) => maps.as_slice(),
            Levels::Rip(rip_map) => rip_map.map_data.as_slice(),
        }
    }

    /// The place of the level with the given index among all levels.
    pub open spec fn spec_level_position(&self, level: Vec2<usize>) -> int {
        match self {
            Levels::Singular(_) => 0,
            Levels::Mip(_) => level.0 as int,
            Levels::Rip(maps) => maps.spec_level_index(level),
        }
    }

    /// Whether `other` has levels of the same kind and, in a rip map, the
    /// same counts of levels.
    pub open spec fn has_same_shape(&self, other: &Self) -> bool {
        match self {
            Levels::Singular(_) => other is Singular,
            Levels::Mip(_) => other is Mip,
            Levels::Rip(maps) => other matches Levels::Rip(others) && others.level_count
                == maps.level_count,
        }
    }

    /// The samples at the given level, to be changed in place. Fails with
    /// `InvalidLevelIndex` where there is no such level.
    pub fn get_level_mut(&mut self, level: Vec2<usize>) -> (r: Result<&mut LevelSamples, Error>)
        ensures
            match r {
                Ok(samples) => old(self).spec_get_level(level) == Some(*samples) && old(self).has_same_shape(final(self)) && final(self).spec_levels() == old(self).spec_levels().update(old(self).spec_level_position(level), *final(samples)),
                Err(e) => e == Error::InvalidLevelIndex && old(self).spec_get_level(level) is None
                    && *final(self) == *old(self),
            },
    {
        match self {
            Levels::Singular(block) => {
                if level.0 == 0 && level.1 == 0 {
                    proof {
                        assert(seq![*final(block)] =~= seq![*block].update(0, *final(block)));
                    }
                    Ok(block)
                } else {
                    Err(Error::InvalidLevelIndex)
                }
            },
            Levels::Mip(block) => {
                if level.0 == level.1 && level.0 < block.len() {
                    Ok(&mut block[level.0])
                } else {
                    Err(Error::InvalidLevelIndex)
                }
            },
            Levels::Rip(block) => match block.get_by_level_mut(level) {
                Some(samples) => Ok(samples),
                None => Err(Error::InvalidLevelIndex),
            },
        }
    }
}

impl<Samples> RipMaps<Samples> {
    /// The samples at the given level, to be changed in place, if there
    /// is such a level.
    pub fn get_by_level_mut(&mut self, level: Vec2<usize>) -> (r: Option<&mut Samples>)
        ensures
            match r {
                Some(samples) => old(self).spec_get_by_level(level) == Some(*samples) && final(self).level_count == old(self).level_count && final(self).map_data@ == old(self).map_data@.update(old(self).spec_level_index(level), *final(samples)),
                None => old(self).spec_get_by_level(level) is None && *final(self) == *old(self),
            },
    {
        assert(0 <= self.level_count.0 * level.1) by (nonlinear_arith);
        let len = self.map_data.len();
        match self.checked_level_index(level) {
            Some(index) => Some(&mut self.map_data[index]),
            None => None,
        }
    }
}

impl<LC> Layer<LC> {
    /// Whether the levels can be those of a channel of this layer: more
    /// levels than one are found in a layer of tiles only.
    pub open spec fn can_hold<L>(&self, levels: &Levels<L>) -> bool {
        levels is Singular || self.encoding.blocks is Tiles
    }

    /// The levels of a channel of this layer, each with the size of the
    /// layer at that level. Where there are fewer levels than the size
    /// of the layer asks for, or more, the levels and the sizes are
    /// paired as far as both go.
    pub fn levels_with_resolution<'l, L>(&self, levels: &'l Levels<L>) -> (r: Vec<
        (&'l L, Vec2<usize>),
    >)
        requires
            self.can_hold(levels),
        ensures
            match levels {
                Levels::Singular(level) => r@ == seq![(level, self.size)],
                Levels::Mip(maps) => {
                    &&& r@.len() <= maps@.len()
                    &&& r@.len() <= spec_level_count(
                        self.encoding.blocks->rounding_mode,
                        spec_max(self.size.0, self.size.1) as nat,
                    )
                    &&& r@.len() == maps@.len() || r@.len() == spec_level_count(
                        self.encoding.blocks->rounding_mode,
                        spec_max(self.size.0, self.size.1) as nat,
                    )
                    &&& forall|i: int|
                        0 <= i < r@.len() ==> *(#[trigger] r@[i]).0 == maps@[i] && is_level(
                            self.encoding.blocks->rounding_mode,
                            self.size,
                            i,
                            i,
                            (Vec2(i as usize, i as usize), r@[i].1),
                        )
                },
                Levels::Rip(rip) => {
                    let x_count = spec_level_count(
                        self.encoding.blocks->rounding_mode,
                        self.size.0 as nat,
                    ) as int;
                    let y_count = spec_level_count(
                        self.encoding.blocks->rounding_mode,
                        self.size.1 as nat,
                    ) as int;
                    &&& r@.len() <= rip.map_data@.len()
                    &&& r@.len() <= y_count * x_count
                    &&& r@.len() == rip.map_data@.len() || r@.len() == y_count * x_count
                    &&& forall|i: int| 0 <= i < r@.len() ==> *(#[trigger] r@[i]).0 == rip.map_data@[i]
                    &&& forall|x: int, y: int|
                        0 <= x < x_count && 0 <= y < y_count && #[trigger] rip_level_index(
                            x,
                            y,
                            x_count,
                        ) < r@.len() ==> is_level(
                            self.encoding.blocks->rounding_mode,
                            self.size,
                            x,
                            y,
                            (
                                Vec2(x as usize, y as usize),
                                r@[rip_level_index(x, y, x_count)].1,
                            ),
                        )
                },
            },
    {
        match levels {
            Levels::Singular(level) => {
                let mut result: Vec<(&'l L, Vec2<usize>)> = Vec::new();
                result.push((level, self.size));
                assert(result@ =~= seq![(level, self.size)]);
                result
            },
            Levels::Mip(maps) => {
                let rounding_mode = match self.encoding.blocks {
                    Blocks::Tiles { rounding_mode, .. } => rounding_mode,
                    Blocks::ScanLines => RoundingMode::Down,
                };
                let sizes = mip_map_levels(rounding_mode, self.size);
                let mut result: Vec<(&'l L, Vec2<usize>)> = Vec::new();
                let mut index: usize = 0;
                while index < maps.len() && index < sizes.len()
                    invariant
                        index <= maps@.len(),
                        index <= sizes@.len(),
                        result@.len() == index,
                        forall|i: int|
                            0 <= i < index ==> *(#[trigger] result@[i]).0 == maps@[i]
                                && result@[i].1 == sizes@[i].1,
                    decreases maps@.len() - index,
                {
                    result.push((&maps[index], sizes[index].1));
                    index = index + 1;
                }
                proof {
                    assert forall|i: int| 0 <= i < result@.len() implies is_level(
                        rounding_mode,
                        self.size,
                        i,
                        i,
                        (Vec2(i as usize, i as usize), (#[trigger] result@[i]).1),
                    ) by {
                        assert(is_level(
                            rounding_mode,
                            self.size,
                            i,
                            i,
                            (Vec2(sizes@[i].0, sizes@[i].0), sizes@[i].1),
                        ));
                    }
                }
                result
            },
            Levels::Rip(rip) => {
                let rounding_mode = match self.encoding.blocks {
                    Blocks::Tiles { rounding_mode, .. } => rounding_mode,
                    Blocks::ScanLines => RoundingMode::Down,
                };
                let sizes = rip_map_levels(rounding_mode, self.size);
                let mut result: Vec<(&'l L, Vec2<usize>)> = Vec::new();
                let mut index: usize = 0;
                while index < rip.map_data.len() && index < sizes.len()
                    invariant
                        index <= rip.map_data@.len(),
                        index <= sizes@.len(),
                        result@.len() == index,
                        forall|i: int|
                            0 <= i < index ==> *(#[trigger] result@[i]).0 == rip.map_data@[i]
                                && result@[i].1 == sizes@[i].1,
                    decreases rip.map_data@.len() - index,
                {
                    result.push((&rip.map_data[index], sizes[index].1));
                    index = index + 1;
                }
                proof {
                    let x_count = spec_level_count(rounding_mode, self.size.0 as nat) as int;
                    let y_count = spec_level_count(rounding_mode, self.size.1 as nat) as int;
                    assert forall|x: int, y: int|
                        0 <= x < x_count && 0 <= y < y_count && #[trigger] rip_level_index(
                            x,
                            y,
                            x_count,
                        ) < result@.len() implies is_level(
                        rounding_mode,
                        self.size,
                        x,
                        y,
                        (Vec2(x as usize, y as usize), result@[rip_level_index(x, y, x_count)].1),
                    ) by {
                        let k = rip_level_index(x, y, x_count);
                        assert(is_level(rounding_mode, self.size, x, y, sizes@[k]));
                        assert(result@[k].1 == sizes@[k].1);
                    }
                }
                result
            },
        }
    }
}

} // verus!
