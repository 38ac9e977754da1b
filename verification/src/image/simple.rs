//! A plain image: parts with channels of samples at full resolution.

use vstd::prelude::*;
use smallvec::SmallVec;
use crate::error::{Error, Value, Required};
use crate::math::{Vec2, IntRect};
use crate::compression::Compression;
use crate::io::{
    u16_seq_le, u16_seq_from_le, u32_seq_le, u32_seq_from_le, write_u16_array, write_u32_array,
    lemma_seq_le_decodes_encoded, lemma_seq_le_encodes_decoded,
};
use crate::block::{Line, LineIndex, spec_f16_is_nan, spec_f32_is_nan};
use crate::chunk::BlockBounds;
use crate::file::attributes::{
    Attribute, AttributeValue, AttributeValueView, AttributeView, ChannelView, ChannelList,
    LineOrder, PixelType, Text, LevelMode, RoundingMode, TileDescription, attribute_views,
    channel_views, name_view, clone_name, clone_attributes,
};
use crate::sort::{Named, sort_by_name, sorted_by_name, precedes, bytes_precede};
use crate::meta::{
    Attributes, BlockDescription, Header, MetaData, Requirements, compute_chunk_count,
    spec_chunk_count, tile_size_error,
};

verus! {

/// How to write an image.
#[derive(Copy, Clone, Debug, Eq, PartialEq)]
pub struct WriteOptions {
    /// Whether blocks may be compressed on several threads at once.
    pub parallel_compression: bool,
}

/// How to read an image.
#[derive(Copy, Clone, Debug, Eq, PartialEq)]
pub struct ReadOptions {
    /// Whether blocks may be decompressed on several threads at once.
    pub parallel_decompression: bool,
}

impl Default for WriteOptions {
    fn default() -> (r: Self)
        ensures
            r == (WriteOptions { parallel_compression: true }),
    {
        Self::fast()
    }
}

impl Default for ReadOptions {
    fn default() -> (r: Self)
        ensures
            r == (ReadOptions { parallel_decompression: true }),
    {
        Self::fast()
    }
}

impl WriteOptions {
    /// Compresses on all cores.
    pub fn fast() -> (r: Self)
        ensures
            r == (WriteOptions { parallel_compression: true }),
    {
        WriteOptions { parallel_compression: true }
    }

    /// Compresses one block at a time.
    pub fn low_memory() -> (r: Self)
        ensures
            r == (WriteOptions { parallel_compression: false }),
    {
        WriteOptions { parallel_compression: false }
    }

    /// Compresses one block at a time, in the order of the file.
    pub fn debug() -> (r: Self)
        ensures
            r == (WriteOptions { parallel_compression: false }),
    {
        WriteOptions { parallel_compression: false }
    }
}

impl ReadOptions {
    /// Decompresses on all cores.
    pub fn fast() -> (r: Self)
        ensures
            r == (ReadOptions { parallel_decompression: true }),
    {
        ReadOptions { parallel_decompression: true }
    }

    /// Decompresses one block at a time.
    pub fn low_memory() -> (r: Self)
        ensures
            r == (ReadOptions { parallel_decompression: false }),
    {
        ReadOptions { parallel_decompression: false }
    }

    /// Decompresses one block at a time, in the order of the file.
    pub fn debug() -> (r: Self)
        ensures
            r == (ReadOptions { parallel_decompression: false }),
    {
        ReadOptions { parallel_decompression: false }
    }
}

/// The samples of a channel: row after row in one vector, each row from
/// the left to the right. A floating-point sample is held as its bit pattern.
///
/// The sample of the pixel `(x, y)` of a channel that is `width` samples
/// wide stands at the index `y * width + x`.
#[derive(Debug, Clone, PartialEq, Eq)]
pub enum Samples {
    /// 16-bit floating-point samples.
    F16(Vec<u16>),
    /// 32-bit floating-point samples.
    F32(Vec<u32>),
    /// Unsigned 32-bit samples.
    U32(Vec<u32>),
}

/// What the samples of a channel hold.
pub enum SamplesView {
    F16(Seq<u16>),
    F32(Seq<u32>),
    U32(Seq<u32>),
}

impl View for Samples {
    type V = SamplesView;

    open spec fn view(&self) -> SamplesView {
        match self {
            Samples::F16(samples) => SamplesView::F16(samples@),
            Samples::F32(samples) => SamplesView::F32(samples@),
            Samples::U32(samples) => SamplesView::U32(samples@),
        }
    }
}

impl SamplesView {
    /// How many samples there are.
    pub open spec fn len(self) -> nat {
        match self {
            SamplesView::F16(samples) => samples.len(),
            SamplesView::F32(samples) => samples.len(),
            SamplesView::U32(samples) => samples.len(),
        }
    }

    /// The type of the samples.
    pub open spec fn sample_type(self) -> PixelType {
        match self {
            SamplesView::F16(_) => PixelType::F16,
            SamplesView::F32(_) => PixelType::F32,
            SamplesView::U32(_) => PixelType::U32,
        }
    }

    /// The bytes of the samples from `start` up to `end`.
    pub open spec fn bytes_between(self, start: int, end: int) -> Seq<u8>
        recommends
            0 <= start <= end <= self.len(),
    {
        match self {
            SamplesView::F16(samples) => u16_seq_le(samples.subrange(start, end)),
            SamplesView::F32(samples) => u32_seq_le(samples.subrange(start, end)),
            SamplesView::U32(samples) => u32_seq_le(samples.subrange(start, end)),
        }
    }

    /// The samples with `count` of them, from `start` on, replaced by
    /// those that `bytes` holds.
    pub open spec fn with_samples_from(self, start: int, count: nat, bytes: Seq<u8>) -> SamplesView
        recommends
            0 <= start,
            start + count <= self.len(),
    {
        match self {
            SamplesView::F16(samples) => SamplesView::F16(
                samples.take(start) + u16_seq_from_le(bytes, count) + samples.skip(start + count),
            ),
            SamplesView::F32(samples) => SamplesView::F32(
                samples.take(start) + u32_seq_from_le(bytes, count) + samples.skip(start + count),
            ),
            SamplesView::U32(samples) => SamplesView::U32(
                samples.take(start) + u32_seq_from_le(bytes, count) + samples.skip(start + count),
            ),
        }
    }

    /// Whether any sample is a floating-point number that is not a number.
    pub open spec fn has_nan(self) -> bool {
        match self {
            SamplesView::F16(samples) => exists|i: int|
                0 <= i < samples.len() && spec_f16_is_nan(#[trigger] samples[i]),
            SamplesView::F32(samples) => exists|i: int|
                0 <= i < samples.len() && spec_f32_is_nan(#[trigger] samples[i]),
            SamplesView::U32(_) => false,
        }
    }
}

/// The index of the sample at `position` in a channel that is
/// `resolution.0` samples wide.
pub open spec fn line_start(resolution: Vec2<usize>, position: Vec2<usize>) -> int {
    position.1 * resolution.0 + position.0
}

/// The error for a line that does not lie within its channel.
pub open spec fn line_position_error(what: &'static str) -> Error {
    Error::InvalidContent {
        what: Value::Attribute(what),
        required: Required::Exact("a line within the channel"),
    }
}

/// What is wrong with the place of a line in a channel of the given
/// resolution that holds `len` samples, if anything: the line reaches
/// beyond the right edge, or lies below the last row, or the channel does
/// not hold as many samples as its resolution asks for.
pub open spec fn validate_line_position(resolution: Vec2<usize>, location: LineIndex, len: nat)
    -> Result<(), Error> {
    if location.position.0 + location.width > resolution.0 {
        Err(line_position_error("data block x coordinate"))
    } else if location.position.1 >= resolution.1 {
        Err(line_position_error("data block y coordinate"))
    } else if line_start(resolution, location.position) + location.width > len {
        Err(line_position_error("sample storage"))
    } else {
        Ok(())
    }
}

/// What inserting a line makes of the samples of a channel, or why it fails.
pub open spec fn insert_line_spec(samples: SamplesView, resolution: Vec2<usize>, line: Line)
    -> Result<SamplesView, Error> {
    match validate_line_position(resolution, line.location, samples.len()) {
        Err(e) => Err(e),
        Ok(_) => match line.validate_samples(samples.sample_type()) {
            Err(e) => Err(e),
            Ok(_) => Ok(
                samples.with_samples_from(
                    line_start(resolution, line.location.position),
                    line.location.width as nat,
                    line.value@,
                ),
            ),
        },
    }
}

/// Says what is wrong with the place of a line, if anything, and else where it starts.
fn check_line_position(resolution: Vec2<usize>, location: LineIndex, len: usize) -> (r: Result<
    usize,
    Error,
>)
    ensures
        match validate_line_position(resolution, location, len as nat) {
            Ok(_) => r == Ok::<usize, Error>(line_start(resolution, location.position) as usize)
                && line_start(resolution, location.position) + location.width <= len,
            Err(e) => r == Err::<usize, Error>(e),
        },
{
    let beyond = match location.position.0.checked_add(location.width) {
        Some(end) => end > resolution.0,
        None => true,
    };
    if beyond {
        return Err(
            Error::InvalidContent {
                what: Value::Attribute("data block x coordinate"),
                required: Required::Exact("a line within the channel"),
            },
        );
    }
    if location.position.1 >= resolution.1 {
        return Err(
            Error::InvalidContent {
                what: Value::Attribute("data block y coordinate"),
                required: Required::Exact("a line within the channel"),
            },
        );
    }
    let end = match location.position.1.checked_mul(resolution.0) {
        None => None,
        Some(row_start) => match row_start.checked_add(location.position.0) {
            None => None,
            Some(start) => match start.checked_add(location.width) {
                None => None,
                Some(end) => if end <= len {
                    Some(start)
                } else {
                    None
                },
            },
        },
    };
    match end {
        Some(start) => Ok(start),
        None => Err(
            Error::InvalidContent {
                what: Value::Attribute("sample storage"),
                required: Required::Exact("a line within the channel"),
            },
        ),
    }
}

/// Puts `new` in the place of the samples of `samples` from `start` on.
fn replace_u16(samples: &mut Vec<u16>, start: usize, new: &Vec<u16>)
    requires
        start + new@.len() <= old(samples)@.len(),
    ensures
        final(samples)@ == old(samples)@.take(start as int) + new@ + old(samples)@.skip(
            start + new@.len(),
        ),
{
    let mut index: usize = 0;
    assert(samples@.len() <= usize::MAX) by {
        let _ = samples.len();
    }
    assert(samples@ =~= old(samples)@.take(start as int) + new@.take(0) + old(samples)@.skip(
        start as int,
    ));
    while index < new.len()
        invariant
            index <= new@.len(),
            start + new@.len() <= samples@.len() <= usize::MAX,
            samples@.len() == old(samples)@.len(),
            samples@ == old(samples)@.take(start as int) + new@.take(index as int) + old(samples)@.skip(start + index),
        decreases new@.len() - index,
    {
        samples.set(start + index, new[index]);
        index = index + 1;
        assert(samples@ =~= old(samples)@.take(start as int) + new@.take(index as int) + old(samples)@.skip(start + index));
    }
    assert(new@.take(index as int) =~= new@);
}

/// Puts `new` in the place of the samples of `samples` from `start` on.
fn replace_u32(samples: &mut Vec<u32>, start: usize, new: &Vec<u32>)
    requires
        start + new@.len() <= old(samples)@.len(),
    ensures
        final(samples)@ == old(samples)@.take(start as int) + new@ + old(samples)@.skip(
            start + new@.len(),
        ),
{
    let mut index: usize = 0;
    assert(samples@.len() <= usize::MAX) by {
        let _ = samples.len();
    }
    assert(samples@ =~= old(samples)@.take(start as int) + new@.take(0) + old(samples)@.skip(
        start as int,
    ));
    while index < new.len()
        invariant
            index <= new@.len(),
            start + new@.len() <= samples@.len() <= usize::MAX,
            samples@.len() == old(samples)@.len(),
            samples@ == old(samples)@.take(start as int) + new@.take(index as int) + old(samples)@.skip(start + index),
        decreases new@.len() - index,
    {
        samples.set(start + index, new[index]);
        index = index + 1;
        assert(samples@ =~= old(samples)@.take(start as int) + new@.take(index as int) + old(samples)@.skip(start + index));
    }
    assert(new@.take(index as int) =~= new@);
}

impl Samples {
    /// How many samples there are.
    pub fn len(&self) -> (r: usize)
        ensures
            r == self@.len(),
    {
        match self {
            Samples::F16(vec) => vec.len(),
            Samples::F32(vec) => vec.len(),
            Samples::U32(vec) => vec.len(),
        }
    }

    /// The type of the samples.
    pub fn sample_type(&self) -> (r: PixelType)
        ensures
            r == self@.sample_type(),
    {
        match self {
            Samples::F16(_) => PixelType::F16,
            Samples::F32(_) => PixelType::F32,
            Samples::U32(_) => PixelType::U32,
        }
    }

    /// Samples of the given type for a channel of the given resolution, all zero.
    pub fn allocate(resolution: Vec2<usize>, pixel_type: PixelType) -> (r: Samples)
        requires
            resolution.spec_area() <= usize::MAX,
        ensures
            r@.sample_type() == pixel_type,
            r@.len() == resolution.spec_area(),
            r@ == zero_samples(pixel_type, resolution.spec_area()),
    {
        let count = resolution.area();
        match pixel_type {
            PixelType::F16 => {
                let samples = vec![0u16; count];
                assert(samples@ =~= Seq::new(count as nat, |i: int| 0u16));
                Samples::F16(samples)
            },
            PixelType::F32 => {
                let samples = vec![0u32; count];
                assert(samples@ =~= Seq::new(count as nat, |i: int| 0u32));
                Samples::F32(samples)
            },
            PixelType::U32 => {
                let samples = vec![0u32; count];
                assert(samples@ =~= Seq::new(count as nat, |i: int| 0u32));
                Samples::U32(samples)
            },
        }
    }

    /// Puts the samples of a line into their place in a channel of the
    /// given resolution. Nothing changes where that fails.
    pub fn insert_line(&mut self, resolution: Vec2<usize>, line: Line<'_>) -> (r: Result<
        (),
        Error,
    >)
        ensures
            match insert_line_spec(old(self)@, resolution, line) {
                Ok(samples) => r == Ok::<(), Error>(()) && final(self)@ == samples,
                Err(e) => r == Err::<(), Error>(e) && *final(self) == *old(self),
            },
    {
        let start = check_line_position(resolution, line.location, self.len())?;
        match self {
            Samples::F16(samples) => {
                let new = line.f16_samples()?;
                replace_u16(samples, start, &new);
            },
            Samples::F32(samples) => {
                let new = line.f32_samples()?;
                replace_u32(samples, start, &new);
            },
            Samples::U32(samples) => {
                let new = line.u32_samples()?;
                replace_u32(samples, start, &new);
            },
        }
        Ok(())
    }

    /// Appends the bytes of the samples of a line of a channel of the given resolution.
    pub fn extract_line(&self, index: LineIndex, resolution: Vec2<usize>, write: &mut Vec<u8>)
        requires
            validate_line_position(resolution, index, self@.len()) is Ok,
        ensures
            final(write)@ == old(write)@ + self@.bytes_between(
                line_start(resolution, index.position),
                line_start(resolution, index.position) + index.width,
            ),
    {
        let len = self.len();
        assert(0 <= index.position.1 * resolution.0) by (nonlinear_arith);
        let start_index = index.position.1 * resolution.0 + index.position.0;
        let end_index = start_index + index.width;
        match self {
            Samples::F16(samples) => write_u16_array(
                write,
                vstd::slice::slice_subrange(samples.as_slice(), start_index, end_index),
            ),
            Samples::F32(samples) => write_u32_array(
                write,
                vstd::slice::slice_subrange(samples.as_slice(), start_index, end_index),
            ),
            Samples::U32(samples) => write_u32_array(
                write,
                vstd::slice::slice_subrange(samples.as_slice(), start_index, end_index),
            ),
        }
    }
}

/// As many samples of the given type as asked for, all zero.
pub open spec fn zero_samples(pixel_type: PixelType, count: nat) -> SamplesView {
    match pixel_type {
        PixelType::F16 => SamplesView::F16(Seq::new(count, |i: int| 0u16)),
        PixelType::F32 => SamplesView::F32(Seq::new(count, |i: int| 0u32)),
        PixelType::U32 => SamplesView::U32(Seq::new(count, |i: int| 0u32)),
    }
}

/// Putting a part of a sequence in its own place changes nothing, and
/// what was put in the place of a part is then that part.
pub proof fn lemma_replace_part<T>(s: Seq<T>, start: int, new: Seq<T>)
    requires
        0 <= start,
        start + new.len() <= s.len(),
    ensures
        s.take(start) + s.subrange(start, start + new.len()) + s.skip(start + new.len()) == s,
        (s.take(start) + new + s.skip(start + new.len())).subrange(start, start + new.len())
            == new,
        (s.take(start) + new + s.skip(start + new.len())).len() == s.len(),
{
    assert(s.take(start) + s.subrange(start, start + new.len()) + s.skip(start + new.len()) =~= s);
    assert((s.take(start) + new + s.skip(start + new.len())).subrange(start, start + new.len())
        =~= new);
}

/// Inserting the bytes that were extracted changes nothing, and
/// extracting after inserting gives the bytes that were inserted.
pub proof fn lemma_line_round_trip(samples: SamplesView, start: int, count: nat, bytes: Seq<u8>)
    requires
        0 <= start,
        start + count <= samples.len(),
    ensures
        samples.with_samples_from(start, count, samples.bytes_between(start, start + count))
            == samples,
        bytes.len() == count * samples.sample_type().spec_bytes_per_sample()
            ==> samples.with_samples_from(start, count, bytes).bytes_between(start, start + count)
            == bytes,
        samples.with_samples_from(start, count, bytes).len() == samples.len(),
        samples.with_samples_from(start, count, bytes).sample_type() == samples.sample_type(),
{
    let empty = Seq::<u8>::empty();
    lemma_seq_le_decodes_encoded(empty);
    lemma_seq_le_encodes_decoded(bytes, count);
    match samples {
        SamplesView::F16(s) => {
            let line = s.subrange(start, start + count);
            assert(u16_seq_le(line) + empty =~= u16_seq_le(line));
            assert(u16_seq_from_le(u16_seq_le(line), count) == line);
            lemma_replace_part(s, start, line);
            lemma_replace_part(s, start, u16_seq_from_le(bytes, count));
            if bytes.len() == count * 2 {
                assert(bytes.take(2 * count as int) =~= bytes);
            }
        },
        SamplesView::F32(s) => {
            let line = s.subrange(start, start + count);
            assert(u32_seq_le(line) + empty =~= u32_seq_le(line));
            assert(u32_seq_from_le(u32_seq_le(line), count) == line);
            lemma_replace_part(s, start, line);
            lemma_replace_part(s, start, u32_seq_from_le(bytes, count));
            if bytes.len() == count * 4 {
                assert(bytes.take(4 * count as int) =~= bytes);
            }
        },
        SamplesView::U32(s) => {
            let line = s.subrange(start, start + count);
            assert(u32_seq_le(line) + empty =~= u32_seq_le(line));
            assert(u32_seq_from_le(u32_seq_le(line), count) == line);
            lemma_replace_part(s, start, line);
            lemma_replace_part(s, start, u32_seq_from_le(bytes, count));
            if bytes.len() == count * 4 {
                assert(bytes.take(4 * count as int) =~= bytes);
            }
        },
    }
}

/// Two lines that do not overlap can be inserted in either order: the
/// samples are the same in the end.
pub proof fn lemma_insert_lines_commute(
    samples: SamplesView,
    first_start: int,
    first_count: nat,
    first_bytes: Seq<u8>,
    second_start: int,
    second_count: nat,
    second_bytes: Seq<u8>,
)
    requires
        0 <= first_start,
        first_start + first_count <= second_start,
        second_start + second_count <= samples.len(),
    ensures
        samples.with_samples_from(first_start, first_count, first_bytes).with_samples_from(
            second_start,
            second_count,
            second_bytes,
        ) == samples.with_samples_from(second_start, second_count, second_bytes).with_samples_from(
            first_start,
            first_count,
            first_bytes,
        ),
{
    match samples {
        SamplesView::F16(s) => {
            let a = u16_seq_from_le(first_bytes, first_count);
            let b = u16_seq_from_le(second_bytes, second_count);
            let one = s.take(first_start) + a + s.skip(first_start + first_count);
            let two = s.take(second_start) + b + s.skip(second_start + second_count);
            assert(one.take(second_start) + b + one.skip(second_start + second_count)
                =~= two.take(first_start) + a + two.skip(first_start + first_count));
        },
        SamplesView::F32(s) => {
            let a = u32_seq_from_le(first_bytes, first_count);
            let b = u32_seq_from_le(second_bytes, second_count);
            let one = s.take(first_start) + a + s.skip(first_start + first_count);
            let two = s.take(second_start) + b + s.skip(second_start + second_count);
            assert(one.take(second_start) + b + one.skip(second_start + second_count)
                =~= two.take(first_start) + a + two.skip(first_start + first_count));
        },
        SamplesView::U32(s) => {
            let a = u32_seq_from_le(first_bytes, first_count);
            let b = u32_seq_from_le(second_bytes, second_count);
            let one = s.take(first_start) + a + s.skip(first_start + first_count);
            let two = s.take(second_start) + b + s.skip(second_start + second_count);
            assert(one.take(second_start) + b + one.skip(second_start + second_count)
                =~= two.take(first_start) + a + two.skip(first_start + first_count));
        },
    }
}

/// One channel of a part: its name, its samples, and how they are to be taken.
#[derive(Debug, Clone, PartialEq, Eq)]
pub struct Channel {
    /// The name of the channel.
    pub name: Text,
    /// The samples of the channel, at the resolution of the part divided
    /// by the sampling of the channel.
    pub samples: Samples,
    /// Whether the samples are to be taken as linear when they are compressed lossily.
    pub is_linear: bool,
    /// One sample stands for this many pixels along x and along y.
    pub sampling: Vec2<usize>,
}

impl Named for Channel {
    open spec fn spec_name(&self) -> Seq<u8> {
        self.name@
    }

    fn name(&self) -> (r: &Text) {
        &self.name
    }
}

/// The bit pattern of the 32-bit floating-point number one.
pub const ONE: u32 = 0x3F80_0000;

/// The error for a channel whose samples stand for no pixel along an axis.
pub open spec fn sampling_error() -> Error {
    Error::InvalidContent { what: Value::Attribute("sampling"), required: Required::Min(1) }
}

/// The resolution of a channel with the given sampling in a part of the given size.
pub open spec fn spec_channel_resolution(size: Vec2<usize>, sampling: Vec2<usize>) -> Vec2<usize>
    recommends
        sampling.0 > 0,
        sampling.1 > 0,
{
    Vec2(size.0 / sampling.0, size.1 / sampling.1)
}

/// The resolution of a channel with the given sampling in a part of the given size.
fn channel_resolution(size: Vec2<usize>, sampling: Vec2<usize>) -> (r: Vec2<usize>)
    requires
        sampling.0 > 0,
        sampling.1 > 0,
    ensures
        r == spec_channel_resolution(size, sampling),
{
    Vec2(size.0 / sampling.0, size.1 / sampling.1)
}

impl Channel {
    /// A channel of the given name and samples, with a sample for each pixel.
    pub fn new(name: Text, is_linear: bool, samples: Samples) -> (r: Channel)
        ensures
            r == (Channel { name, samples, is_linear, sampling: Vec2(1usize, 1usize) }),
    {
        Channel { name, samples, is_linear, sampling: Vec2(1, 1) }
    }

    /// A channel of the given name and samples that are to be taken as
    /// linear, with a sample for each pixel.
    pub fn new_linear(name: Text, samples: Samples) -> (r: Channel)
        ensures
            r == (Channel { name, samples, is_linear: true, sampling: Vec2(1usize, 1usize) }),
    {
        Channel::new(name, true, samples)
    }

    /// Whether the channel can stand in a part of the given size: each
    /// sample stands for at least one pixel along each axis and for no more
    /// than a signed 32-bit number can say, and there are as many samples
    /// as the resolution of the channel asks for.
    pub open spec fn fits(self, size: Vec2<usize>) -> bool {
        &&& 1 <= self.sampling.0 <= i32::MAX
        &&& 1 <= self.sampling.1 <= i32::MAX
        &&& self.samples@.len() == spec_channel_resolution(size, self.sampling).spec_area()
    }

    /// Whether the channel can stand in a part of the given size.
    pub fn check_fits(&self, size: Vec2<usize>) -> (r: bool)
        ensures
            r == self.fits(size),
    {
        if self.sampling.0 < 1 || self.sampling.1 < 1 || self.sampling.0 > i32::MAX as usize
            || self.sampling.1 > i32::MAX as usize {
            return false;
        }
        let len = self.samples.len();
        match channel_resolution(size, self.sampling).checked_area() {
            Some(area) => len == area,
            None => false,
        }
    }

    /// What the header of a layer says of a channel of the layer, if a
    /// channel can be made for it: its samples stand for at least one pixel
    /// along each axis, and their number is not more than `usize` can hold.
    pub open spec fn spec_allocate(size: Vec2<usize>, channel: ChannelView) -> Result<
        (Seq<u8>, SamplesView, bool, Vec2<usize>),
        Error,
    > {
        if channel.x_sampling < 1 || channel.y_sampling < 1 {
            Err(sampling_error())
        } else {
            let sampling = Vec2(channel.x_sampling as usize, channel.y_sampling as usize);
            let count = spec_channel_resolution(size, sampling).spec_area();
            if count > usize::MAX {
                Err(Error::InvalidSize)
            } else {
                Ok(
                    (
                        channel.name,
                        zero_samples(channel.pixel_type, count),
                        channel.is_linear,
                        sampling,
                    ),
                )
            }
        }
    }

    /// Whether this is the channel of the given name, samples and so on.
    pub open spec fn is(self, fields: (Seq<u8>, SamplesView, bool, Vec2<usize>)) -> bool {
        &&& self.name@ == fields.0
        &&& self.samples@ == fields.1
        &&& self.is_linear == fields.2
        &&& self.sampling == fields.3
    }

    /// A channel for what the header says of it, with all samples zero.
    pub fn allocate(header: &Header, channel: &crate::file::attributes::Channel) -> (r: Channel)
        requires
            Channel::spec_allocate(header.data_window.size, channel@) is Ok,
        ensures
            r.is(Channel::spec_allocate(header.data_window.size, channel@)->Ok_0),
    {
        let sampling = Vec2(channel.x_sampling as usize, channel.y_sampling as usize);
        Channel {
            name: channel.name.clone(),
            is_linear: channel.is_linear,
            sampling,
            samples: Samples::allocate(
                channel_resolution(header.data_window.size, sampling),
                channel.pixel_type,
            ),
        }
    }

    /// A channel for what the header says of it, with all samples zero,
    /// if such a channel can be made.
    pub fn try_allocate(header: &Header, channel: &crate::file::attributes::Channel) -> (r: Result<
        Channel,
        Error,
    >)
        ensures
            match Channel::spec_allocate(header.data_window.size, channel@) {
                Ok(fields) => r is Ok && r->Ok_0.is(fields),
                Err(e) => r == Err::<Channel, Error>(e),
            },
    {
        if channel.x_sampling < 1 || channel.y_sampling < 1 {
            return Err(
                Error::InvalidContent {
                    what: Value::Attribute("sampling"),
                    required: Required::Min(1),
                },
            );
        }
        let sampling = Vec2(channel.x_sampling as usize, channel.y_sampling as usize);
        if channel_resolution(header.data_window.size, sampling).checked_area().is_none() {
            return Err(Error::InvalidSize);
        }
        Ok(Channel::allocate(header, channel))
    }

    /// What inserting a line makes of the samples of the channel in a part
    /// of the given size, or why it fails: the line is of a resolution
    /// level other than the first, the samples of the channel stand for
    /// no pixel along an axis, or the line does not fit the samples.
    pub open spec fn insert_line_spec(self, line: Line, resolution: Vec2<usize>) -> Result<
        SamplesView,
        Error,
    > {
        if line.location.level != Vec2(0usize, 0usize) {
            Err(Error::InvalidLevelIndex)
        } else if self.sampling.0 < 1 || self.sampling.1 < 1 {
            Err(sampling_error())
        } else {
            insert_line_spec(
                self.samples@,
                spec_channel_resolution(resolution, self.sampling),
                line,
            )
        }
    }

    /// Puts the samples of a line into their place in the channel of a
    /// part of the given size. Nothing changes where that fails.
    pub fn insert_line(&mut self, line: Line<'_>, resolution: Vec2<usize>) -> (r: Result<
        (),
        Error,
    >)
        ensures
            match old(self).insert_line_spec(line, resolution) {
                Ok(samples) => r == Ok::<(), Error>(()) && final(self).samples@ == samples
                    && final(self).name == old(self).name && final(self).is_linear == old(self).is_linear && final(self).sampling == old(self).sampling,
                Err(e) => r == Err::<(), Error>(e) && *final(self) == *old(self),
            },
    {
        if line.location.level.0 != 0 || line.location.level.1 != 0 {
            return Err(Error::InvalidLevelIndex);
        }
        if self.sampling.0 < 1 || self.sampling.1 < 1 {
            return Err(
                Error::InvalidContent {
                    what: Value::Attribute("sampling"),
                    required: Required::Min(1),
                },
            );
        }
        let channel_size = channel_resolution(resolution, self.sampling);
        self.samples.insert_line(channel_size, line)
    }

    /// Whether the line lies within the channel of a part of the given
    /// size, at the first resolution level.
    pub open spec fn holds_line(self, index: LineIndex, resolution: Vec2<usize>) -> bool {
        &&& index.level == Vec2(0usize, 0usize)
        &&& self.sampling.0 >= 1
        &&& self.sampling.1 >= 1
        &&& validate_line_position(
            spec_channel_resolution(resolution, self.sampling),
            index,
            self.samples@.len(),
        ) is Ok
    }

    /// The bytes of the samples of a line of the channel of a part of the given size.
    pub open spec fn line_bytes(self, index: LineIndex, resolution: Vec2<usize>) -> Seq<u8> {
        let start = line_start(spec_channel_resolution(resolution, self.sampling), index.position);
        self.samples@.bytes_between(start, start + index.width)
    }

    /// Appends the bytes of the samples of a line of the channel of a part
    /// of the given size.
    pub fn extract_line(&self, index: LineIndex, resolution: Vec2<usize>, write: &mut Vec<u8>)
        requires
            self.holds_line(index, resolution),
        ensures
            final(write)@ == old(write)@ + self.line_bytes(index, resolution),
    {
        self.samples.extract_line(index, channel_resolution(resolution, self.sampling), write)
    }

    /// What the header of the layer says of the channel.
    pub fn infer_channel_attribute(&self) -> (r: crate::file::attributes::Channel)
        requires
            self.sampling.0 <= i32::MAX,
            self.sampling.1 <= i32::MAX,
        ensures
            r@ == (ChannelView {
                name: self.name@,
                pixel_type: self.samples@.sample_type(),
                is_linear: self.is_linear,
                reserved: seq![0i8, 0i8, 0i8],
                x_sampling: self.sampling.0 as i32,
                y_sampling: self.sampling.1 as i32,
            }),
    {
        let reserved = [0i8, 0i8, 0i8];
        assert(reserved@ =~= seq![0i8, 0i8, 0i8]);
        crate::file::attributes::Channel {
            pixel_type: self.samples.sample_type(),
            name: self.name.clone(),
            is_linear: self.is_linear,
            reserved,
            x_sampling: self.sampling.0 as i32,
            y_sampling: self.sampling.1 as i32,
        }
    }
}

/// The channels that a list holds, in order.
pub uninterp spec fn channels_items(channels: Channels) -> Seq<Channel>;

/// The channels of a part, sorted by name.
///
/// The channels are kept in a `SmallVec` of the `smallvec` crate, which
/// the verifier does not look into: `channels_items` names what it holds,
/// and the contracts of the four functions that reach into it are taken on trust.
#[verifier::external_body]
#[derive(Debug, PartialEq, Eq)]
pub struct Channels {
    list: SmallVec<[Channel; 5]>,
}

impl View for Channels {
    type V = Seq<Channel>;

    open spec fn view(&self) -> Seq<Channel> {
        channels_items(*self)
    }
}

impl Clone for Channels {
    fn clone(&self) -> (r: Channels)
        ensures
            r@.len() == self@.len(),
    {
        let channels = self.as_slice_unchecked();
        let mut copies: Vec<Channel> = Vec::new();
        let mut index: usize = 0;
        while index < channels.len()
            invariant
                index <= channels@.len(),
                copies@.len() == index,
            decreases channels@.len() - index,
        {
            copies.push(channels[index].clone());
            index = index + 1;
        }
        Channels::from_vec_unchecked(copies)
    }
}

impl Channels {
    /// The list of the given channels, in the given order.
    ///
    /// This is `SmallVec::from_vec`: the new vector holds the items of the
    /// given one in the same order.
    #[verifier::external_body]
    fn from_vec_unchecked(channels: Vec<Channel>) -> (r: Channels)
        ensures
            channels_items(r) == channels@,
    {
        Channels { list: SmallVec::from_vec(channels) }
    }

    /// `SmallVec::into_vec`: a vector of the same items in the same order.
    #[verifier::external_body]
    fn into_vec_unchecked(self) -> (r: Vec<Channel>)
        ensures
            r@ == channels_items(self),
    {
        self.list.into_vec()
    }

    /// `SmallVec::as_slice`: the whole vector as a slice.
    #[verifier::external_body]
    fn as_slice_unchecked(&self) -> (r: &[Channel])
        ensures
            r@ == channels_items(*self),
    {
        self.list.as_slice()
    }

    /// `SmallVec::index_mut` with a `usize`: the item at the index, to be
    /// changed in place. The other items stay as they are.
    #[verifier::external_body]
    fn index_mut_unchecked(&mut self, index: usize) -> (r: &mut Channel)
        requires
            index < channels_items(*old(self)).len(),
        ensures
            *r == channels_items(*old(self))[index as int],
            channels_items(*final(self)) == channels_items(*old(self)).update(
                index as int,
                *final(r),
            ),
    {
        &mut self.list[index]
    }

    /// The list of the given channels, in the given order.
    pub fn from_vec(channels: Vec<Channel>) -> (r: Channels)
        ensures
            r@ == channels@,
    {
        Channels::from_vec_unchecked(channels)
    }

    /// The channels of the list as a vector.
    pub fn into_vec(self) -> (r: Vec<Channel>)
        ensures
            r@ == self@,
    {
        self.into_vec_unchecked()
    }

    /// The channels of the list.
    pub fn as_slice(&self) -> (r: &[Channel])
        ensures
            r@ == self@,
    {
        self.as_slice_unchecked()
    }

    /// How many channels the list holds.
    pub fn len(&self) -> (r: usize)
        ensures
            r == self@.len(),
    {
        self.as_slice_unchecked().len()
    }

    /// Whether the list holds no channel.
    pub fn is_empty(&self) -> (r: bool)
        ensures
            r == (self@.len() == 0),
    {
        self.as_slice_unchecked().len() == 0
    }

    /// The channel at the index, if there is one.
    pub fn get(&self, index: usize) -> (r: Option<&Channel>)
        ensures
            r == if index < self@.len() {
                Some(&self@[index as int])
            } else {
                None
            },
    {
        let channels = self.as_slice_unchecked();
        if index < channels.len() {
            Some(&channels[index])
        } else {
            None
        }
    }
}

/// One layer of an image: its channels with their samples, and what its
/// header says of it.
#[derive(Debug, Clone, PartialEq, Eq)]
pub struct Part {
    /// The name of the part. A file with one part needs none.
    pub name: Option<Text>,
    /// The attributes that have no field of their own here.
    pub attributes: Attributes,
    /// The rectangle of the pixels that the part holds.
    pub data_window: IntRect,
    /// The center of the screen window, two 32-bit floating-point numbers
    /// as their bit patterns.
    pub screen_window_center: Vec2<u32>,
    /// The width of the screen window, a 32-bit floating-point number as
    /// its bit pattern.
    pub screen_window_width: u32,
    /// The order in which the blocks stand in the file.
    pub line_order: LineOrder,
    /// How the pixel bytes of each block are compressed.
    pub compression: Compression,
    /// The size of a tile, in a part that is divided into tiles.
    pub tiles: Option<Vec2<usize>>,
    /// The channels of the part, sorted by name.
    pub channels: Channels,
}

/// The error for channels that are not in the order of their names, or
/// two of which have the same name.
pub open spec fn channel_order_error() -> Error {
    Error::InvalidContent {
        what: Value::Attribute("channels"),
        required: Required::Exact("sorted by name, each name once"),
    }
}

/// Whether each name in the list comes after the name in front of it.
pub open spec fn is_strictly_sorted(channels: Seq<Channel>) -> bool {
    forall|i: int|
        0 < i < channels.len() ==> precedes((#[trigger] channels[i - 1]).name@, channels[i].name@)
}

/// Whether the samples of each channel in the list stand for no more
/// pixels along an axis than a signed 32-bit number can say.
pub open spec fn are_samplings_within_limit(channels: Seq<Channel>) -> bool {
    forall|i: int|
        0 <= i < channels.len() ==> (#[trigger] channels[i]).sampling.0 <= i32::MAX
            && channels[i].sampling.1 <= i32::MAX
}

/// What the header of a layer says of the channels of a part.
pub open spec fn inferred_channels(channels: Seq<Channel>) -> Seq<ChannelView> {
    Seq::new(
        channels.len(),
        |i: int|
            ChannelView {
                name: channels[i].name@,
                pixel_type: channels[i].samples@.sample_type(),
                is_linear: channels[i].is_linear,
                reserved: seq![0i8, 0i8, 0i8],
                x_sampling: channels[i].sampling.0 as i32,
                y_sampling: channels[i].sampling.1 as i32,
            },
    )
}

/// What the header of a layer says of how a part is divided into blocks.
pub open spec fn inferred_blocks(tiles: Option<Vec2<usize>>) -> BlockDescription {
    match tiles {
        Some(size) => BlockDescription::Tiles(
            TileDescription {
                x_size: size.0 as u32,
                y_size: size.1 as u32,
                level_mode: LevelMode::One,
                rounding_mode: RoundingMode::Down,
            },
        ),
        None => BlockDescription::ScanLines,
    }
}

/// What allocating the channels that a header lists gives, or the
/// error of the first channel that cannot be allocated.
pub open spec fn allocate_channels_spec(size: Vec2<usize>, channels: Seq<ChannelView>) -> Result<
    Seq<(Seq<u8>, SamplesView, bool, Vec2<usize>)>,
    Error,
>
    decreases channels.len(),
{
    if channels.len() == 0 {
        Ok(Seq::empty())
    } else {
        match allocate_channels_spec(size, channels.drop_last()) {
            Err(e) => Err(e),
            Ok(front) => match Channel::spec_allocate(size, channels.last()) {
                Err(e) => Err(e),
                Ok(last) => Ok(front.push(last)),
            },
        }
    }
}

/// Whether the channels are those of the given names, samples and so on.
pub open spec fn are_channels(
    channels: Seq<Channel>,
    fields: Seq<(Seq<u8>, SamplesView, bool, Vec2<usize>)>,
) -> bool {
    &&& channels.len() == fields.len()
    &&& forall|i: int| 0 <= i < channels.len() ==> (#[trigger] channels[i]).is(fields[i])
}

impl Part {
    /// A part of the given name, compression, data window and channels,
    /// divided into blocks of scan lines, without further attributes. The
    /// channels are sorted by name.
    ///
    /// There must be a channel, and each channel must fit the data window.
    pub fn new(name: Text, compression: Compression, data_window: IntRect, channels: Channels) -> (r:
        Part)
        requires
            channels@.len() > 0,
            forall|i: int| 0 <= i < channels@.len() ==> (#[trigger] channels@[i]).fits(
                data_window.size,
            ),
        ensures
            r.channels@ == sorted_by_name(channels@),
            r.name == Some(name),
            r.attributes@.len() == 0,
            r.data_window == data_window,
            r.compression == compression,
            r.tiles == None::<Vec2<usize>>,
            r.line_order == LineOrder::RandomY,
            r.screen_window_center == Vec2(0u32, 0u32),
            r.screen_window_width == ONE,
    {
        let sorted = sort_by_name(channels.into_vec_unchecked());
        Part {
            channels: Channels::from_vec_unchecked(sorted),
            data_window,
            name: Some(name),
            attributes: Vec::new(),
            compression,
            tiles: None,
            line_order: LineOrder::RandomY,
            screen_window_center: Vec2(0, 0),
            screen_window_width: ONE,
        }
    }

    /// Whether the part is the one that is allocated for the header, but
    /// for the samples of its channels.
    pub open spec fn is_allocated_for(self, header: Header) -> bool {
        &&& self.data_window == header.data_window
        &&& self.screen_window_center == header.screen_window_center
        &&& self.screen_window_width == header.screen_window_width
        &&& name_view(self.name) == name_view(header.name)
        &&& attribute_views(self.attributes@) == attribute_views(header.custom_attributes@)
        &&& self.compression == header.compression
        &&& self.line_order == header.line_order
        &&& self.tiles == match header.blocks {
            BlockDescription::ScanLines => None::<Vec2<usize>>,
            BlockDescription::Tiles(tiles) => Some(
                Vec2(tiles.x_size as usize, tiles.y_size as usize),
            ),
        }
    }

    /// A part for the header, with a channel for each channel that the
    /// header lists and all samples zero. Fails where a channel cannot be
    /// allocated.
    pub fn allocate(header: &Header) -> (r: Result<Part, Error>)
        ensures
            match allocate_channels_spec(header.data_window.size, header.channels@) {
                Ok(fields) => r is Ok && r->Ok_0.is_allocated_for(*header) && are_channels(
                    r->Ok_0.channels@,
                    fields,
                ),
                Err(e) => r == Err::<Part, Error>(e),
            },
    {
        let listed = header.channels.as_slice();
        let ghost views = header.channels@;
        let mut channels: Vec<Channel> = Vec::new();
        let mut index: usize = 0;
        proof {
            assert(views.take(0) =~= Seq::<ChannelView>::empty());
        }
        while index < listed.len()
            invariant
                index <= listed@.len(),
                views == header.channels@,
                views.len() == listed@.len(),
                forall|i: int| 0 <= i < listed@.len() ==> (#[trigger] listed@[i])@ == views[i],
                allocate_channels_spec(header.data_window.size, views.take(index as int)) is Ok,
                are_channels(
                    channels@,
                    allocate_channels_spec(
                        header.data_window.size,
                        views.take(index as int),
                    )->Ok_0,
                ),
            decreases listed@.len() - index,
        {
            proof {
                let taken = views.take(index + 1);
                assert(taken.drop_last() =~= views.take(index as int));
                assert(taken.last() == listed@[index as int]@);
                lemma_allocate_channels_prefix(
                    header.data_window.size,
                    views,
                    (index + 1) as int,
                );
            }
            let channel = Channel::try_allocate(header, &listed[index])?;
            channels.push(channel);
            index = index + 1;
        }
        proof {
            assert(views.take(index as int) =~= views);
        }
        Ok(
            Part {
                data_window: header.data_window,
                screen_window_center: header.screen_window_center,
                screen_window_width: header.screen_window_width,
                name: clone_name(&header.name),
                attributes: clone_attributes(&header.custom_attributes),
                channels: Channels::from_vec_unchecked(channels),
                compression: header.compression,
                line_order: header.line_order,
                tiles: match header.blocks {
                    BlockDescription::ScanLines => None,
                    BlockDescription::Tiles(tiles) => Some(
                        Vec2(tiles.x_size as usize, tiles.y_size as usize),
                    ),
                },
            },
        )
    }

    /// What inserting a line makes of the samples of the channel that
    /// the line names, or why it fails.
    pub open spec fn insert_line_spec(self, line: Line) -> Result<SamplesView, Error> {
        if line.location.channel >= self.channels@.len() {
            Err(Error::InvalidChannelIndex)
        } else {
            self.channels@[line.location.channel as int].insert_line_spec(
                line,
                self.data_window.size,
            )
        }
    }

    /// Whether `after` is this part but for its channels.
    pub open spec fn is_same_but_channels(self, after: Part) -> bool {
        &&& after.name == self.name
        &&& after.attributes == self.attributes
        &&& after.data_window == self.data_window
        &&& after.screen_window_center == self.screen_window_center
        &&& after.screen_window_width == self.screen_window_width
        &&& after.line_order == self.line_order
        &&& after.compression == self.compression
        &&& after.tiles == self.tiles
    }

    /// Whether `after` is this part with the samples of one channel
    /// replaced by the given ones.
    pub open spec fn is_with_samples(self, after: Part, channel: int, samples: SamplesView) -> bool
        recommends
            0 <= channel < self.channels@.len(),
    {
        &&& self.is_same_but_channels(after)
        &&& after.channels@.len() == self.channels@.len()
        &&& forall|i: int|
            0 <= i < self.channels@.len() && i != channel ==> #[trigger] after.channels@[i]
                == self.channels@[i]
        &&& after.channels@[channel].samples@ == samples
        &&& after.channels@[channel].name == self.channels@[channel].name
        &&& after.channels@[channel].is_linear == self.channels@[channel].is_linear
        &&& after.channels@[channel].sampling == self.channels@[channel].sampling
    }

    /// Puts the samples of a line into their place in the channel that
    /// the line names. Nothing changes where that fails.
    pub fn insert_line(&mut self, line: Line<'_>) -> (r: Result<(), Error>)
        ensures
            match old(self).insert_line_spec(line) {
                Ok(samples) => r == Ok::<(), Error>(()) && old(self).is_with_samples(
                    *final(self),
                    line.location.channel as int,
                    samples,
                ),
                Err(e) => r == Err::<(), Error>(e) && final(self).channels@ == old(self).channels@
                    && old(self).is_same_but_channels(*final(self)),
            },
    {
        if line.location.channel >= self.channels.len() {
            return Err(Error::InvalidChannelIndex);
        }
        let size = self.data_window.size;
        let channel = self.channels.index_mut_unchecked(line.location.channel);
        let result = channel.insert_line(line, size);
        proof {
            if result is Err {
                assert(self.channels@ =~= old(self).channels@);
            }
        }
        result
    }

    /// Whether the line lies within the channel of the part that it names.
    pub open spec fn holds_line(self, index: LineIndex) -> bool {
        &&& index.channel < self.channels@.len()
        &&& self.channels@[index.channel as int].holds_line(index, self.data_window.size)
    }

    /// The bytes of the samples of a line of the part.
    pub open spec fn line_bytes(self, index: LineIndex) -> Seq<u8> {
        self.channels@[index.channel as int].line_bytes(index, self.data_window.size)
    }

    /// Appends the bytes of the samples of a line of the part.
    pub fn extract_line(&self, index: LineIndex, write: &mut Vec<u8>)
        requires
            self.holds_line(index),
        ensures
            final(write)@ == old(write)@ + self.line_bytes(index),
    {
        let channels = self.channels.as_slice_unchecked();
        channels[index.channel].extract_line(index, self.data_window.size, write)
    }

    /// What stands in the way of a header for the part, if anything: the
    /// channels are not in the order of their names or two have the same
    /// name, the samples of a channel stand for too many pixels, a tile
    /// is larger than a 32-bit number can say or has no width or no height,
    /// or there are more blocks than `usize` can hold.
    pub open spec fn validate_for_header(self) -> Result<(), Error> {
        if !is_strictly_sorted(self.channels@) {
            Err(channel_order_error())
        } else if !are_samplings_within_limit(self.channels@) {
            Err(sampling_error())
        } else if self.tiles matches Some(size) && (size.0 > u32::MAX || size.1 > u32::MAX) {
            Err(Error::InvalidSize)
        } else if self.tiles matches Some(size) && (size.0 == 0 || size.1 == 0) {
            Err(tile_size_error())
        } else if spec_chunk_count(
            self.compression,
            self.data_window.size,
            inferred_blocks(self.tiles),
        ) > usize::MAX {
            Err(Error::InvalidSize)
        } else {
            Ok(())
        }
    }

    /// Whether the header is the one that describes the part.
    pub open spec fn is_described_by(
        self,
        header: Header,
        display_window: IntRect,
        pixel_aspect: u32,
    ) -> bool {
        &&& header.chunk_count == spec_chunk_count(
            self.compression,
            self.data_window.size,
            inferred_blocks(self.tiles),
        )
        &&& name_view(header.name) == name_view(self.name)
        &&& header.data_window == self.data_window
        &&& header.screen_window_center == self.screen_window_center
        &&& header.screen_window_width == self.screen_window_width
        &&& header.compression == self.compression
        &&& header.channels@ == inferred_channels(self.channels@)
        &&& header.line_order == self.line_order
        &&& attribute_views(header.custom_attributes@) == attribute_views(self.attributes@)
        &&& header.display_window == display_window
        &&& header.pixel_aspect == pixel_aspect
        &&& header.blocks == inferred_blocks(self.tiles)
        &&& header.deep_data_version == None::<i32>
        &&& header.max_samples_per_pixel == None::<usize>
        &&& !header.deep
    }

    /// Says whether each name of a channel comes after the name in front of it.
    fn check_channel_order(&self) -> (r: bool)
        ensures
            r == is_strictly_sorted(self.channels@),
    {
        let channels = self.channels.as_slice_unchecked();
        let mut index: usize = 1;
        while index < channels.len()
            invariant
                1 <= index,
                channels@ == self.channels@,
                forall|i: int|
                    0 < i < index && i < channels@.len() ==> precedes(
                        (#[trigger] channels@[i - 1]).name@,
                        channels@[i].name@,
                    ),
            decreases channels@.len() - index,
        {
            if !bytes_precede(
                channels[index - 1].name.as_slice(),
                channels[index].name.as_slice(),
            ) {
                assert(!precedes(channels@[index - 1].name@, channels@[index as int].name@));
                return false;
            }
            index = index + 1;
        }
        true
    }

    /// What the header of a layer says of the channels of the part,
    /// or `None` where the samples of a channel stand for too many pixels.
    fn infer_channel_list(&self) -> (r: Option<ChannelList>)
        ensures
            match r {
                Some(list) => are_samplings_within_limit(self.channels@) && list@
                    == inferred_channels(self.channels@),
                None => !are_samplings_within_limit(self.channels@),
            },
    {
        let channels = self.channels.as_slice_unchecked();
        let mut list: Vec<crate::file::attributes::Channel> = Vec::new();
        let mut index: usize = 0;
        while index < channels.len()
            invariant
                index <= channels@.len(),
                channels@ == self.channels@,
                list@.len() == index,
                forall|i: int|
                    0 <= i < index ==> (#[trigger] channels@[i]).sampling.0 <= i32::MAX
                        && channels@[i].sampling.1 <= i32::MAX,
                forall|i: int|
                    0 <= i < index ==> (#[trigger] list@[i])@ == inferred_channels(
                        self.channels@,
                    )[i],
            decreases channels@.len() - index,
        {
            let channel = &channels[index];
            if channel.sampling.0 > i32::MAX as usize || channel.sampling.1 > i32::MAX as usize {
                assert(!(channels@[index as int].sampling.0 <= i32::MAX && channels@[index as int].sampling.1
                    <= i32::MAX));
                return None;
            }
            list.push(channel.infer_channel_attribute());
            index = index + 1;
        }
        let result = ChannelList::new(list);
        assert(result@ =~= inferred_channels(self.channels@));
        Some(result)
    }

    /// The header that describes the part, for an image with the given
    /// display window and pixel aspect. Fails where something stands in the
    /// way of a header: see `validate_for_header`.
    pub fn infer_header(&self, display_window: IntRect, pixel_aspect: u32) -> (r: Result<
        Header,
        Error,
    >)
        ensures
            match self.validate_for_header() {
                Ok(_) => r is Ok && self.is_described_by(r->Ok_0, display_window, pixel_aspect),
                Err(e) => r == Err::<Header, Error>(e),
            },
    {
        if !self.check_channel_order() {
            return Err(
                Error::InvalidContent {
                    what: Value::Attribute("channels"),
                    required: Required::Exact("sorted by name, each name once"),
                },
            );
        }
        let channels = match self.infer_channel_list() {
            Some(channels) => channels,
            None => return Err(
                Error::InvalidContent {
                    what: Value::Attribute("sampling"),
                    required: Required::Min(1),
                },
            ),
        };
        let blocks = match self.tiles {
            Some(tiles) => {
                if tiles.0 > u32::MAX as usize || tiles.1 > u32::MAX as usize {
                    return Err(Error::InvalidSize);
                }
                BlockDescription::Tiles(
                    TileDescription {
                        x_size: tiles.0 as u32,
                        y_size: tiles.1 as u32,
                        level_mode: LevelMode::One,
                        rounding_mode: RoundingMode::Down,
                    },
                )
            },
            None => BlockDescription::ScanLines,
        };
        let chunk_count = compute_chunk_count(self.compression, self.data_window.size, blocks)?;
        Ok(
            Header {
                chunk_count,
                name: clone_name(&self.name),
                data_window: self.data_window,
                screen_window_center: self.screen_window_center,
                screen_window_width: self.screen_window_width,
                compression: self.compression,
                channels,
                line_order: self.line_order,
                custom_attributes: clone_attributes(&self.attributes),
                display_window,
                pixel_aspect,
                blocks,
                deep_data_version: None,
                max_samples_per_pixel: None,
                deep: false,
            },
        )
    }
}

/// Where all the channels that a header lists can be allocated, so can
/// the first few.
pub proof fn lemma_allocate_channels_prefix(size: Vec2<usize>, channels: Seq<ChannelView>, count: int)
    requires
        0 <= count <= channels.len(),
    ensures
        allocate_channels_spec(size, channels.take(count)) matches Err(e)
            ==> allocate_channels_spec(size, channels) == Err::<
            Seq<(Seq<u8>, SamplesView, bool, Vec2<usize>)>,
            Error,
        >(e),
    decreases channels.len() - count,
{
    if count < channels.len() {
        lemma_allocate_channels_prefix(size, channels, count + 1);
        assert(channels.take(count + 1).drop_last() =~= channels.take(count));
    } else {
        assert(channels.take(count) =~= channels);
    }
}

/// The channels that the header of a part lists are in the order of
/// their names, and no two have the same name.
pub proof fn lemma_header_channels_sorted(part: Part, header: Header, display_window: IntRect, pixel_aspect: u32)
    requires
        part.validate_for_header() is Ok,
        part.is_described_by(header, display_window, pixel_aspect),
    ensures
        forall|i: int|
            0 < i < header.channels@.len() ==> precedes(
                (#[trigger] header.channels@[i - 1]).name,
                header.channels@[i].name,
            ),
{
    assert forall|i: int| 0 < i < header.channels@.len() implies precedes(
        (#[trigger] header.channels@[i - 1]).name,
        header.channels@[i].name,
    ) by {
        assert(precedes(part.channels@[i - 1].name@, part.channels@[i].name@));
    }
}

/// The parts that a list holds, in order.
pub uninterp spec fn parts_items(parts: Parts) -> Seq<Part>;

/// The parts of an image.
///
/// The parts are kept in a `SmallVec` of the `smallvec` crate, which the
/// verifier does not look into: `parts_items` names what it holds, and the
/// contracts of the three functions that reach into it are taken on trust.
#[verifier::external_body]
#[derive(Debug, PartialEq, Eq)]
pub struct Parts {
    list: SmallVec<[Part; 3]>,
}

impl View for Parts {
    type V = Seq<Part>;

    open spec fn view(&self) -> Seq<Part> {
        parts_items(*self)
    }
}

impl Clone for Parts {
    fn clone(&self) -> (r: Parts)
        ensures
            r@.len() == self@.len(),
    {
        let parts = self.as_slice_unchecked();
        let mut copies: Vec<Part> = Vec::new();
        let mut index: usize = 0;
        while index < parts.len()
            invariant
                index <= parts@.len(),
                copies@.len() == index,
            decreases parts@.len() - index,
        {
            copies.push(parts[index].clone());
            index = index + 1;
        }
        Parts::from_vec_unchecked(copies)
    }
}

impl Parts {
    /// `SmallVec::from_vec`: the new vector holds the items of the given
    /// one in the same order.
    #[verifier::external_body]
    fn from_vec_unchecked(parts: Vec<Part>) -> (r: Parts)
        ensures
            parts_items(r) == parts@,
    {
        Parts { list: SmallVec::from_vec(parts) }
    }

    /// `SmallVec::as_slice`: the whole vector as a slice.
    #[verifier::external_body]
    fn as_slice_unchecked(&self) -> (r: &[Part])
        ensures
            r@ == parts_items(*self),
    {
        self.list.as_slice()
    }

    /// `SmallVec::index_mut` with a `usize`: the item at the index, to be
    /// changed in place. The other items stay as they are.
    #[verifier::external_body]
    fn index_mut_unchecked(&mut self, index: usize) -> (r: &mut Part)
        requires
            index < parts_items(*old(self)).len(),
        ensures
            *r == parts_items(*old(self))[index as int],
            parts_items(*final(self)) == parts_items(*old(self)).update(index as int, *final(r)),
    {
        &mut self.list[index]
    }

    /// The list of the given parts, in the given order.
    pub fn from_vec(parts: Vec<Part>) -> (r: Parts)
        ensures
            r@ == parts@,
    {
        Parts::from_vec_unchecked(parts)
    }

    /// The parts of the list.
    pub fn as_slice(&self) -> (r: &[Part])
        ensures
            r@ == self@,
    {
        self.as_slice_unchecked()
    }

    /// How many parts the list holds.
    pub fn len(&self) -> (r: usize)
        ensures
            r == self@.len(),
    {
        self.as_slice_unchecked().len()
    }

    /// The part at the index, if there is one.
    pub fn get(&self, index: usize) -> (r: Option<&Part>)
        ensures
            r == if index < self@.len() {
                Some(&self@[index as int])
            } else {
                None
            },
    {
        let parts = self.as_slice_unchecked();
        if index < parts.len() {
            Some(&parts[index])
        } else {
            None
        }
    }
}

/// An image: one part or more, with the display window and the pixel
/// aspect that they share.
#[derive(Debug, Clone, PartialEq, Eq)]
pub struct Image {
    /// The parts of the image.
    pub parts: Parts,
    /// The rectangle that a viewer shows.
    pub display_window: IntRect,
    /// The width of a pixel divided by its height, a 32-bit
    /// floating-point number as its bit pattern.
    pub pixel_aspect: u32,
}

/// Whether each part is the one that is allocated for the header at
/// its place, with the channels that the header lists and all samples zero.
pub open spec fn are_allocated_for(parts: Seq<Part>, headers: Seq<Header>) -> bool {
    &&& parts.len() == headers.len()
    &&& forall|i: int|
        0 <= i < parts.len() ==> (#[trigger] parts[i]).is_allocated_for(headers[i])
            && allocate_channels_spec(headers[i].data_window.size, headers[i].channels@) is Ok
            && are_channels(
            parts[i].channels@,
            allocate_channels_spec(headers[i].data_window.size, headers[i].channels@)->Ok_0,
        )
}

/// The error of the first header whose channels cannot be allocated, if there is one.
pub open spec fn allocate_parts_error(headers: Seq<Header>) -> Option<Error>
    decreases headers.len(),
{
    if headers.len() == 0 {
        None
    } else {
        match allocate_parts_error(headers.drop_last()) {
            Some(e) => Some(e),
            None => match allocate_channels_spec(
                headers.last().data_window.size,
                headers.last().channels@,
            ) {
                Err(e) => Some(e),
                Ok(_) => None,
            },
        }
    }
}

/// The error of the first header, if any, is that of all headers.
pub proof fn lemma_allocate_parts_prefix(headers: Seq<Header>, count: int)
    requires
        0 <= count <= headers.len(),
    ensures
        allocate_parts_error(headers.take(count)) is Some ==> allocate_parts_error(headers)
            == allocate_parts_error(headers.take(count)),
    decreases headers.len() - count,
{
    if count < headers.len() {
        lemma_allocate_parts_prefix(headers, count + 1);
        assert(headers.take(count + 1).drop_last() =~= headers.take(count));
    } else {
        assert(headers.take(count) =~= headers);
    }
}

/// The first thing that stands in the way of a header for one of the parts, if anything.
pub open spec fn validate_for_headers(parts: Seq<Part>) -> Result<(), Error>
    decreases parts.len(),
{
    if parts.len() == 0 {
        Ok(())
    } else {
        match validate_for_headers(parts.drop_last()) {
            Err(e) => Err(e),
            Ok(_) => parts.last().validate_for_header(),
        }
    }
}

/// What stands in the way of a header for one of the first parts
/// stands in the way of headers for all parts.
pub proof fn lemma_validate_for_headers_prefix(parts: Seq<Part>, count: int)
    requires
        0 <= count <= parts.len(),
    ensures
        validate_for_headers(parts.take(count)) is Err ==> validate_for_headers(parts)
            == validate_for_headers(parts.take(count)),
    decreases parts.len() - count,
{
    if count < parts.len() {
        lemma_validate_for_headers_prefix(parts, count + 1);
        assert(parts.take(count + 1).drop_last() =~= parts.take(count));
    } else {
        assert(parts.take(count) =~= parts);
    }
}

impl Image {
    /// An image of one part. Its display window is the data window of the
    /// part, and its pixels are as wide as they are high.
    pub fn new_from_single_part(part: Part) -> (r: Image)
        ensures
            r.parts@ == seq![part],
            r.display_window == part.data_window,
            r.pixel_aspect == ONE,
    {
        let display_window = part.data_window;
        let mut parts: Vec<Part> = Vec::new();
        parts.push(part);
        assert(parts@ =~= seq![part]);
        Image { pixel_aspect: ONE, display_window, parts: Parts::from_vec_unchecked(parts) }
    }

    /// An image of the given parts and display window. Its pixels are as
    /// wide as they are high.
    pub fn new_from_parts(parts: Parts, display_window: IntRect) -> (r: Image)
        ensures
            r == (Image { parts, display_window, pixel_aspect: ONE }),
    {
        Image { parts, display_window, pixel_aspect: ONE }
    }

    /// An image for the headers, with a part for each header and all
    /// samples zero. Its display window and pixel aspect are those of the
    /// first header. Fails where a channel cannot be allocated.
    pub fn allocate(headers: &[Header]) -> (r: Result<Image, Error>)
        ensures
            match allocate_parts_error(headers@) {
                None => r is Ok && are_allocated_for(r->Ok_0.parts@, headers@)
                    && r->Ok_0.display_window == (if headers@.len() > 0 {
                    headers@[0].display_window
                } else {
                    IntRect { position: Vec2(0i32, 0i32), size: Vec2(0usize, 0usize) }
                }) && r->Ok_0.pixel_aspect == (if headers@.len() > 0 {
                    headers@[0].pixel_aspect
                } else {
                    ONE
                }),
                Some(e) => r == Err::<Image, Error>(e),
            },
    {
        let display_window = if headers.len() > 0 {
            headers[0].display_window
        } else {
            IntRect::zero()
        };
        let pixel_aspect = if headers.len() > 0 {
            headers[0].pixel_aspect
        } else {
            ONE
        };
        let mut parts: Vec<Part> = Vec::new();
        let mut index: usize = 0;
        proof {
            assert(headers@.take(0) =~= Seq::<Header>::empty());
        }
        while index < headers.len()
            invariant
                index <= headers@.len(),
                allocate_parts_error(headers@.take(index as int)) is None,
                are_allocated_for(parts@, headers@.take(index as int)),
            decreases headers@.len() - index,
        {
            proof {
                let taken = headers@.take(index + 1);
                assert(taken.drop_last() =~= headers@.take(index as int));
                assert(taken.last() == headers@[index as int]);
                lemma_allocate_parts_prefix(headers@, index + 1);
            }
            let part = Part::allocate(&headers[index])?;
            let ghost before = parts@;
            parts.push(part);
            index = index + 1;
            proof {
                let taken = headers@.take(index as int);
                assert forall|i: int| 0 <= i < parts@.len() implies (#[trigger] parts@[i])
                    .is_allocated_for(taken[i]) && allocate_channels_spec(
                    taken[i].data_window.size,
                    taken[i].channels@,
                ) is Ok && are_channels(
                    parts@[i].channels@,
                    allocate_channels_spec(taken[i].data_window.size, taken[i].channels@)->Ok_0,
                ) by {
                    if i < before.len() {
                        assert(parts@[i] == before[i]);
                        assert(taken[i] == headers@.take(index - 1)[i]);
                    }
                }
            }
        }
        proof {
            assert(headers@.take(index as int) =~= headers@);
        }
        Ok(Image { parts: Parts::from_vec_unchecked(parts), display_window, pixel_aspect })
    }

    /// What inserting a line makes of the samples of the channel of the
    /// part that the line names, or why it fails.
    pub open spec fn insert_line_spec(self, line: Line) -> Result<SamplesView, Error> {
        if line.location.part >= self.parts@.len() {
            Err(Error::InvalidPartIndex)
        } else {
            self.parts@[line.location.part as int].insert_line_spec(line)
        }
    }

    /// Puts the samples of a line into their place in the channel of the
    /// part that the line names. No sample changes where that fails.
    pub fn insert_line(&mut self, line: Line<'_>) -> (r: Result<(), Error>)
        ensures
            final(self).display_window == old(self).display_window,
            final(self).pixel_aspect == old(self).pixel_aspect,
            final(self).parts@.len() == old(self).parts@.len(),
            forall|i: int|
                0 <= i < old(self).parts@.len() && i != line.location.part
                    ==> #[trigger] final(self).parts@[i] == old(self).parts@[i],
            match old(self).insert_line_spec(line) {
                Ok(samples) => r == Ok::<(), Error>(()) && old(self).parts@[line.location.part as int]
                    .is_with_samples(
                    final(self).parts@[line.location.part as int],
                    line.location.channel as int,
                    samples,
                ),
                Err(e) => r == Err::<(), Error>(e) && (line.location.part < old(self).parts@.len()
                    ==> final(self).parts@[line.location.part as int].channels@ == old(self).parts@[line.location.part as int].channels@ && old(self).parts@[line.location.part as int].is_same_but_channels(
                    final(self).parts@[line.location.part as int],
                )),
            },
    {
        if line.location.part >= self.parts.len() {
            return Err(Error::InvalidPartIndex);
        }
        let part = self.parts.index_mut_unchecked(line.location.part);
        part.insert_line(line)
    }

    /// Whether the line lies within the channel of the part that it names.
    pub open spec fn holds_line(self, index: LineIndex) -> bool {
        &&& index.part < self.parts@.len()
        &&& self.parts@[index.part as int].holds_line(index)
    }

    /// Says whether the line lies within the channel of the part that it names.
    pub fn check_holds_line(&self, index: LineIndex) -> (r: bool)
        ensures
            r == self.holds_line(index),
    {
        let parts = self.parts.as_slice_unchecked();
        if index.part >= parts.len() {
            return false;
        }
        let part = &parts[index.part];
        let channels = part.channels.as_slice_unchecked();
        if index.channel >= channels.len() {
            return false;
        }
        let channel = &channels[index.channel];
        if index.level.0 != 0 || index.level.1 != 0 || channel.sampling.0 < 1 || channel.sampling.1
            < 1 {
            return false;
        }
        check_line_position(
            channel_resolution(part.data_window.size, channel.sampling),
            index,
            channel.samples.len(),
        ).is_ok()
    }

    /// The bytes of the samples of a line of the image.
    pub open spec fn line_bytes(self, index: LineIndex) -> Seq<u8> {
        self.parts@[index.part as int].line_bytes(index)
    }

    /// Appends the bytes of the samples of a line of the image.
    pub fn extract_line(&self, index: LineIndex, write: &mut Vec<u8>)
        requires
            self.holds_line(index),
        ensures
            final(write)@ == old(write)@ + self.line_bytes(index),
    {
        let parts = self.parts.as_slice_unchecked();
        parts[index.part].extract_line(index, write)
    }

    /// Whether each header is the one that describes the part at its place.
    pub open spec fn is_described_by(self, headers: Seq<Header>) -> bool {
        &&& headers.len() == self.parts@.len()
        &&& forall|i: int|
            0 <= i < headers.len() ==> (#[trigger] self.parts@[i]).is_described_by(
                headers[i],
                self.display_window,
                self.pixel_aspect,
            )
    }

    /// What the file says before its pixels: a header for each part,
    /// and the requirements that follow from them. Fails where something
    /// stands in the way of a header for a part.
    pub fn infer_meta_data(&self) -> (r: Result<MetaData, Error>)
        ensures
            match validate_for_headers(self.parts@) {
                Ok(_) => r is Ok && self.is_described_by(r->Ok_0.headers@)
                    && r->Ok_0.requirements == (Requirements {
                    file_format_version: 2,
                    is_multipart: self.parts@.len() > 1,
                    has_tiles: exists|i: int|
                        0 <= i < self.parts@.len() && (#[trigger] self.parts@[i]).tiles is Some,
                    has_long_names: self.needs_long_names(),
                    has_deep_data: false,
                }),
                Err(e) => r == Err::<MetaData, Error>(e),
            },
    {
        let parts = self.parts.as_slice_unchecked();
        let mut headers: Vec<Header> = Vec::new();
        let mut has_tiles = false;
        let mut index: usize = 0;
        proof {
            assert(parts@.take(0) =~= Seq::<Part>::empty());
        }
        while index < parts.len()
            invariant
                index <= parts@.len(),
                parts@ == self.parts@,
                headers@.len() == index,
                validate_for_headers(parts@.take(index as int)) is Ok,
                forall|i: int|
                    0 <= i < index ==> (#[trigger] parts@[i]).is_described_by(
                        headers@[i],
                        self.display_window,
                        self.pixel_aspect,
                    ),
                has_tiles == exists|i: int| 0 <= i < index && (#[trigger] parts@[i]).tiles is Some,
            decreases parts@.len() - index,
        {
            proof {
                let taken = parts@.take(index + 1);
                assert(taken.drop_last() =~= parts@.take(index as int));
                assert(taken.last() == parts@[index as int]);
                lemma_validate_for_headers_prefix(parts@, index + 1);
            }
            let header = parts[index].infer_header(self.display_window, self.pixel_aspect)?;
            if header.blocks.has_tiles() {
                has_tiles = true;
                assert(parts@[index as int].tiles is Some);
            }
            headers.push(header);
            index = index + 1;
        }
        proof {
            assert(parts@.take(index as int) =~= parts@);
        }
        let requirements = Requirements::new(
            self.minimum_version(),
            headers.len() > 1,
            has_tiles,
            self.has_long_names(),
            false,
        );
        Ok(MetaData { requirements, headers })
    }

    /// The version of the format that a file of this image is of: version 2.
    pub fn minimum_version(&self) -> (r: u8)
        ensures
            r == 2,
    {
        2
    }

    /// Whether a file of this image needs long names: the name of a
    /// part, of a channel or of an attribute has more than 31 bytes.
    pub open spec fn needs_long_names(self) -> bool {
        any_long_names(self.parts@, self.parts@.len())
    }

    /// Says whether a file of this image needs long names, which allow
    /// names of up to 255 bytes where other files allow 31.
    pub fn has_long_names(&self) -> (r: bool)
        ensures
            r == self.needs_long_names(),
    {
        let parts = self.parts.as_slice_unchecked();
        let mut index: usize = 0;
        while index < parts.len()
            invariant
                index <= parts@.len(),
                parts@ == self.parts@,
                !any_long_names(parts@, index as nat),
            decreases parts@.len() - index,
        {
            if parts[index].has_long_names() {
                proof {
                    lemma_long_names_stay(parts@, (index + 1) as nat, parts@.len());
                }
                return true;
            }
            index = index + 1;
        }
        false
    }
}

/// How many bytes the samples of one pixel take in the first `count`
/// channels together.
pub open spec fn pixel_bytes(channels: Seq<Channel>, count: nat) -> nat
    decreases count,
{
    if count == 0 {
        0
    } else {
        pixel_bytes(channels, (count - 1) as nat) + channels[count
            - 1].samples@.sample_type().spec_bytes_per_sample()
    }
}

/// The line of the part `part` that is the row `row` of a block in the
/// channel `channel`.
pub open spec fn block_line(part: usize, bounds: BlockBounds, row: nat, channel: nat) -> LineIndex {
    LineIndex {
        part,
        channel: channel as usize,
        level: Vec2(0, 0),
        position: Vec2(bounds.position.0, (bounds.position.1 + row) as usize),
        width: bounds.size.0,
    }
}

/// The bytes of one row of a block in the first `count` channels.
pub open spec fn block_row_bytes(
    channels: Seq<Channel>,
    size: Vec2<usize>,
    bounds: BlockBounds,
    row: nat,
    count: nat,
) -> Seq<u8>
    decreases count,
{
    if count == 0 {
        Seq::empty()
    } else {
        let channel = (count - 1) as nat;
        block_row_bytes(channels, size, bounds, row, channel) + channels[channel as int].line_bytes(
            block_line(0, bounds, row, channel),
            size,
        )
    }
}

/// The bytes of the first `rows` rows of a block: row after row, and in
/// each row channel after channel.
pub open spec fn block_bytes(
    channels: Seq<Channel>,
    size: Vec2<usize>,
    bounds: BlockBounds,
    rows: nat,
) -> Seq<u8>
    decreases rows,
{
    if rows == 0 {
        Seq::empty()
    } else {
        let row = (rows - 1) as nat;
        block_bytes(channels, size, bounds, row) + block_row_bytes(
            channels,
            size,
            bounds,
            row,
            channels.len(),
        )
    }
}

/// The error for a block that does not lie within its part.
pub open spec fn block_position_error() -> Error {
    line_position_error("block")
}

/// Whether each sample of each channel stands for exactly one pixel.
pub open spec fn are_fully_sampled(channels: Seq<Channel>) -> bool {
    forall|i: int| 0 <= i < channels.len() ==> (#[trigger] channels[i]).sampling == Vec2(1usize, 1usize)
}

/// Whether each channel holds as many samples as a part of the given size has pixels.
pub open spec fn are_filled(channels: Seq<Channel>, size: Vec2<usize>) -> bool {
    forall|i: int| 0 <= i < channels.len() ==> (#[trigger] channels[i]).samples@.len() == size.0 * size.1
}

impl Part {
    /// What is wrong with a block of the part, if anything: it is of a
    /// resolution level other than the first, the samples of a channel stand
    /// for other than one pixel, the block does not lie within the part or
    /// holds no pixel, or a channel does not hold as many samples as the
    /// part has pixels.
    pub open spec fn validate_block(self, bounds: BlockBounds) -> Result<(), Error> {
        if bounds.level != Vec2(0usize, 0usize) {
            Err(Error::InvalidLevelIndex)
        } else if !are_fully_sampled(self.channels@) {
            Err(sampling_error())
        } else if bounds.size.0 == 0 || bounds.size.1 == 0 || bounds.position.0 + bounds.size.0
            > self.data_window.size.0 || bounds.position.1 + bounds.size.1
            > self.data_window.size.1 {
            Err(block_position_error())
        } else if !are_filled(self.channels@, self.data_window.size) {
            Err(line_position_error("sample storage"))
        } else {
            Ok(())
        }
    }

    /// Says what is wrong with a block of the part, if anything.
    pub fn check_block(&self, bounds: BlockBounds) -> (r: Result<(), Error>)
        ensures
            r == self.validate_block(bounds),
    {
        if bounds.level.0 != 0 || bounds.level.1 != 0 {
            return Err(Error::InvalidLevelIndex);
        }
        let channels = self.channels.as_slice_unchecked();
        let size = self.data_window.size;
        let mut index: usize = 0;
        while index < channels.len()
            invariant
                index <= channels@.len(),
                channels@ == self.channels@,
                bounds.level == Vec2(0usize, 0usize),
                forall|i: int|
                    0 <= i < index ==> (#[trigger] channels@[i]).sampling == Vec2(1usize, 1usize),
            decreases channels@.len() - index,
        {
            if channels[index].sampling.0 != 1 || channels[index].sampling.1 != 1 {
                assert(channels@[index as int].sampling != Vec2(1usize, 1usize));
                return Err(
                    Error::InvalidContent {
                        what: Value::Attribute("sampling"),
                        required: Required::Min(1),
                    },
                );
            }
            index = index + 1;
        }
        let beyond_x = match bounds.position.0.checked_add(bounds.size.0) {
            Some(end) => end > size.0,
            None => true,
        };
        let beyond_y = match bounds.position.1.checked_add(bounds.size.1) {
            Some(end) => end > size.1,
            None => true,
        };
        if bounds.size.0 == 0 || bounds.size.1 == 0 || beyond_x || beyond_y {
            return Err(
                Error::InvalidContent {
                    what: Value::Attribute("block"),
                    required: Required::Exact("a line within the channel"),
                },
            );
        }
        proof {
            assert(0 <= size.0 * size.1) by (nonlinear_arith)
                requires
                    0 <= size.0,
                    0 <= size.1,
            ;
        }
        let area = size.checked_area();
        let mut index: usize = 0;
        while index < channels.len()
            invariant
                index <= channels@.len(),
                channels@ == self.channels@,
                size == self.data_window.size,
                area == (if size.spec_area() <= usize::MAX {
                    Some(size.spec_area() as usize)
                } else {
                    None
                }),
                0 <= size.0 * size.1,
                bounds.level == Vec2(0usize, 0usize),
                are_fully_sampled(self.channels@),
                !(bounds.size.0 == 0 || bounds.size.1 == 0 || bounds.position.0 + bounds.size.0
                    > self.data_window.size.0 || bounds.position.1 + bounds.size.1
                    > self.data_window.size.1),
                forall|i: int|
                    0 <= i < index ==> (#[trigger] channels@[i]).samples@.len() == size.0 * size.1,
            decreases channels@.len() - index,
        {
            let len = channels[index].samples.len();
            if area != Some(len) {
                assert(channels@[index as int].samples@.len() != size.0 * size.1);
                return Err(
                    Error::InvalidContent {
                        what: Value::Attribute("sample storage"),
                        required: Required::Exact("a line within the channel"),
                    },
                );
            }
            index = index + 1;
        }
        Ok(())
    }

    /// Every line of a block that is valid lies within its channel.
    pub proof fn lemma_block_holds_lines(self, bounds: BlockBounds, row: nat, channel: nat)
        requires
            self.validate_block(bounds) is Ok,
            row < bounds.size.1,
            channel < self.channels@.len(),
        ensures
            self.channels@[channel as int].holds_line(
                block_line(0, bounds, row, channel),
                self.data_window.size,
            ),
            line_start(self.data_window.size, block_line(0, bounds, row, channel).position)
                == (bounds.position.1 + row) * self.data_window.size.0 + bounds.position.0,
    {
        let size = self.data_window.size;
        let y = bounds.position.1 + row;
        assert(self.channels@[channel as int].sampling == Vec2(1usize, 1usize));
        assert(self.channels@[channel as int].samples@.len() == size.0 * size.1);
        assert(spec_channel_resolution(size, Vec2(1usize, 1usize)) == size);
        assert(y * size.0 + size.0 <= size.0 * size.1) by (nonlinear_arith)
            requires
                0 <= y < size.1,
                0 <= size.0,
        ;
    }

    /// Appends the pixel bytes of a block of the part: row after row,
    /// and in each row channel after channel. Nothing is appended where the
    /// block is not valid.
    pub fn extract_block(&self, bounds: BlockBounds, write: &mut Vec<u8>) -> (r: Result<(), Error>)
        ensures
            r == self.validate_block(bounds),
            final(write)@ == if r is Ok {
                old(write)@ + block_bytes(
                    self.channels@,
                    self.data_window.size,
                    bounds,
                    bounds.size.1 as nat,
                )
            } else {
                old(write)@
            },
    {
        self.check_block(bounds)?;
        let channels = self.channels.as_slice_unchecked();
        let size = self.data_window.size;
        let mut row: usize = 0;
        proof {
            assert(write@ =~= old(write)@ + block_bytes(self.channels@, size, bounds, 0));
        }
        while row < bounds.size.1
            invariant
                row <= bounds.size.1,
                channels@ == self.channels@,
                size == self.data_window.size,
                self.validate_block(bounds) is Ok,
                write@ == old(write)@ + block_bytes(self.channels@, size, bounds, row as nat),
            decreases bounds.size.1 - row,
        {
            let ghost before = write@;
            let mut channel: usize = 0;
            proof {
                assert(write@ =~= before + block_row_bytes(
                    self.channels@,
                    size,
                    bounds,
                    row as nat,
                    0,
                ));
            }
            while channel < channels.len()
                invariant
                    channel <= channels@.len(),
                    row < bounds.size.1,
                    channels@ == self.channels@,
                    size == self.data_window.size,
                    self.validate_block(bounds) is Ok,
                    write@ == before + block_row_bytes(
                        self.channels@,
                        size,
                        bounds,
                        row as nat,
                        channel as nat,
                    ),
                decreases channels@.len() - channel,
            {
                proof {
                    self.lemma_block_holds_lines(bounds, row as nat, channel as nat);
                }
                let index = LineIndex {
                    part: 0,
                    channel,
                    level: Vec2(0, 0),
                    position: Vec2(bounds.position.0, bounds.position.1 + row),
                    width: bounds.size.0,
                };
                channels[channel].extract_line(index, size, write);
                channel = channel + 1;
                proof {
                    assert(write@ =~= before + block_row_bytes(
                        self.channels@,
                        size,
                        bounds,
                        row as nat,
                        channel as nat,
                    ));
                }
            }
            row = row + 1;
            proof {
                assert(write@ =~= old(write)@ + block_bytes(
                    self.channels@,
                    size,
                    bounds,
                    row as nat,
                ));
            }
        }
        Ok(())
    }
}

/// A row of a block takes as many bytes as the block is wide, for each
/// byte of a pixel.
pub proof fn lemma_block_row_bytes_len(part: Part, bounds: BlockBounds, row: nat, count: nat)
    requires
        part.validate_block(bounds) is Ok,
        row < bounds.size.1,
        count <= part.channels@.len(),
    ensures
        block_row_bytes(part.channels@, part.data_window.size, bounds, row, count).len()
            == bounds.size.0 * pixel_bytes(part.channels@, count),
    decreases count,
{
    if count > 0 {
        let channel = (count - 1) as nat;
        lemma_block_row_bytes_len(part, bounds, row, channel);
        part.lemma_block_holds_lines(bounds, row, channel);
        let samples = part.channels@[channel as int].samples@;
        let each = samples.sample_type().spec_bytes_per_sample();
        let before = pixel_bytes(part.channels@, channel);
        let line = part.channels@[channel as int].line_bytes(
            block_line(0, bounds, row, channel),
            part.data_window.size,
        );
        assert(line.len() == bounds.size.0 * each);
        assert(bounds.size.0 * (before + each) == bounds.size.0 * before + bounds.size.0 * each)
            by (nonlinear_arith);
    } else {
        assert(bounds.size.0 * 0 == 0);
    }
}

/// The pixel bytes of a block are as many as the block has pixels, for
/// each byte of a pixel.
pub proof fn lemma_block_bytes_len(part: Part, bounds: BlockBounds, rows: nat)
    requires
        part.validate_block(bounds) is Ok,
        rows <= bounds.size.1,
    ensures
        block_bytes(part.channels@, part.data_window.size, bounds, rows).len() == (bounds.size.0
            * rows) * pixel_bytes(part.channels@, part.channels@.len()),
    decreases rows,
{
    let each = pixel_bytes(part.channels@, part.channels@.len());
    if rows > 0 {
        let row = (rows - 1) as nat;
        lemma_block_bytes_len(part, bounds, row);
        lemma_block_row_bytes_len(part, bounds, row, part.channels@.len());
        assert((bounds.size.0 * rows) * each == (bounds.size.0 * row) * each + bounds.size.0
            * each) by (nonlinear_arith)
            requires
                rows == row + 1,
        ;
    } else {
        assert((bounds.size.0 * rows) * each == 0) by (nonlinear_arith)
            requires
                rows == 0,
        ;
    }
}

impl SamplesView {
    /// The samples with the first `rows` rows of a block replaced by
    /// those that `bytes` holds: the samples of the row `row` stand in
    /// `bytes` from `offset + row * stride` on.
    pub open spec fn with_block_rows(
        self,
        resolution: Vec2<usize>,
        bounds: BlockBounds,
        bytes: Seq<u8>,
        offset: nat,
        stride: nat,
        rows: nat,
    ) -> SamplesView
        decreases rows,
    {
        if rows == 0 {
            self
        } else {
            let row = (rows - 1) as nat;
            let from = offset + row * stride;
            self.with_block_rows(resolution, bounds, bytes, offset, stride, row).with_samples_from(
                (bounds.position.1 + row) * resolution.0 + bounds.position.0,
                bounds.size.0 as nat,
                bytes.subrange(
                    from as int,
                    from + bounds.size.0 * self.sample_type().spec_bytes_per_sample(),
                ),
            )
        }
    }

    /// Replacing rows of a block changes neither the number of the
    /// samples nor their type.
    pub proof fn lemma_with_block_rows_shape(
        self,
        resolution: Vec2<usize>,
        bounds: BlockBounds,
        bytes: Seq<u8>,
        offset: nat,
        stride: nat,
        rows: nat,
    )
        requires
            rows <= bounds.size.1,
            bounds.position.0 + bounds.size.0 <= resolution.0,
            bounds.position.1 + bounds.size.1 <= resolution.1,
            self.len() == resolution.0 * resolution.1,
        ensures
            self.with_block_rows(resolution, bounds, bytes, offset, stride, rows).len()
                == self.len(),
            self.with_block_rows(resolution, bounds, bytes, offset, stride, rows).sample_type()
                == self.sample_type(),
        decreases rows,
    {
        if rows > 0 {
            let row = (rows - 1) as nat;
            self.lemma_with_block_rows_shape(resolution, bounds, bytes, offset, stride, row);
            let before = self.with_block_rows(resolution, bounds, bytes, offset, stride, row);
            let y = bounds.position.1 + row;
            assert(y * resolution.0 + resolution.0 <= resolution.0 * resolution.1)
                by (nonlinear_arith)
                requires
                    0 <= y < resolution.1,
                    0 <= resolution.0,
            ;
            assert(0 <= y * resolution.0) by (nonlinear_arith)
                requires
                    0 <= y,
                    0 <= resolution.0,
            ;
            let from = offset + row * stride;
            lemma_line_round_trip(
                before,
                y * resolution.0 + bounds.position.0,
                bounds.size.0 as nat,
                bytes.subrange(
                    from as int,
                    from + bounds.size.0 * self.sample_type().spec_bytes_per_sample(),
                ),
            );
        }
    }
}

impl Samples {
    /// Puts the samples of the rows of a block into their places. The
    /// samples of the row `row` stand in `bytes` from `offset + row * stride` on.
    fn insert_block_rows(
        &mut self,
        resolution: Vec2<usize>,
        bounds: BlockBounds,
        bytes: &[u8],
        offset: usize,
        stride: usize,
    )
        requires
            bounds.size.0 >= 1,
            bounds.size.1 >= 1,
            bounds.position.0 + bounds.size.0 <= resolution.0,
            bounds.position.1 + bounds.size.1 <= resolution.1,
            old(self)@.len() == resolution.0 * resolution.1,
            offset + (bounds.size.1 - 1) * stride + bounds.size.0 * old(self)@.sample_type().spec_bytes_per_sample() <= bytes@.len(),
        ensures
            final(self)@ == old(self)@.with_block_rows(
                resolution,
                bounds,
                bytes@,
                offset as nat,
                stride as nat,
                bounds.size.1 as nat,
            ),
    {
        let sample_type = self.sample_type();
        let each = sample_type.bytes_per_sample();
        assert(bytes@.len() <= usize::MAX) by {
            let _ = bytes.len();
        }
        assert(0 <= (bounds.size.1 - 1) * stride) by (nonlinear_arith)
            requires
                bounds.size.1 >= 1,
                0 <= stride,
        ;
        assert(0 <= bounds.size.0 * each) by (nonlinear_arith)
            requires
                0 <= bounds.size.0,
                0 <= each,
        ;
        let line_size = bounds.size.0 * each;
        let mut row: usize = 0;
        while row < bounds.size.1
            invariant
                row <= bounds.size.1,
                bounds.size.0 >= 1,
                bounds.position.0 + bounds.size.0 <= resolution.0,
                bounds.position.1 + bounds.size.1 <= resolution.1,
                old(self)@.len() == resolution.0 * resolution.1,
                sample_type == old(self)@.sample_type(),
                each == sample_type.spec_bytes_per_sample(),
                line_size == bounds.size.0 * each,
                bytes@.len() <= usize::MAX,
                offset + (bounds.size.1 - 1) * stride + line_size <= bytes@.len(),
                self@ == old(self)@.with_block_rows(
                    resolution,
                    bounds,
                    bytes@,
                    offset as nat,
                    stride as nat,
                    row as nat,
                ),
            decreases bounds.size.1 - row,
        {
            proof {
                old(self)@.lemma_with_block_rows_shape(
                    resolution,
                    bounds,
                    bytes@,
                    offset as nat,
                    stride as nat,
                    row as nat,
                );
                assert(row * stride <= (bounds.size.1 - 1) * stride) by (nonlinear_arith)
                    requires
                        0 <= row <= bounds.size.1 - 1,
                        0 <= stride,
                ;
                assert(0 <= row * stride) by (nonlinear_arith)
                    requires
                        0 <= row,
                        0 <= stride,
                ;
                let y = bounds.position.1 + row;
                assert(y * resolution.0 + resolution.0 <= resolution.0 * resolution.1)
                    by (nonlinear_arith)
                    requires
                        0 <= y < resolution.1,
                        0 <= resolution.0,
                ;
                assert(0 <= y * resolution.0) by (nonlinear_arith)
                    requires
                        0 <= y,
                        0 <= resolution.0,
                ;
            }
            let from = offset + row * stride;
            let line = Line {
                location: LineIndex {
                    part: 0,
                    channel: 0,
                    level: Vec2(0, 0),
                    position: Vec2(bounds.position.0, bounds.position.1 + row),
                    width: bounds.size.0,
                },
                sample_type,
                value: vstd::slice::slice_subrange(bytes, from, from + line_size),
            };
            let result = self.insert_line(resolution, line);
            assert(result is Ok);
            row = row + 1;
        }
    }
}

/// The error for pixel bytes that are not as many as their block has
/// pixels, for each byte of a pixel.
pub open spec fn block_size_error() -> Error {
    Error::InvalidContent {
        what: Value::Attribute("block"),
        required: Required::Exact("as many samples as the block has pixels"),
    }
}

impl Part {
    /// What is wrong with putting the given number of pixel bytes into a
    /// block of the part, if anything: something is wrong with the block,
    /// or the bytes are not as many as the block has pixels, for each
    /// byte of a pixel.
    pub open spec fn validate_block_bytes(self, bounds: BlockBounds, byte_size: nat) -> Result<
        (),
        Error,
    > {
        match self.validate_block(bounds) {
            Err(e) => Err(e),
            Ok(_) => if byte_size != (bounds.size.0 * bounds.size.1) * pixel_bytes(
                self.channels@,
                self.channels@.len(),
            ) {
                Err(block_size_error())
            } else {
                Ok(())
            },
        }
    }

    /// Whether `after` is this part with the samples of the first `count`
    /// channels replaced by those of a block that `bytes` holds.
    pub open spec fn is_with_block(self, after: Part, bounds: BlockBounds, bytes: Seq<u8>, count: nat)
        -> bool {
        let width = bounds.size.0 as nat;
        let stride = width * pixel_bytes(self.channels@, self.channels@.len());
        &&& self.is_same_but_channels(after)
        &&& after.channels@.len() == self.channels@.len()
        &&& forall|i: int|
            0 <= i < self.channels@.len() ==> {
                &&& (#[trigger] after.channels@[i]).name == self.channels@[i].name
                &&& after.channels@[i].is_linear == self.channels@[i].is_linear
                &&& after.channels@[i].sampling == self.channels@[i].sampling
                &&& after.channels@[i].samples@ == if i < count {
                    self.channels@[i].samples@.with_block_rows(
                        self.data_window.size,
                        bounds,
                        bytes,
                        width * pixel_bytes(self.channels@, i as nat),
                        stride,
                        bounds.size.1 as nat,
                    )
                } else {
                    self.channels@[i].samples@
                }
            }
    }

    /// How many bytes the samples of one pixel take in all the channels
    /// together, or `None` if it is more than `usize` can hold.
    fn pixel_byte_size(&self) -> (r: Option<usize>)
        ensures
            r == if pixel_bytes(self.channels@, self.channels@.len()) <= usize::MAX {
                Some(pixel_bytes(self.channels@, self.channels@.len()) as usize)
            } else {
                None
            },
    {
        let channels = self.channels.as_slice_unchecked();
        let mut total: usize = 0;
        let mut index: usize = 0;
        while index < channels.len()
            invariant
                index <= channels@.len(),
                channels@ == self.channels@,
                total == pixel_bytes(self.channels@, index as nat),
            decreases channels@.len() - index,
        {
            proof {
                lemma_pixel_bytes_grow(self.channels@, (index + 1) as nat, channels@.len());
            }
            total = match total.checked_add(channels[index].samples.sample_type().bytes_per_sample()) {
                Some(total) => total,
                None => return None,
            };
            index = index + 1;
        }
        Some(total)
    }

    /// Says what is wrong with putting the given number of pixel bytes
    /// into a block of the part, if anything.
    pub fn check_block_bytes(&self, bounds: BlockBounds, byte_size: usize) -> (r: Result<(), Error>)
        ensures
            r == self.validate_block_bytes(bounds, byte_size as nat),
    {
        self.check_block(bounds)?;
        proof {
            assert(0 <= bounds.size.0 * bounds.size.1) by (nonlinear_arith)
                requires
                    0 <= bounds.size.0,
                    0 <= bounds.size.1,
            ;
        }
        let expected = match self.pixel_byte_size() {
            None => None,
            Some(each) => if each == 0 {
                Some(0)
            } else {
                match bounds.size.checked_area() {
                    None => None,
                    Some(area) => area.checked_mul(each),
                }
            },
        };
        proof {
            let area = (bounds.size.0 * bounds.size.1) as nat;
            let each = pixel_bytes(self.channels@, self.channels@.len());
            assert(area >= 1) by (nonlinear_arith)
                requires
                    area == bounds.size.0 * bounds.size.1,
                    bounds.size.0 >= 1,
                    bounds.size.1 >= 1,
            ;
            if each >= 1 {
                assert(area * each >= area) by (nonlinear_arith)
                    requires
                        each >= 1,
                        area >= 0,
                ;
            } else {
                assert(area * each == 0) by (nonlinear_arith)
                    requires
                        each == 0,
                ;
            }
            assert(area * each >= each) by (nonlinear_arith)
                requires
                    area >= 1,
                    each >= 0,
            ;
        }
        if expected != Some(byte_size) {
            return Err(
                Error::InvalidContent {
                    what: Value::Attribute("block"),
                    required: Required::Exact("as many samples as the block has pixels"),
                },
            );
        }
        Ok(())
    }

    /// Puts the pixel bytes of a block into their places in the
    /// channels of the part. The bytes hold row after row, and in each row
    /// channel after channel. Nothing changes where the block or the
    /// number of the bytes is not valid.
    pub fn insert_block(&mut self, bounds: BlockBounds, bytes: &[u8]) -> (r: Result<(), Error>)
        ensures
            r == old(self).validate_block_bytes(bounds, bytes@.len()),
            r is Ok ==> old(self).is_with_block(
                *final(self),
                bounds,
                bytes@,
                old(self).channels@.len(),
            ),
            r is Err ==> old(self).is_same_but_channels(*final(self)) && final(self).channels@
                == old(self).channels@,
    {
        self.check_block_bytes(bounds, bytes.len())?;
        let size = self.data_window.size;
        let count = self.channels.len();
        let ghost initial = self.channels@;
        let ghost total = pixel_bytes(initial, initial.len());
        proof {
            let area = (bounds.size.0 * bounds.size.1) as nat;
            assert(area >= 1) by (nonlinear_arith)
                requires
                    area == bounds.size.0 * bounds.size.1,
                    bounds.size.0 >= 1,
                    bounds.size.1 >= 1,
            ;
            assert(area * total >= total) by (nonlinear_arith)
                requires
                    area >= 1,
                    total >= 0,
            ;
        }
        let each = match self.pixel_byte_size() {
            Some(each) => each,
            None => {
                assert(false);
                0
            },
        };
        proof {
            assert(bounds.size.0 * total <= (bounds.size.0 * bounds.size.1) * total)
                by (nonlinear_arith)
                requires
                    bounds.size.1 >= 1,
                    bounds.size.0 >= 0,
                    total >= 0,
            ;
            assert(0 <= bounds.size.0 * total) by (nonlinear_arith)
                requires
                    bounds.size.0 >= 0,
                    total >= 0,
            ;
        }
        let stride = bounds.size.0 * each;
        let mut before: usize = 0;
        let mut channel: usize = 0;
        while channel < count
            invariant
                channel <= count,
                count == initial.len(),
                initial == old(self).channels@,
                size == self.data_window.size,
                old(self).validate_block_bytes(bounds, bytes@.len()) is Ok,
                each == total,
                total == pixel_bytes(initial, initial.len()),
                stride == bounds.size.0 * total,
                before == pixel_bytes(initial, channel as nat),
                old(self).is_with_block(*self, bounds, bytes@, channel as nat),
            decreases count - channel,
        {
            let ghost earlier = *self;
            let sample_size = self.channels.as_slice_unchecked()[channel].samples.sample_type().bytes_per_sample();
            proof {
                lemma_pixel_bytes_grow(initial, (channel + 1) as nat, initial.len());
                let height = bounds.size.1;
                let width = bounds.size.0;
                assert(width * before + (height - 1) * (width * total) + width * sample_size
                    <= (width * height) * total) by (nonlinear_arith)
                    requires
                        before + sample_size <= total,
                        height >= 1,
                        width >= 0,
                        before >= 0,
                        sample_size >= 0,
                ;
                assert(0 <= width * before) by (nonlinear_arith)
                    requires
                        width >= 0,
                        before >= 0,
                ;
                assert(width * before <= width * total) by (nonlinear_arith)
                    requires
                        width >= 0,
                        0 <= before <= total,
                ;
            }
            let offset = bounds.size.0 * before;
            let entry = self.channels.index_mut_unchecked(channel);
            entry.samples.insert_block_rows(size, bounds, bytes, offset, stride);
            before = before + sample_size;
            channel = channel + 1;
            proof {
                assert forall|i: int| 0 <= i < initial.len() implies {
                    &&& (#[trigger] self.channels@[i]).name == initial[i].name
                    &&& self.channels@[i].is_linear == initial[i].is_linear
                    &&& self.channels@[i].sampling == initial[i].sampling
                    &&& self.channels@[i].samples@ == if i < channel {
                        initial[i].samples@.with_block_rows(
                            size,
                            bounds,
                            bytes@,
                            (bounds.size.0 as nat) * pixel_bytes(initial, i as nat),
                            (bounds.size.0 as nat) * total,
                            bounds.size.1 as nat,
                        )
                    } else {
                        initial[i].samples@
                    }
                } by {
                    if i != channel - 1 {
                        assert(self.channels@[i] == earlier.channels@[i]);
                    }
                }
            }
        }
        Ok(())
    }
}

/// More channels take no fewer bytes for a pixel.
pub proof fn lemma_pixel_bytes_grow(channels: Seq<Channel>, fewer: nat, more: nat)
    requires
        fewer <= more,
    ensures
        pixel_bytes(channels, fewer) <= pixel_bytes(channels, more),
    decreases more,
{
    if fewer < more {
        lemma_pixel_bytes_grow(channels, fewer, (more - 1) as nat);
    }
}

impl Image {
    /// What is wrong with a block of a part of the image, if anything.
    pub open spec fn validate_block(self, part: usize, bounds: BlockBounds) -> Result<(), Error> {
        if part >= self.parts@.len() {
            Err(Error::InvalidPartIndex)
        } else {
            self.parts@[part as int].validate_block(bounds)
        }
    }

    /// Appends the pixel bytes of a block of a part of the image: row
    /// after row, and in each row channel after channel. Nothing is appended
    /// where the image has no such part or the block is not valid.
    pub fn extract_block(&self, part: usize, bounds: BlockBounds, write: &mut Vec<u8>) -> (r:
        Result<(), Error>)
        ensures
            r == self.validate_block(part, bounds),
            final(write)@ == if r is Ok {
                old(write)@ + block_bytes(
                    self.parts@[part as int].channels@,
                    self.parts@[part as int].data_window.size,
                    bounds,
                    bounds.size.1 as nat,
                )
            } else {
                old(write)@
            },
    {
        let parts = self.parts.as_slice_unchecked();
        if part >= parts.len() {
            return Err(Error::InvalidPartIndex);
        }
        parts[part].extract_block(bounds, write)
    }

    /// What is wrong with putting the given number of pixel bytes into a
    /// block of a part of the image, if anything.
    pub open spec fn validate_block_bytes(self, part: usize, bounds: BlockBounds, byte_size: nat)
        -> Result<(), Error> {
        if part >= self.parts@.len() {
            Err(Error::InvalidPartIndex)
        } else {
            self.parts@[part as int].validate_block_bytes(bounds, byte_size)
        }
    }

    /// Puts the pixel bytes of a block into their places in the channels
    /// of a part of the image. No sample changes where the image has no
    /// such part, or the block or the number of the bytes is not valid.
    pub fn insert_block(&mut self, part: usize, bounds: BlockBounds, bytes: &[u8]) -> (r: Result<
        (),
        Error,
    >)
        ensures
            r == old(self).validate_block_bytes(part, bounds, bytes@.len()),
            final(self).display_window == old(self).display_window,
            final(self).pixel_aspect == old(self).pixel_aspect,
            final(self).parts@.len() == old(self).parts@.len(),
            forall|i: int|
                0 <= i < old(self).parts@.len() && i != part ==> #[trigger] final(self).parts@[i]
                    == old(self).parts@[i],
            r is Ok ==> old(self).parts@[part as int].is_with_block(
                final(self).parts@[part as int],
                bounds,
                bytes@,
                old(self).parts@[part as int].channels@.len(),
            ),
            r is Err && part < old(self).parts@.len() ==> old(self).parts@[part as int].is_same_but_channels(final(self).parts@[part as int]) && final(self).parts@[part as int].channels@ == old(self).parts@[part as int].channels@,
    {
        if part >= self.parts.len() {
            return Err(Error::InvalidPartIndex);
        }
        let entry = self.parts.index_mut_unchecked(part);
        entry.insert_block(bounds, bytes)
    }
}

/// Replacing samples leaves the bytes of the samples before and behind them as they were.
pub proof fn lemma_replaced_samples_apart(
    samples: SamplesView,
    start: int,
    count: nat,
    bytes: Seq<u8>,
    from: int,
    to: int,
)
    requires
        0 <= start,
        start + count <= samples.len(),
        0 <= from <= to <= samples.len(),
        to <= start || start + count <= from,
    ensures
        samples.with_samples_from(start, count, bytes).bytes_between(from, to)
            == samples.bytes_between(from, to),
{
    match samples {
        SamplesView::F16(s) => {
            let replaced = s.take(start) + u16_seq_from_le(bytes, count) + s.skip(start + count);
            assert(replaced.subrange(from, to) =~= s.subrange(from, to));
        },
        SamplesView::F32(s) => {
            let replaced = s.take(start) + u32_seq_from_le(bytes, count) + s.skip(start + count);
            assert(replaced.subrange(from, to) =~= s.subrange(from, to));
        },
        SamplesView::U32(s) => {
            let replaced = s.take(start) + u32_seq_from_le(bytes, count) + s.skip(start + count);
            assert(replaced.subrange(from, to) =~= s.subrange(from, to));
        },
    }
}

/// Whether a block lies within a channel of the given resolution, and
/// `bytes` holds the samples of each of its rows for the channel, from
/// `offset + row * stride` on.
pub open spec fn block_fits(
    samples: SamplesView,
    resolution: Vec2<usize>,
    bounds: BlockBounds,
    bytes: Seq<u8>,
    offset: nat,
    stride: nat,
) -> bool {
    &&& bounds.size.0 >= 1
    &&& bounds.size.1 >= 1
    &&& bounds.position.0 + bounds.size.0 <= resolution.0
    &&& bounds.position.1 + bounds.size.1 <= resolution.1
    &&& samples.len() == resolution.0 * resolution.1
    &&& offset + bounds.size.0 * samples.sample_type().spec_bytes_per_sample() <= stride
    &&& bounds.size.1 * stride <= bytes.len()
}

/// The index of the first sample of the row `row` of a block in a
/// channel of the given resolution.
pub open spec fn block_row_start(resolution: Vec2<usize>, bounds: BlockBounds, row: nat) -> int {
    (bounds.position.1 + row) * resolution.0 + bounds.position.0
}

/// The rows of a block lie one behind another within the samples of a channel.
pub proof fn lemma_block_rows_apart(resolution: Vec2<usize>, bounds: BlockBounds, low: nat, high: nat)
    requires
        bounds.position.0 + bounds.size.0 <= resolution.0,
        bounds.position.1 + bounds.size.1 <= resolution.1,
        low < high < bounds.size.1,
    ensures
        0 <= block_row_start(resolution, bounds, low),
        block_row_start(resolution, bounds, low) + bounds.size.0 <= block_row_start(
            resolution,
            bounds,
            high,
        ),
        block_row_start(resolution, bounds, high) + bounds.size.0 <= resolution.0 * resolution.1,
{
    let width = resolution.0 as int;
    let a = bounds.position.1 + low;
    let b = bounds.position.1 + high;
    assert(a * width + width <= b * width) by (nonlinear_arith)
        requires
            0 <= a < b,
            0 <= width,
    ;
    assert(0 <= a * width) by (nonlinear_arith)
        requires
            0 <= a,
            0 <= width,
    ;
    assert(b * width + width <= width * resolution.1) by (nonlinear_arith)
        requires
            0 <= b < resolution.1,
            0 <= width,
    ;
}

/// After the rows of a block were put into a channel, the bytes of each
/// of these rows are those that were put there.
pub proof fn lemma_inserted_row_is_extracted(
    samples: SamplesView,
    resolution: Vec2<usize>,
    bounds: BlockBounds,
    bytes: Seq<u8>,
    offset: nat,
    stride: nat,
    rows: nat,
    row: nat,
)
    requires
        block_fits(samples, resolution, bounds, bytes, offset, stride),
        row < rows <= bounds.size.1,
    ensures
        samples.with_block_rows(resolution, bounds, bytes, offset, stride, rows).bytes_between(
            block_row_start(resolution, bounds, row),
            block_row_start(resolution, bounds, row) + bounds.size.0,
        ) == bytes.subrange(
            (offset + row * stride) as int,
            offset + row * stride + bounds.size.0 * samples.sample_type().spec_bytes_per_sample(),
        ),
    decreases rows,
{
    let last = (rows - 1) as nat;
    let each = samples.sample_type().spec_bytes_per_sample();
    let width = bounds.size.0 as nat;
    let before = samples.with_block_rows(resolution, bounds, bytes, offset, stride, last);
    samples.lemma_with_block_rows_shape(resolution, bounds, bytes, offset, stride, last);
    let from = offset + last * stride;
    let line = bytes.subrange(from as int, (from + width * each) as int);
    let start = block_row_start(resolution, bounds, last);
    assert(last * stride + stride <= bounds.size.1 * stride) by (nonlinear_arith)
        requires
            last < bounds.size.1,
            0 <= stride,
    ;
    assert(0 <= last * stride) by (nonlinear_arith)
        requires
            0 <= last,
            0 <= stride,
    ;
    assert(0 <= width * each) by (nonlinear_arith)
        requires
            0 <= width,
            0 <= each,
    ;
    if row == last {
        if last > 0 {
            lemma_block_rows_apart(resolution, bounds, 0, last);
        } else {
            assert(start + width <= resolution.0 * resolution.1) by (nonlinear_arith)
                requires
                    start == bounds.position.1 * resolution.0 + bounds.position.0,
                    bounds.position.0 + width <= resolution.0,
                    bounds.position.1 + 1 <= resolution.1,
                    0 <= bounds.position.1,
                    0 <= resolution.0,
            ;
            assert(0 <= bounds.position.1 * resolution.0) by (nonlinear_arith)
                requires
                    0 <= bounds.position.1,
                    0 <= resolution.0,
            ;
        }
        lemma_line_round_trip(before, start, width, line);
    } else {
        lemma_inserted_row_is_extracted(
            samples,
            resolution,
            bounds,
            bytes,
            offset,
            stride,
            last,
            row,
        );
        lemma_block_rows_apart(resolution, bounds, row, last);
        lemma_replaced_samples_apart(
            before,
            start,
            width,
            line,
            block_row_start(resolution, bounds, row),
            block_row_start(resolution, bounds, row) + width,
        );
    }
}

/// After a block was put into a part, the pixel bytes of the block are
/// those that were put there: what is extracted is what was inserted.
pub proof fn lemma_inserted_block_is_extracted(
    part: Part,
    after: Part,
    bounds: BlockBounds,
    bytes: Seq<u8>,
)
    requires
        part.validate_block_bytes(bounds, bytes.len()) is Ok,
        part.is_with_block(after, bounds, bytes, part.channels@.len()),
    ensures
        after.validate_block(bounds) is Ok,
        block_bytes(after.channels@, after.data_window.size, bounds, bounds.size.1 as nat)
            == bytes,
{
    let channels = part.channels@;
    let size = part.data_window.size;
    let total = pixel_bytes(channels, channels.len());
    let stride = bounds.size.0 as nat * total;
    assert forall|i: int| 0 <= i < channels.len() implies (#[trigger] after.channels@[i]).samples@.len()
        == size.0 * size.1 by {
        lemma_pixel_bytes_grow(channels, i as nat, channels.len());
        channels[i].samples@.lemma_with_block_rows_shape(
            size,
            bounds,
            bytes,
            bounds.size.0 as nat * pixel_bytes(channels, i as nat),
            stride,
            bounds.size.1 as nat,
        );
    }
    lemma_pixel_bytes_same(part, after, bounds, bytes, channels.len());
    assert((bounds.size.0 * bounds.size.1) * total == bounds.size.1 * stride) by (nonlinear_arith)
        requires
            stride == bounds.size.0 * total,
    ;
    lemma_extracted_rows(part, after, bounds, bytes, bounds.size.1 as nat);
    assert(bytes.subrange(0, (bounds.size.1 * stride) as int) =~= bytes);
}

/// A part with a block put into it takes as many bytes for a pixel as before.
pub proof fn lemma_pixel_bytes_same(
    part: Part,
    after: Part,
    bounds: BlockBounds,
    bytes: Seq<u8>,
    count: nat,
)
    requires
        part.validate_block_bytes(bounds, bytes.len()) is Ok,
        part.is_with_block(after, bounds, bytes, part.channels@.len()),
        count <= part.channels@.len(),
    ensures
        pixel_bytes(after.channels@, count) == pixel_bytes(part.channels@, count),
    decreases count,
{
    if count > 0 {
        let channel = (count - 1) as int;
        lemma_pixel_bytes_same(part, after, bounds, bytes, (count - 1) as nat);
        let channels = part.channels@;
        part.channels@[channel].samples@.lemma_with_block_rows_shape(
            part.data_window.size,
            bounds,
            bytes,
            bounds.size.0 as nat * pixel_bytes(channels, channel as nat),
            bounds.size.0 as nat * pixel_bytes(channels, channels.len()),
            bounds.size.1 as nat,
        );
        assert(after.channels@[channel].samples@.sample_type()
            == part.channels@[channel].samples@.sample_type());
    }
}

/// After a block was put into a part, the bytes of the first channels
/// in a row of the block are those that were put there.
pub proof fn lemma_extracted_row(
    part: Part,
    after: Part,
    bounds: BlockBounds,
    bytes: Seq<u8>,
    row: nat,
    count: nat,
)
    requires
        part.validate_block_bytes(bounds, bytes.len()) is Ok,
        part.is_with_block(after, bounds, bytes, part.channels@.len()),
        row < bounds.size.1,
        count <= part.channels@.len(),
    ensures
        block_row_bytes(after.channels@, after.data_window.size, bounds, row, count)
            == bytes.subrange(
            (row * (bounds.size.0 * pixel_bytes(part.channels@, part.channels@.len()))) as int,
            row * (bounds.size.0 * pixel_bytes(part.channels@, part.channels@.len()))
                + bounds.size.0 * pixel_bytes(part.channels@, count),
        ),
    decreases count,
{
    let channels = part.channels@;
    let size = part.data_window.size;
    let width = bounds.size.0 as nat;
    let total = pixel_bytes(channels, channels.len());
    let stride = width * total;
    let base = row * stride;
    assert(0 <= base) by (nonlinear_arith)
        requires
            base == row * stride,
            0 <= row,
            0 <= stride,
    ;
    assert(base + stride <= bounds.size.1 * stride) by (nonlinear_arith)
        requires
            base == row * stride,
            row < bounds.size.1,
            0 <= stride,
    ;
    assert((bounds.size.0 * bounds.size.1) * total == bounds.size.1 * stride) by (nonlinear_arith)
        requires
            stride == bounds.size.0 * total,
    ;
    if count == 0 {
        assert(width * 0 == 0);
        assert(bytes.subrange(base as int, (base + 0) as int) =~= Seq::<u8>::empty());
    } else {
        let channel = (count - 1) as nat;
        lemma_extracted_row(part, after, bounds, bytes, row, channel);
        lemma_pixel_bytes_grow(channels, count, channels.len());
        let samples = channels[channel as int].samples@;
        let each = samples.sample_type().spec_bytes_per_sample();
        let before = pixel_bytes(channels, channel);
        let offset = width * before;
        assert(width * (before + each) == width * before + width * each) by (nonlinear_arith);
        assert(width * (before + each) <= width * total) by (nonlinear_arith)
            requires
                before + each <= total,
                0 <= width,
        ;
        assert(0 <= width * before) by (nonlinear_arith)
            requires
                0 <= width,
                0 <= before,
        ;
        assert(0 <= width * each) by (nonlinear_arith)
            requires
                0 <= width,
                0 <= each,
        ;
        assert(block_fits(samples, size, bounds, bytes, offset, stride));
        lemma_inserted_row_is_extracted(
            samples,
            size,
            bounds,
            bytes,
            offset,
            stride,
            bounds.size.1 as nat,
            row,
        );
        let line = after.channels@[channel as int].line_bytes(
            block_line(0, bounds, row, channel),
            after.data_window.size,
        );
        assert(channels[channel as int].sampling == Vec2(1usize, 1usize));
        assert(after.channels@[channel as int].sampling == Vec2(1usize, 1usize));
        assert(size.0 as int / 1 == size.0 && size.1 as int / 1 == size.1);
        assert(spec_channel_resolution(size, Vec2(1usize, 1usize)).0 == size.0);
        assert(spec_channel_resolution(size, Vec2(1usize, 1usize)).1 == size.1);
        assert(spec_channel_resolution(size, Vec2(1usize, 1usize)) == size);
        assert(line == bytes.subrange(
            (offset + row * stride) as int,
            (offset + row * stride + width * each) as int,
        ));
        assert(bytes.subrange(base as int, (base + width * before) as int) + bytes.subrange(
            (base + width * before) as int,
            (base + width * before + width * each) as int,
        ) =~= bytes.subrange(base as int, (base + width * (before + each)) as int));
    }
}

/// After a block was put into a part, the bytes of the first rows of
/// the block are those that were put there.
pub proof fn lemma_extracted_rows(
    part: Part,
    after: Part,
    bounds: BlockBounds,
    bytes: Seq<u8>,
    rows: nat,
)
    requires
        part.validate_block_bytes(bounds, bytes.len()) is Ok,
        part.is_with_block(after, bounds, bytes, part.channels@.len()),
        rows <= bounds.size.1,
    ensures
        block_bytes(after.channels@, after.data_window.size, bounds, rows) == bytes.subrange(
            0,
            (rows * (bounds.size.0 * pixel_bytes(part.channels@, part.channels@.len()))) as int,
        ),
    decreases rows,
{
    let channels = part.channels@;
    let total = pixel_bytes(channels, channels.len());
    let stride = bounds.size.0 as nat * total;
    assert((bounds.size.0 * bounds.size.1) * total == bounds.size.1 * stride) by (nonlinear_arith)
        requires
            stride == bounds.size.0 * total,
    ;
    if rows == 0 {
        assert(0 * stride == 0);
        assert(bytes.subrange(0, 0) =~= Seq::<u8>::empty());
    } else {
        let row = (rows - 1) as nat;
        lemma_extracted_rows(part, after, bounds, bytes, row);
        lemma_extracted_row(part, after, bounds, bytes, row, channels.len());
        assert(rows * stride == row * stride + stride) by (nonlinear_arith)
            requires
                rows == row + 1,
        ;
        assert(0 <= row * stride) by (nonlinear_arith)
            requires
                0 <= row,
                0 <= stride,
        ;
        assert(rows * stride <= bounds.size.1 * stride) by (nonlinear_arith)
            requires
                rows <= bounds.size.1,
                0 <= stride,
        ;
        assert(bytes.subrange(0, (row * stride) as int) + bytes.subrange(
            (row * stride) as int,
            (row * stride + stride) as int,
        ) =~= bytes.subrange(0, (rows * stride) as int));
    }
}

/// The most bytes that a name has in a file without long names.
pub const SHORT_NAME_LIMIT: usize = 31;

/// Whether one of the first `count` channels of a list has a name that
/// is too long for a file without long names.
pub open spec fn any_long_listed_name(list: Seq<ChannelView>, count: nat) -> bool
    decreases count,
{
    count > 0 && (any_long_listed_name(list, (count - 1) as nat) || list[count - 1].name.len()
        > SHORT_NAME_LIMIT)
}

/// Whether the name of an attribute, or the name of a channel that it
/// lists, is too long for a file without long names.
pub open spec fn is_long_named(attribute: AttributeView) -> bool {
    attribute.name.len() > SHORT_NAME_LIMIT || match attribute.value {
        AttributeValueView::ChannelList(list) => any_long_listed_name(list, list.len()),
        _ => false,
    }
}

/// Whether one of the first `count` attributes has a name that is too
/// long for a file without long names.
pub open spec fn any_long_named(attributes: Seq<AttributeView>, count: nat) -> bool
    decreases count,
{
    count > 0 && (any_long_named(attributes, (count - 1) as nat) || is_long_named(
        attributes[count - 1],
    ))
}

/// Whether one of the first `count` channels of a part has a name that
/// is too long for a file without long names.
pub open spec fn any_long_channel_name(channels: Seq<Channel>, count: nat) -> bool
    decreases count,
{
    count > 0 && (any_long_channel_name(channels, (count - 1) as nat) || channels[count
        - 1].name@.len() > SHORT_NAME_LIMIT)
}

/// Whether one of the first `count` parts has a name that is too long
/// for a file without long names.
pub open spec fn any_long_names(parts: Seq<Part>, count: nat) -> bool
    decreases count,
{
    count > 0 && (any_long_names(parts, (count - 1) as nat) || parts[count
        - 1].needs_long_names())
}

/// Says whether a channel of the list has a name that is too long for
/// a file without long names.
fn has_long_listed_name(list: &ChannelList) -> (r: bool)
    ensures
        r == any_long_listed_name(list@, list@.len()),
{
    let channels = list.as_slice();
    let mut index: usize = 0;
    while index < channels.len()
        invariant
            index <= channels@.len(),
            channel_views(channels@) == list@,
            !any_long_listed_name(list@, index as nat),
        decreases channels@.len() - index,
    {
        assert(list@[index as int] == channels@[index as int]@);
        if channels[index].name.len() > SHORT_NAME_LIMIT {
            proof {
                lemma_long_listed_name_stays(list@, (index + 1) as nat, list@.len());
            }
            return true;
        }
        index = index + 1;
    }
    false
}

/// A name that is too long among the first channels is one among more of them.
pub proof fn lemma_long_listed_name_stays(list: Seq<ChannelView>, fewer: nat, more: nat)
    requires
        fewer <= more,
        any_long_listed_name(list, fewer),
    ensures
        any_long_listed_name(list, more),
    decreases more,
{
    if fewer < more {
        lemma_long_listed_name_stays(list, fewer, (more - 1) as nat);
    }
}

/// A name that is too long among the first attributes is one among more of them.
pub proof fn lemma_long_named_stays(attributes: Seq<AttributeView>, fewer: nat, more: nat)
    requires
        fewer <= more,
        any_long_named(attributes, fewer),
    ensures
        any_long_named(attributes, more),
    decreases more,
{
    if fewer < more {
        lemma_long_named_stays(attributes, fewer, (more - 1) as nat);
    }
}

/// A name that is too long among the first channels is one among more of them.
pub proof fn lemma_long_channel_name_stays(channels: Seq<Channel>, fewer: nat, more: nat)
    requires
        fewer <= more,
        any_long_channel_name(channels, fewer),
    ensures
        any_long_channel_name(channels, more),
    decreases more,
{
    if fewer < more {
        lemma_long_channel_name_stays(channels, fewer, (more - 1) as nat);
    }
}

/// A name that is too long among the first parts is one among more of them.
pub proof fn lemma_long_names_stay(parts: Seq<Part>, fewer: nat, more: nat)
    requires
        fewer <= more,
        any_long_names(parts, fewer),
    ensures
        any_long_names(parts, more),
    decreases more,
{
    if fewer < more {
        lemma_long_names_stay(parts, fewer, (more - 1) as nat);
    }
}

/// Says whether an attribute has a name that is too long for a file
/// without long names, or lists a channel with such a name.
fn has_long_name(attribute: &Attribute) -> (r: bool)
    ensures
        r == is_long_named(attribute@),
{
    if attribute.name.len() > SHORT_NAME_LIMIT {
        return true;
    }
    match &attribute.value {
        AttributeValue::ChannelList(list) => has_long_listed_name(list),
        _ => false,
    }
}

impl Part {
    /// Whether a file of the part needs long names: the name of the
    /// part, of a channel or of an attribute has more than 31 bytes.
    pub open spec fn needs_long_names(self) -> bool {
        ||| match self.name {
            Some(name) => name@.len() > SHORT_NAME_LIMIT,
            None => false,
        }
        ||| any_long_channel_name(self.channels@, self.channels@.len())
        ||| any_long_named(attribute_views(self.attributes@), self.attributes@.len())
    }

    /// Says whether a file of the part needs long names.
    pub fn has_long_names(&self) -> (r: bool)
        ensures
            r == self.needs_long_names(),
    {
        let named_long = match &self.name {
            Some(name) => name.len() > SHORT_NAME_LIMIT,
            None => false,
        };
        if named_long {
            return true;
        }
        let channels = self.channels.as_slice();
        let mut index: usize = 0;
        while index < channels.len()
            invariant
                index <= channels@.len(),
                channels@ == self.channels@,
                !any_long_channel_name(channels@, index as nat),
            decreases channels@.len() - index,
        {
            if channels[index].name.len() > SHORT_NAME_LIMIT {
                proof {
                    lemma_long_channel_name_stays(
                        channels@,
                        (index + 1) as nat,
                        channels@.len(),
                    );
                }
                return true;
            }
            index = index + 1;
        }
        let ghost views = attribute_views(self.attributes@);
        let mut index: usize = 0;
        while index < self.attributes.len()
            invariant
                index <= self.attributes@.len(),
                views == attribute_views(self.attributes@),
                !any_long_channel_name(self.channels@, self.channels@.len()),
                !named_long,
                named_long == match self.name {
                    Some(name) => name@.len() > SHORT_NAME_LIMIT,
                    None => false,
                },
                !any_long_named(views, index as nat),
            decreases self.attributes@.len() - index,
        {
            assert(views[index as int] == self.attributes@[index as int]@);
            if has_long_name(&self.attributes[index]) {
                proof {
                    lemma_long_named_stays(views, (index + 1) as nat, views.len());
                }
                return true;
            }
            index = index + 1;
        }
        false
    }
}

/// Where none of the first channels has a name that is too long, each
/// of their names has 31 bytes at most.
pub proof fn lemma_channel_names_are_short(channels: Seq<Channel>, count: nat, index: int)
    requires
        !any_long_channel_name(channels, count),
        0 <= index < count,
    ensures
        channels[index].name@.len() <= SHORT_NAME_LIMIT,
    decreases count,
{
    if index < count - 1 {
        lemma_channel_names_are_short(channels, (count - 1) as nat, index);
    }
}

/// Where none of the first attributes has a name that is too long, each
/// of their names has 31 bytes at most, and they list no channel with a
/// name that is too long.
pub proof fn lemma_attribute_names_are_short(attributes: Seq<AttributeView>, count: nat, index: int)
    requires
        !any_long_named(attributes, count),
        0 <= index < count,
    ensures
        !is_long_named(attributes[index]),
        attributes[index].name.len() <= SHORT_NAME_LIMIT,
    decreases count,
{
    if index < count - 1 {
        lemma_attribute_names_are_short(attributes, (count - 1) as nat, index);
    }
}

/// Where a file of an image needs no long names, no part of the image
/// needs them: the names of the part, of its channels and of its
/// attributes are valid in a file without long names where they are valid
/// in a file with them.
pub proof fn lemma_parts_need_no_long_names(parts: Seq<Part>, count: nat, index: int)
    requires
        !any_long_names(parts, count),
        0 <= index < count,
    ensures
        !parts[index].needs_long_names(),
    decreases count,
{
    if index < count - 1 {
        lemma_parts_need_no_long_names(parts, (count - 1) as nat, index);
    }
}

/// A text of 31 bytes at most is valid in a file without long names
/// where it is valid in a file with them, and for the same reason not
/// valid where it is not.
pub proof fn lemma_short_text_fits(text: Seq<u8>)
    requires
        text.len() <= SHORT_NAME_LIMIT,
    ensures
        crate::file::attributes::validate_text(text, Some(false))
            == crate::file::attributes::validate_text(text, Some(true)),
{
}

} // verus!
