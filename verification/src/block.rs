//! Samples, and the lines of samples that blocks of pixels are made of.

use vstd::prelude::*;
use crate::error::{Error, Value, Required};
use crate::math::Vec2;
use crate::io::{ByteReader, u16_seq_from_le, u32_seq_from_le};
use crate::file::attributes::PixelType;

verus! {

/// The type of the samples of a channel.
pub type SampleType = PixelType;

/// One sample of one pixel in one channel. A floating-point sample is
/// held as its bit pattern.
#[derive(Debug, Clone, Copy, PartialEq, Eq)]
pub enum Sample {
    /// A 16-bit floating-point number.
    F16(u16),
    /// A 32-bit floating-point number.
    F32(u32),
    /// An unsigned 32-bit number.
    U32(u32),
}

impl Sample {
    /// The alpha value of a pixel that has none: fully opaque, the
    /// 32-bit floating-point number one.
    pub fn default_alpha() -> (r: Sample)
        ensures
            r == Sample::F32(0x3F80_0000u32),
    {
        Sample::F32(0x3F80_0000)
    }

    /// The type of this sample.
    pub fn sample_type(self) -> (r: SampleType)
        ensures
            r == match self {
                Sample::F16(_) => PixelType::F16,
                Sample::F32(_) => PixelType::F32,
                Sample::U32(_) => PixelType::U32,
            },
    {
        match self {
            Sample::F16(_) => PixelType::F16,
            Sample::F32(_) => PixelType::F32,
            Sample::U32(_) => PixelType::U32,
        }
    }
}

/// Which line of samples is meant: one row of one channel of one layer
/// at one resolution level, or a part of such a row.
#[derive(Debug, Clone, Copy, PartialEq, Eq)]
pub struct LineIndex {
    /// The index of the layer in the file.
    pub part: usize,
    /// The index of the channel in the list of channels of the layer.
    pub channel: usize,
    /// The resolution level.
    pub level: Vec2<usize>,
    /// The position of the first sample of the line in the level.
    pub position: Vec2<usize>,
    /// How many samples the line has.
    pub width: usize,
}

/// A line of samples as it stands in the pixel bytes of a block.
#[derive(Debug, Clone, Copy, PartialEq, Eq)]
pub struct Line<'s> {
    /// Which line this is.
    pub location: LineIndex,
    /// The type of the samples.
    pub sample_type: SampleType,
    /// The samples, each little-endian, one after another.
    pub value: &'s [u8],
}

/// The error for a line that does not have the bytes of as many samples as it is wide.
pub open spec fn line_size_error() -> Error {
    Error::InvalidContent {
        what: Value::Attribute("line"),
        required: Required::Exact("as many samples as the line is wide"),
    }
}

impl<'s> Line<'s> {
    /// What is wrong with taking the samples of the line as samples of the given type,
    /// if anything: the type is another, or the line does not have the bytes of as many
    /// samples as it is wide.
    pub open spec fn validate_samples(self, sample_type: SampleType) -> Result<(), Error> {
        if self.sample_type != sample_type {
            Err(Error::TypeMismatch)
        } else if self.value@.len() != self.location.width * sample_type.spec_bytes_per_sample() {
            Err(line_size_error())
        } else {
            Ok(())
        }
    }

    /// Says what is wrong with taking the samples of the line as samples of the
    /// given type, if anything.
    pub fn check_samples(&self, sample_type: SampleType) -> (r: Result<(), Error>)
        ensures
            r == self.validate_samples(sample_type),
    {
        if !same_type(self.sample_type, sample_type) {
            return Err(Error::TypeMismatch);
        }
        let expected = self.location.width.checked_mul(sample_type.bytes_per_sample());
        if expected != Some(self.value.len()) {
            return Err(
                Error::InvalidContent {
                    what: Value::Attribute("line"),
                    required: Required::Exact("as many samples as the line is wide"),
                },
            );
        }
        Ok(())
    }

    /// The samples of a line of 16-bit floating-point numbers, as their bit patterns.
    pub fn f16_samples(&self) -> (r: Result<Vec<u16>, Error>)
        ensures
            match self.validate_samples(PixelType::F16) {
                Ok(_) => r is Ok && r->Ok_0@ == u16_seq_from_le(
                    self.value@,
                    self.location.width as nat,
                ),
                Err(e) => r == Err::<Vec<u16>, Error>(e),
            },
    {
        self.check_samples(PixelType::F16)?;
        let mut read = ByteReader::new(self.value);
        let mut samples: Vec<u16> = Vec::new();
        let mut index: usize = 0;
        while index < self.location.width
            invariant
                index <= self.location.width,
                self.value@.len() == 2 * self.location.width,
                read.remaining() == self.value@.skip(2 * index),
                samples@ == u16_seq_from_le(self.value@, index as nat),
            decreases self.location.width - index,
        {
            match read.read_u16() {
                Ok(sample) => samples.push(sample),
                Err(e) => return Err(e),
            }
            index = index + 1;
            proof {
                assert(read.remaining() =~= self.value@.skip(2 * index));
                assert(samples@ =~= u16_seq_from_le(self.value@, index as nat));
            }
        }
        Ok(samples)
    }

    /// The samples of a line of 32-bit floating-point numbers, as their bit patterns.
    pub fn f32_samples(&self) -> (r: Result<Vec<u32>, Error>)
        ensures
            match self.validate_samples(PixelType::F32) {
                Ok(_) => r is Ok && r->Ok_0@ == u32_seq_from_le(
                    self.value@,
                    self.location.width as nat,
                ),
                Err(e) => r == Err::<Vec<u32>, Error>(e),
            },
    {
        self.check_samples(PixelType::F32)?;
        let mut read = ByteReader::new(self.value);
        match read.read_u32_vec(self.location.width) {
            Ok(samples) => Ok(samples),
            Err(e) => Err(e),
        }
    }

    /// The samples of a line of unsigned 32-bit numbers.
    pub fn u32_samples(&self) -> (r: Result<Vec<u32>, Error>)
        ensures
            match self.validate_samples(PixelType::U32) {
                Ok(_) => r is Ok && r->Ok_0@ == u32_seq_from_le(
                    self.value@,
                    self.location.width as nat,
                ),
                Err(e) => r == Err::<Vec<u32>, Error>(e),
            },
    {
        self.check_samples(PixelType::U32)?;
        let mut read = ByteReader::new(self.value);
        match read.read_u32_vec(self.location.width) {
            Ok(samples) => Ok(samples),
            Err(e) => Err(e),
        }
    }
}

/// Whether two sample types are the same.
pub fn same_type(left: SampleType, right: SampleType) -> (r: bool)
    ensures
        r == (left == right),
{
    match (left, right) {
        (PixelType::U32, PixelType::U32) => true,
        (PixelType::F16, PixelType::F16) => true,
        (PixelType::F32, PixelType::F32) => true,
        _ => false,
    }
}

/// Whether the bit pattern of a 16-bit floating-point number is that of
/// no number: all bits of the exponent are set, and a bit of the fraction.
pub open spec fn spec_f16_is_nan(bits: u16) -> bool {
    bits % 0x8000 > 0x7C00
}

/// Whether the bit pattern of a 32-bit floating-point number is that of
/// no number: all bits of the exponent are set, and a bit of the fraction.
pub open spec fn spec_f32_is_nan(bits: u32) -> bool {
    bits % 0x8000_0000 > 0x7F80_0000
}

/// Whether the bit pattern of a 16-bit floating-point number is that of no number.
pub fn f16_is_nan(bits: u16) -> (r: bool)
    ensures
        r == spec_f16_is_nan(bits),
{
    bits % 0x8000 > 0x7C00
}

/// Whether the bit pattern of a 32-bit floating-point number is that of no number.
pub fn f32_is_nan(bits: u32) -> (r: bool)
    ensures
        r == spec_f32_is_nan(bits),
{
    bits % 0x8000_0000 > 0x7F80_0000
}

} // verus!
