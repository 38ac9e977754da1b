//! How the pixel bytes of a block are compressed, and the framing around a codec.

use vstd::prelude::*;
use crate::error::Error;

verus! {

/// The way in which the pixel bytes of each block of a layer are compressed.
#[derive(Debug, Clone, Copy, PartialEq, Eq)]
pub enum Compression {
    /// The bytes are stored as they are.
    Uncompressed,
    /// Run-length encoding, one scan line per block.
    RLE,
    /// Deflate, one scan line per block.
    ZIP1,
    /// Deflate, sixteen scan lines per block.
    ZIP16,
    /// Wavelets and Huffman coding, 32 scan lines per block.
    PIZ,
    /// Lossy for 32-bit floating-point samples, sixteen scan lines per block.
    PXR24,
    /// Lossy with a fixed rate, 32 scan lines per block.
    B44,
    /// As `B44`, with flat areas compressed further.
    B44A,
}

impl Compression {
    /// The number that stands for the method in a file.
    pub open spec fn code(self) -> u8 {
        match self {
            Compression::Uncompressed => 0,
            Compression::RLE => 1,
            Compression::ZIP1 => 2,
            Compression::ZIP16 => 3,
            Compression::PIZ => 4,
            Compression::PXR24 => 5,
            Compression::B44 => 6,
            Compression::B44A => 7,
        }
    }

    /// The method that a number stands for, if any.
    pub open spec fn from_code(code: u8) -> Option<Compression> {
        if code == 0 {
            Some(Compression::Uncompressed)
        } else if code == 1 {
            Some(Compression::RLE)
        } else if code == 2 {
            Some(Compression::ZIP1)
        } else if code == 3 {
            Some(Compression::ZIP16)
        } else if code == 4 {
            Some(Compression::PIZ)
        } else if code == 5 {
            Some(Compression::PXR24)
        } else if code == 6 {
            Some(Compression::B44)
        } else if code == 7 {
            Some(Compression::B44A)
        } else {
            None
        }
    }

    /// How many scan lines a block of a layer without tiles holds.
    pub open spec fn spec_scan_lines_per_block(self) -> nat {
        match self {
            Compression::Uncompressed | Compression::RLE | Compression::ZIP1 => 1,
            Compression::ZIP16 | Compression::PXR24 => 16,
            Compression::PIZ | Compression::B44 | Compression::B44A => 32,
        }
    }

    /// How many scan lines a block of a layer without tiles holds.
    pub fn scan_lines_per_block(self) -> (r: usize)
        ensures
            r == self.spec_scan_lines_per_block(),
            r > 0,
    {
        match self {
            Compression::Uncompressed | Compression::RLE | Compression::ZIP1 => 1,
            Compression::ZIP16 | Compression::PXR24 => 16,
            Compression::PIZ | Compression::B44 | Compression::B44A => 32,
        }
    }

    /// Whether decompressing gives back exactly the bytes that were compressed.
    pub fn is_lossless(self) -> (r: bool)
        ensures
            r == !(self is PXR24 || self is B44 || self is B44A),
    {
        match self {
            Compression::PXR24 | Compression::B44 | Compression::B44A => false,
            _ => true,
        }
    }
}

/// What is stored for a block: the output of the codec where that is
/// shorter than the pixel bytes, else the pixel bytes as they are.
pub open spec fn stored_bytes(uncompressed: Seq<u8>, compressed: Seq<u8>) -> Seq<u8> {
    if compressed.len() < uncompressed.len() {
        compressed
    } else {
        uncompressed
    }
}

/// Chooses what to store for a block, given the pixel bytes and what the
/// codec made of them.
pub fn choose_stored_bytes(uncompressed: Vec<u8>, compressed: Vec<u8>) -> (r: Vec<u8>)
    ensures
        r@ == stored_bytes(uncompressed@, compressed@),
{
    if compressed.len() < uncompressed.len() {
        compressed
    } else {
        uncompressed
    }
}

/// Whether the bytes stored for a block are the pixel bytes as they are:
/// so it is where they are as many as the pixel bytes of the block.
pub fn is_stored_uncompressed(stored: &[u8], expected_byte_size: usize) -> (r: bool)
    ensures
        r == (stored@.len() == expected_byte_size),
{
    stored.len() == expected_byte_size
}

/// Takes what a codec made of the stored bytes of a block, if it is as
/// many bytes as the block has pixel bytes.
pub fn accept_decompressed(decompressed: Vec<u8>, expected_byte_size: usize) -> (r: Result<
    Vec<u8>,
    Error,
>)
    ensures
        r == if decompressed@.len() == expected_byte_size {
            Ok::<Vec<u8>, Error>(decompressed)
        } else {
            Err::<Vec<u8>, Error>(Error::InvalidCompressedData)
        },
{
    if decompressed.len() == expected_byte_size {
        Ok(decompressed)
    } else {
        Err(Error::InvalidCompressedData)
    }
}

/// The stored bytes of a block of a layer that is not compressed.
pub fn compress_uncompressed(uncompressed: Vec<u8>) -> (r: Vec<u8>)
    ensures
        r@ == uncompressed@,
{
    uncompressed
}

/// The pixel bytes of a block of a layer that is not compressed.
pub fn decompress_uncompressed(stored: Vec<u8>, expected_byte_size: usize) -> (r: Result<
    Vec<u8>,
    Error,
>)
    ensures
        r == if stored@.len() == expected_byte_size {
            Ok::<Vec<u8>, Error>(stored)
        } else {
            Err::<Vec<u8>, Error>(Error::InvalidCompressedData)
        },
{
    accept_decompressed(stored, expected_byte_size)
}

/// What a reader makes of the stored bytes of a block with the given
/// number of pixel bytes: the stored bytes themselves where they are as
/// many, else what the codec made of them, if that is as many.
pub open spec fn framed_pixels(stored: Seq<u8>, decompressed: Seq<u8>, expected_byte_size: nat)
    -> Result<Seq<u8>, Error> {
    if stored.len() == expected_byte_size {
        Ok(stored)
    } else if decompressed.len() == expected_byte_size {
        Ok(decompressed)
    } else {
        Err(Error::InvalidCompressedData)
    }
}

/// The pixel bytes of a block, from its stored bytes and from what the
/// codec made of them. Where the stored bytes are as many as the block
/// has pixel bytes, they are the pixel bytes, and the codec is not asked.
pub fn take_framed_pixels(stored: Vec<u8>, decompressed: Vec<u8>, expected_byte_size: usize) -> (r:
    Result<Vec<u8>, Error>)
    ensures
        match framed_pixels(stored@, decompressed@, expected_byte_size as nat) {
            Ok(pixels) => r is Ok && r->Ok_0@ == pixels,
            Err(e) => r == Err::<Vec<u8>, Error>(e),
        },
{
    if is_stored_uncompressed(stored.as_slice(), expected_byte_size) {
        Ok(stored)
    } else {
        accept_decompressed(decompressed, expected_byte_size)
    }
}

/// Reading what was stored for a block gives the pixel bytes back,
/// whatever the codec: where the codec made the bytes shorter, its output
/// is stored, and decompressing that must give the pixel bytes back; where
/// it did not, the pixel bytes are stored, and are read as they are.
pub proof fn lemma_framing_round_trip(pixels: Seq<u8>, compressed: Seq<u8>, decompressed: Seq<u8>)
    requires
        compressed.len() < pixels.len() ==> decompressed == pixels,
    ensures
        framed_pixels(stored_bytes(pixels, compressed), decompressed, pixels.len()) == Ok::<
            Seq<u8>,
            Error,
        >(pixels),
{
}

/// Without compression, reading what was stored for a block gives the
/// pixel bytes back.
pub proof fn lemma_uncompressed_round_trip(pixels: Seq<u8>, decompressed: Seq<u8>)
    ensures
        framed_pixels(stored_bytes(pixels, pixels), decompressed, pixels.len()) == Ok::<
            Seq<u8>,
            Error,
        >(pixels),
{
}

} // verus!
