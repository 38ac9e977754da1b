//! The blocks of pixel bytes of a file, and the tables that say where each stands.
//!
//! After the headers a file holds one table for each layer, with one
//! offset for each block of the layer: the position in the file at which
//! the block starts. The blocks follow. Each is a part number, in a file of
//! several layers, then the coordinates of the block, then the size of its
//! bytes and the bytes.

use vstd::prelude::*;
use crate::error::{Error, Value, Required};
use crate::math::Vec2;
use crate::io::{
    ByteReader, Parsed, i32_le, i32_from_le, u32_le, u64_le, write_i32, write_u32, write_u64,
    write_u8_array, read_i32_spec, read_u32_spec, read_u64_spec, read_u8_vec_spec,
};
use crate::file::attributes::{ChannelView, LevelMode, TileDescription, channel_views};
use crate::meta::{
    BlockDescription, Header, HeaderView, spec_block_count, spec_block_size, calculate_block_size,
    compute_block_count, compute_level_count, compute_level_size, is_level, mip_map_levels,
    rip_level_index, rip_map_levels, spec_level_count, spec_level_size, spec_max, tile_size_error,
};
use crate::meta::header::header_views;

verus! {

/// The offsets of the blocks of one layer.
pub type OffsetTable = Vec<u64>;

/// The offsets of the blocks of each layer.
pub type OffsetTables = Vec<OffsetTable>;

/// The bytes of a table of offsets.
pub open spec fn offset_table_bytes(table: Seq<u64>) -> Seq<u8>
    decreases table.len(),
{
    if table.len() == 0 {
        Seq::empty()
    } else {
        offset_table_bytes(table.drop_last()) + u64_le(table.last())
    }
}

/// Reading a table of `count` offsets.
pub open spec fn read_offset_table_spec(s: Seq<u8>, count: nat) -> Parsed<Seq<u64>>
    decreases count,
{
    if count == 0 {
        Ok((Seq::empty(), s))
    } else {
        match read_offset_table_spec(s, (count - 1) as nat) {
            Err(e) => Err(e),
            Ok((table, rest)) => match read_u64_spec(rest) {
                Err(e) => Err(e),
                Ok((offset, rest)) => Ok((table.push(offset), rest)),
            },
        }
    }
}

/// Reading the tables of offsets of a file: for each header, as many
/// offsets as the layer has blocks.
pub open spec fn read_offset_tables_spec(s: Seq<u8>, headers: Seq<HeaderView>) -> Parsed<
    Seq<Seq<u64>>,
>
    decreases headers.len(),
{
    if headers.len() == 0 {
        Ok((Seq::empty(), s))
    } else {
        match read_offset_tables_spec(s, headers.drop_last()) {
            Err(e) => Err(e),
            Ok((tables, rest)) => match read_offset_table_spec(
                rest,
                headers.last().chunk_count as nat,
            ) {
                Err(e) => Err(e),
                Ok((table, rest)) => Ok((tables.push(table), rest)),
            },
        }
    }
}

/// The tables that were read hold as many offsets as their layers have blocks.
pub proof fn lemma_offset_tables_match_chunk_counts(s: Seq<u8>, headers: Seq<HeaderView>)
    ensures
        read_offset_tables_spec(s, headers) matches Ok((tables, _)) ==> tables.len()
            == headers.len() && forall|i: int|
            0 <= i < headers.len() ==> (#[trigger] tables[i]).len() == headers[i].chunk_count,
    decreases headers.len(),
{
    if headers.len() > 0 {
        lemma_offset_tables_match_chunk_counts(s, headers.drop_last());
        match read_offset_tables_spec(s, headers.drop_last()) {
            Ok((tables, rest)) => {
                lemma_offset_table_len(rest, headers.last().chunk_count as nat);
            },
            Err(_) => {},
        }
    }
}

/// A table that was read holds as many offsets as were asked for.
pub proof fn lemma_offset_table_len(s: Seq<u8>, count: nat)
    ensures
        read_offset_table_spec(s, count) matches Ok((table, _)) ==> table.len() == count,
    decreases count,
{
    if count > 0 {
        lemma_offset_table_len(s, (count - 1) as nat);
    }
}

/// The views of the tables of a vector.
pub open spec fn table_views(tables: Seq<Vec<u64>>) -> Seq<Seq<u64>> {
    Seq::new(tables.len(), |i: int| tables[i]@)
}

/// Appends a table of offsets.
pub fn write_offset_table(write: &mut Vec<u8>, table: &[u64])
    ensures
        final(write)@ == old(write)@ + offset_table_bytes(table@),
{
    let mut index: usize = 0;
    proof {
        assert(table@.take(0) =~= Seq::<u64>::empty());
        assert(write@ =~= old(write)@ + offset_table_bytes(table@.take(0)));
    }
    while index < table.len()
        invariant
            index <= table@.len(),
            write@ == old(write)@ + offset_table_bytes(table@.take(index as int)),
        decreases table@.len() - index,
    {
        write_u64(write, table[index]);
        index = index + 1;
        proof {
            assert(table@.take(index as int).drop_last() =~= table@.take(index - 1));
            assert(write@ =~= old(write)@ + offset_table_bytes(table@.take(index as int)));
        }
    }
    proof {
        assert(table@.take(index as int) =~= table@);
    }
}

/// Reads a table of `count` offsets.
pub fn read_offset_table(read: &mut ByteReader, count: usize) -> (r: Result<Vec<u64>, Error>)
    ensures
        final(read).source() == old(read).source(),
        match read_offset_table_spec(old(read).remaining(), count as nat) {
            Ok((table, rest)) => r is Ok && r->Ok_0@ == table && table.len() == count && final(read).remaining() == rest,
            Err(e) => r == Err::<Vec<u64>, Error>(e),
        },
{
    let ghost start = old(read).remaining();
    let mut table: Vec<u64> = Vec::new();
    let mut index: usize = 0;
    while index < count
        invariant
            index <= count,
            start == old(read).remaining(),
            read.source() == old(read).source(),
            table@.len() == index,
            read_offset_table_spec(start, index as nat) == Ok::<(Seq<u64>, Seq<u8>), Error>(
                (table@, read.remaining()),
            ),
        decreases count - index,
    {
        proof {
            lemma_offset_table_prefix(start, (index + 1) as nat, count as nat);
        }
        let offset = read.read_u64()?;
        table.push(offset);
        index = index + 1;
    }
    Ok(table)
}

/// Where fewer offsets cannot be read, more cannot be read either, and
/// the error is the same.
pub proof fn lemma_offset_table_prefix(s: Seq<u8>, fewer: nat, more: nat)
    requires
        fewer <= more,
    ensures
        read_offset_table_spec(s, fewer) matches Err(e) ==> read_offset_table_spec(s, more)
            == Err::<(Seq<u64>, Seq<u8>), Error>(e),
    decreases more,
{
    if fewer < more {
        lemma_offset_table_prefix(s, fewer, (more - 1) as nat);
    }
}

/// Where the tables of the first headers cannot be read, those of all
/// headers cannot be read either, and the error is the same.
pub proof fn lemma_offset_tables_prefix(s: Seq<u8>, headers: Seq<HeaderView>, count: int)
    requires
        0 <= count <= headers.len(),
    ensures
        read_offset_tables_spec(s, headers.take(count)) matches Err(e)
            ==> read_offset_tables_spec(s, headers) == Err::<(Seq<Seq<u64>>, Seq<u8>), Error>(e),
    decreases headers.len() - count,
{
    if count < headers.len() {
        lemma_offset_tables_prefix(s, headers, count + 1);
        assert(headers.take(count + 1).drop_last() =~= headers.take(count));
    } else {
        assert(headers.take(count) =~= headers);
    }
}

/// Reads the tables of offsets of a file: for each header, as many
/// offsets as the layer has blocks.
pub fn read_offset_tables(read: &mut ByteReader, headers: &[Header]) -> (r: Result<
    OffsetTables,
    Error,
>)
    ensures
        final(read).source() == old(read).source(),
        match read_offset_tables_spec(old(read).remaining(), header_views(headers@)) {
            Ok((tables, rest)) => r is Ok && table_views(r->Ok_0@) == tables && final(read).remaining() == rest && r->Ok_0@.len() == headers@.len() && forall|i: int|
                0 <= i < headers@.len() ==> (#[trigger] r->Ok_0@[i])@.len()
                    == headers@[i].chunk_count,
            Err(e) => r == Err::<OffsetTables, Error>(e),
        },
{
    let ghost start = old(read).remaining();
    let ghost views = header_views(headers@);
    let mut tables: Vec<Vec<u64>> = Vec::new();
    let mut index: usize = 0;
    proof {
        assert(views.take(0) =~= Seq::<HeaderView>::empty());
        assert(table_views(tables@) =~= Seq::<Seq<u64>>::empty());
    }
    while index < headers.len()
        invariant
            index <= headers@.len(),
            start == old(read).remaining(),
            views == header_views(headers@),
            read.source() == old(read).source(),
            tables@.len() == index,
            forall|i: int| 0 <= i < index ==> (#[trigger] tables@[i])@.len() == headers@[i].chunk_count,
            read_offset_tables_spec(start, views.take(index as int)) == Ok::<
                (Seq<Seq<u64>>, Seq<u8>),
                Error,
            >((table_views(tables@), read.remaining())),
        decreases headers@.len() - index,
    {
        let ghost before = table_views(tables@);
        proof {
            assert(views.take(index + 1).drop_last() =~= views.take(index as int));
            assert(views.take(index + 1).last() == headers@[index as int]@);
            lemma_offset_tables_prefix(start, views, index + 1);
        }
        let table = read_offset_table(read, headers[index].chunk_count)?;
        tables.push(table);
        index = index + 1;
        proof {
            assert(table_views(tables@) =~= before.push(table@));
        }
    }
    proof {
        assert(views.take(index as int) =~= views);
    }
    Ok(tables)
}

/// Where a tile of a layer stands: the index of the tile along x and
/// along y, and the resolution level that it belongs to.
#[derive(Debug, Clone, Copy, PartialEq, Eq)]
pub struct TileCoordinates {
    /// The index of the tile along x and along y.
    pub tile_index: Vec2<i32>,
    /// The resolution level of the tile.
    pub level_index: Vec2<i32>,
}

/// A block of pixel bytes as it stands in a file.
#[derive(Debug, Clone, PartialEq, Eq)]
pub enum Block {
    /// A block of whole scan lines.
    ScanLine {
        /// The y coordinate of the first scan line of the block.
        y_coordinate: i32,
        /// The stored bytes of the block.
        compressed_pixels: Vec<u8>,
    },
    /// A tile.
    Tile {
        /// Where the tile stands.
        coordinates: TileCoordinates,
        /// The stored bytes of the tile.
        compressed_pixels: Vec<u8>,
    },
}

/// A block of pixel bytes with the index of the layer that it belongs to.
#[derive(Debug, Clone, PartialEq, Eq)]
pub struct Chunk {
    /// The index of the layer. It stands in the file only where the file
    /// may hold several layers.
    pub part_number: u32,
    /// The block.
    pub block: Block,
}

/// What a block holds.
pub enum BlockView {
    ScanLine { y_coordinate: i32, compressed_pixels: Seq<u8> },
    Tile { coordinates: TileCoordinates, compressed_pixels: Seq<u8> },
}

/// What a chunk holds.
pub struct ChunkView {
    pub part_number: u32,
    pub block: BlockView,
}

impl View for Block {
    type V = BlockView;

    open spec fn view(&self) -> BlockView {
        match self {
            Block::ScanLine { y_coordinate, compressed_pixels } => BlockView::ScanLine {
                y_coordinate: *y_coordinate,
                compressed_pixels: compressed_pixels@,
            },
            Block::Tile { coordinates, compressed_pixels } => BlockView::Tile {
                coordinates: *coordinates,
                compressed_pixels: compressed_pixels@,
            },
        }
    }
}

impl View for Chunk {
    type V = ChunkView;

    open spec fn view(&self) -> ChunkView {
        ChunkView { part_number: self.part_number, block: self.block@ }
    }
}

/// Bytes with their size in front, as a signed 32-bit number.
pub open spec fn sized_bytes(bytes: Seq<u8>) -> Seq<u8> {
    i32_le(bytes.len() as i32) + bytes
}

/// Reading bytes with their size in front. The size must not be
/// negative nor above `limit`.
pub open spec fn read_sized_bytes_spec(s: Seq<u8>, limit: nat) -> Parsed<Seq<u8>> {
    match read_i32_spec(s) {
        Err(e) => Err(e),
        Ok((size, rest)) => if size < 0 {
            Err(Error::InvalidSize)
        } else {
            read_u8_vec_spec(rest, size as nat, limit)
        },
    }
}

impl BlockView {
    /// The stored bytes of the block.
    pub open spec fn compressed_pixels(self) -> Seq<u8> {
        match self {
            BlockView::ScanLine { compressed_pixels, .. } => compressed_pixels,
            BlockView::Tile { compressed_pixels, .. } => compressed_pixels,
        }
    }

    /// The bytes of the block: its coordinates, the size of its stored
    /// bytes, and its stored bytes.
    pub open spec fn bytes(self) -> Seq<u8> {
        match self {
            BlockView::ScanLine { y_coordinate, compressed_pixels } => i32_le(y_coordinate)
                + sized_bytes(compressed_pixels),
            BlockView::Tile { coordinates, compressed_pixels } => i32_le(coordinates.tile_index.0)
                + i32_le(coordinates.tile_index.1) + i32_le(coordinates.level_index.0) + i32_le(
                coordinates.level_index.1,
            ) + sized_bytes(compressed_pixels),
        }
    }

    /// Reading a block of scan lines whose stored bytes are no more than `limit`.
    pub open spec fn read_scan_line_spec(s: Seq<u8>, limit: nat) -> Parsed<BlockView> {
        match read_i32_spec(s) {
            Err(e) => Err(e),
            Ok((y_coordinate, rest)) => match read_sized_bytes_spec(rest, limit) {
                Err(e) => Err(e),
                Ok((compressed_pixels, rest)) => Ok(
                    (BlockView::ScanLine { y_coordinate, compressed_pixels }, rest),
                ),
            },
        }
    }

    /// Reading a tile whose stored bytes are no more than `limit`.
    pub open spec fn read_tile_spec(s: Seq<u8>, limit: nat) -> Parsed<BlockView> {
        if s.len() < 16 {
            Err(Error::Io)
        } else {
            let coordinates = TileCoordinates {
                tile_index: Vec2(i32_from_le(s), i32_from_le(s.skip(4))),
                level_index: Vec2(i32_from_le(s.skip(8)), i32_from_le(s.skip(12))),
            };
            match read_sized_bytes_spec(s.skip(16), limit) {
                Err(e) => Err(e),
                Ok((compressed_pixels, rest)) => Ok(
                    (BlockView::Tile { coordinates, compressed_pixels }, rest),
                ),
            }
        }
    }
}

impl ChunkView {
    /// What is wrong with the chunk, if anything: its stored bytes are
    /// more than a signed 32-bit number can say.
    pub open spec fn validate(self) -> Result<(), Error> {
        if self.block.compressed_pixels().len() > i32::MAX {
            Err(Error::InvalidSize)
        } else {
            Ok(())
        }
    }

    /// The bytes of the chunk: in a file of several layers the index of
    /// its layer, then its block.
    pub open spec fn bytes(self, is_multipart: bool) -> Seq<u8> {
        (if is_multipart {
            u32_le(self.part_number)
        } else {
            Seq::empty()
        }) + self.block.bytes()
    }

    /// Reading the index of the layer of a chunk of a file with
    /// `layer_count` layers. A file of one layer holds no such index.
    pub open spec fn read_part_number_spec(s: Seq<u8>, is_multipart: bool, layer_count: nat)
        -> Parsed<u32> {
        if is_multipart {
            match read_u32_spec(s) {
                Err(e) => Err(e),
                Ok((part_number, rest)) => if part_number >= layer_count {
                    Err(Error::InvalidPartIndex)
                } else {
                    Ok((part_number, rest))
                },
            }
        } else if layer_count == 0 {
            Err(Error::InvalidPartIndex)
        } else {
            Ok((0u32, s))
        }
    }

    /// Reading a chunk of a file with the given headers.
    pub open spec fn read_spec(s: Seq<u8>, is_multipart: bool, headers: Seq<HeaderView>) -> Parsed<
        ChunkView,
    > {
        match ChunkView::read_part_number_spec(s, is_multipart, headers.len()) {
            Err(e) => Err(e),
            Ok((part_number, rest)) => {
                let header = headers[part_number as int];
                let limit = header.max_block_byte_size();
                match (match header.blocks {
                    BlockDescription::ScanLines => BlockView::read_scan_line_spec(rest, limit),
                    BlockDescription::Tiles(_) => BlockView::read_tile_spec(rest, limit),
                }) {
                    Err(e) => Err(e),
                    Ok((block, rest)) => Ok((ChunkView { part_number, block }, rest)),
                }
            },
        }
    }
}

/// How many bytes the samples of one pixel take in all the channels together.
pub open spec fn spec_bytes_per_pixel(channels: Seq<ChannelView>) -> nat
    decreases channels.len(),
{
    if channels.len() == 0 {
        0
    } else {
        spec_bytes_per_pixel(channels.drop_last())
            + channels.last().pixel_type.spec_bytes_per_sample()
    }
}

impl HeaderView {
    /// The greatest width and height that a block of the layer can have.
    pub open spec fn max_block_size(self) -> Vec2<usize> {
        match self.blocks {
            BlockDescription::ScanLines => Vec2(
                self.data_window.size.0,
                self.compression.spec_scan_lines_per_block() as usize,
            ),
            BlockDescription::Tiles(tiles) => Vec2(tiles.x_size as usize, tiles.y_size as usize),
        }
    }

    /// How many pixel bytes the largest block of the layer has: its
    /// width times its height times the bytes of a pixel. No block has
    /// more stored bytes.
    pub open spec fn max_block_byte_size(self) -> nat {
        (self.max_block_size().0 * self.max_block_size().1) as nat * spec_bytes_per_pixel(
            self.channels,
        )
    }
}

/// The lesser of a number and the greatest `usize`.
pub open spec fn clamped(number: nat) -> usize {
    if number > usize::MAX {
        usize::MAX
    } else {
        number as usize
    }
}

/// How many bytes the samples of one pixel take in all the channels
/// together, or the greatest `usize` if that is less.
pub fn bytes_per_pixel(channels: &[crate::file::attributes::Channel]) -> (r: usize)
    ensures
        r == clamped(spec_bytes_per_pixel(channel_views(channels@))),
{
    let ghost views = channel_views(channels@);
    let mut total: usize = 0;
    let mut index: usize = 0;
    proof {
        assert(views.take(0) =~= Seq::<ChannelView>::empty());
    }
    while index < channels.len()
        invariant
            index <= channels@.len(),
            views == channel_views(channels@),
            total == clamped(spec_bytes_per_pixel(views.take(index as int))),
        decreases channels@.len() - index,
    {
        proof {
            assert(views.take(index + 1).drop_last() =~= views.take(index as int));
            assert(views.take(index + 1).last() == channels@[index as int]@);
        }
        total = total.saturating_add(channels[index].pixel_type.bytes_per_sample());
        index = index + 1;
    }
    proof {
        assert(views.take(index as int) =~= views);
    }
    total
}

/// The product of two 32-bit numbers.
fn product(left: u32, right: u32) -> (r: u64)
    ensures
        r == left * right,
{
    assert(left * right <= 0xFFFF_FFFF * 0xFFFF_FFFF) by (nonlinear_arith)
        requires
            0 <= left <= 0xFFFF_FFFF,
            0 <= right <= 0xFFFF_FFFF,
    ;
    left as u64 * right as u64
}

/// The product of two numbers, or the greatest `usize` if that is less.
fn clamped_product(left: usize, right: usize) -> (r: usize)
    ensures
        r == clamped((left * right) as nat),
{
    assert(0 <= left * right) by (nonlinear_arith)
        requires
            0 <= left,
            0 <= right,
    ;
    match left.checked_mul(right) {
        Some(product) => product,
        None => usize::MAX,
    }
}

impl Header {
    /// The greatest width and height that a block of the layer can have.
    pub fn max_block_size(&self) -> (r: Vec2<usize>)
        ensures
            r == self@.max_block_size(),
    {
        match self.blocks {
            BlockDescription::ScanLines => Vec2(
                self.data_window.size.0,
                self.compression.scan_lines_per_block(),
            ),
            BlockDescription::Tiles(tiles) => Vec2(tiles.x_size as usize, tiles.y_size as usize),
        }
    }

    /// How many pixel bytes a block of the given width and height has,
    /// or the greatest `usize` if that is less.
    pub fn block_byte_size(&self, size: Vec2<usize>) -> (r: usize)
        ensures
            r == clamped(
                (size.0 * size.1) as nat * spec_bytes_per_pixel(self@.channels),
            ),
    {
        let channels = self.channels.as_slice();
        proof {
            assert(channel_views(channels@) =~= self@.channels);
            assert(0 <= size.0 * size.1) by (nonlinear_arith)
                requires
                    0 <= size.0,
                    0 <= size.1,
            ;
        }
        let pixels = clamped_product(size.0, size.1);
        let per_pixel = bytes_per_pixel(channels);
        let result = clamped_product(pixels, per_pixel);
        proof {
            let area = (size.0 * size.1) as nat;
            let each = spec_bytes_per_pixel(self@.channels);
            if area > usize::MAX && each > 0 {
                assert(area * each >= area) by (nonlinear_arith)
                    requires
                        each >= 1,
                        area >= 0,
                ;
                assert(usize::MAX * per_pixel >= usize::MAX) by (nonlinear_arith)
                    requires
                        per_pixel >= 1,
                ;
            }
            if each > usize::MAX && area > 0 {
                assert(area * each >= each) by (nonlinear_arith)
                    requires
                        area >= 1,
                        each >= 0,
                ;
                assert(pixels * usize::MAX >= usize::MAX) by (nonlinear_arith)
                    requires
                        pixels >= 1,
                ;
            }
            if area == 0 {
                assert(area * each == 0) by (nonlinear_arith)
                    requires
                        area == 0,
                ;
                assert(pixels * per_pixel == 0) by (nonlinear_arith)
                    requires
                        pixels == 0,
                ;
            }
            if each == 0 {
                assert(area * each == 0) by (nonlinear_arith)
                    requires
                        each == 0,
                ;
                assert(pixels * per_pixel == 0) by (nonlinear_arith)
                    requires
                        per_pixel == 0,
                ;
            }
        }
        result
    }
}

/// Appends bytes with their size in front.
fn write_sized_bytes(write: &mut Vec<u8>, bytes: &[u8])
    requires
        bytes@.len() <= i32::MAX,
    ensures
        final(write)@ == old(write)@ + sized_bytes(bytes@),
{
    write_i32(write, bytes.len() as i32);
    write_u8_array(write, bytes);
    assert(write@ =~= old(write)@ + sized_bytes(bytes@));
}

/// Reads bytes with their size in front.
fn read_sized_bytes(read: &mut ByteReader, limit: usize) -> (r: Result<Vec<u8>, Error>)
    ensures
        final(read).source() == old(read).source(),
        match read_sized_bytes_spec(old(read).remaining(), limit as nat) {
            Ok((bytes, rest)) => r is Ok && r->Ok_0@ == bytes && final(read).remaining() == rest,
            Err(e) => r == Err::<Vec<u8>, Error>(e),
        },
{
    let size = read.read_i32()?;
    if size < 0 {
        return Err(Error::InvalidSize);
    }
    read.read_u8_vec(size as usize, limit)
}

impl Block {
    /// The stored bytes of the block.
    pub fn compressed_pixels(&self) -> (r: &Vec<u8>)
        ensures
            r@ == self@.compressed_pixels(),
    {
        match self {
            Block::ScanLine { compressed_pixels, .. } => compressed_pixels,
            Block::Tile { compressed_pixels, .. } => compressed_pixels,
        }
    }

    /// Appends the bytes of the block.
    fn write_unchecked(&self, write: &mut Vec<u8>)
        requires
            self@.compressed_pixels().len() <= i32::MAX,
        ensures
            final(write)@ == old(write)@ + self@.bytes(),
    {
        match self {
            Block::ScanLine { y_coordinate, compressed_pixels } => {
                write_i32(write, *y_coordinate);
                write_sized_bytes(write, compressed_pixels.as_slice());
            },
            Block::Tile { coordinates, compressed_pixels } => {
                write_i32(write, coordinates.tile_index.0);
                write_i32(write, coordinates.tile_index.1);
                write_i32(write, coordinates.level_index.0);
                write_i32(write, coordinates.level_index.1);
                write_sized_bytes(write, compressed_pixels.as_slice());
            },
        }
        assert(write@ =~= old(write)@ + self@.bytes());
    }

    /// Reads a block of scan lines whose stored bytes are no more than `limit`.
    fn read_scan_line(read: &mut ByteReader, limit: usize) -> (r: Result<Block, Error>)
        ensures
            final(read).source() == old(read).source(),
            match BlockView::read_scan_line_spec(old(read).remaining(), limit as nat) {
                Ok((block, rest)) => r is Ok && r->Ok_0@ == block && final(read).remaining()
                    == rest,
                Err(e) => r == Err::<Block, Error>(e),
            },
    {
        let y_coordinate = read.read_i32()?;
        let compressed_pixels = read_sized_bytes(read, limit)?;
        Ok(Block::ScanLine { y_coordinate, compressed_pixels })
    }

    /// Reads a tile whose stored bytes are no more than `limit`.
    fn read_tile(read: &mut ByteReader, limit: usize) -> (r: Result<Block, Error>)
        ensures
            final(read).source() == old(read).source(),
            match BlockView::read_tile_spec(old(read).remaining(), limit as nat) {
                Ok((block, rest)) => r is Ok && r->Ok_0@ == block && final(read).remaining()
                    == rest,
                Err(e) => r == Err::<Block, Error>(e),
            },
    {
        let ghost s = old(read).remaining();
        let tile_x = read.read_i32()?;
        let tile_y = read.read_i32()?;
        let level_x = read.read_i32()?;
        let level_y = read.read_i32()?;
        proof {
            assert(s.skip(4).skip(4) =~= s.skip(8));
            assert(s.skip(8).skip(4) =~= s.skip(12));
            assert(s.skip(12).skip(4) =~= s.skip(16));
        }
        let compressed_pixels = read_sized_bytes(read, limit)?;
        Ok(
            Block::Tile {
                coordinates: TileCoordinates {
                    tile_index: Vec2(tile_x, tile_y),
                    level_index: Vec2(level_x, level_y),
                },
                compressed_pixels,
            },
        )
    }
}

impl Chunk {
    /// Says whether the stored bytes of the chunk are more than a signed
    /// 32-bit number can say.
    pub fn validate(&self) -> (r: Result<(), Error>)
        ensures
            r == self@.validate(),
    {
        if self.block.compressed_pixels().len() > i32::MAX as usize {
            Err(Error::InvalidSize)
        } else {
            Ok(())
        }
    }

    /// Appends the chunk, if it is valid.
    pub fn write(&self, write: &mut Vec<u8>, is_multipart: bool) -> (r: Result<(), Error>)
        ensures
            r == self@.validate(),
            final(write)@ == if r is Ok {
                old(write)@ + self@.bytes(is_multipart)
            } else {
                old(write)@
            },
    {
        self.validate()?;
        if is_multipart {
            write_u32(write, self.part_number);
        }
        self.block.write_unchecked(write);
        assert(write@ =~= old(write)@ + self@.bytes(is_multipart));
        Ok(())
    }

    /// Reads a chunk of a file with the given headers. No more is
    /// allocated for its stored bytes than the largest block of its
    /// layer has pixel bytes.
    pub fn read(read: &mut ByteReader, is_multipart: bool, headers: &[Header]) -> (r: Result<
        Chunk,
        Error,
    >)
        ensures
            final(read).source() == old(read).source(),
            match ChunkView::read_spec(old(read).remaining(), is_multipart, header_views(headers@)) {
                Ok((chunk, rest)) => r is Ok && r->Ok_0@ == chunk && final(read).remaining()
                    == rest,
                Err(e) => r == Err::<Chunk, Error>(e),
            },
    {
        let part_number = if is_multipart {
            let part_number = read.read_u32()?;
            if part_number as usize >= headers.len() {
                return Err(Error::InvalidPartIndex);
            }
            part_number
        } else {
            if headers.len() == 0 {
                return Err(Error::InvalidPartIndex);
            }
            0
        };
        let header = &headers[part_number as usize];
        let limit = header.block_byte_size(header.max_block_size());
        proof {
            assert(header_views(headers@)[part_number as int] == header@);
        }
        let block = match header.blocks {
            BlockDescription::ScanLines => Block::read_scan_line(read, limit)?,
            BlockDescription::Tiles(_) => Block::read_tile(read, limit)?,
        };
        Ok(Chunk { part_number, block })
    }
}

/// The pixels that a block holds: the resolution level, the position of
/// the top left pixel of the block in the level, and its width and height.
#[derive(Debug, Clone, Copy, PartialEq, Eq)]
pub struct BlockBounds {
    /// The resolution level.
    pub level: Vec2<usize>,
    /// The position of the top left pixel of the block in the level.
    pub position: Vec2<usize>,
    /// The width and the height of the block.
    pub size: Vec2<usize>,
}

/// The error for a block that lies outside of its layer, or does not
/// start where a block starts.
pub open spec fn block_coordinate_error() -> Error {
    Error::InvalidContent {
        what: Value::Attribute("block coordinates"),
        required: Required::Exact("the start of a block within the layer"),
    }
}

impl HeaderView {
    /// The pixels of the block of scan lines that starts at the given y
    /// coordinate, if a block starts there: the coordinate lies within the
    /// data window, a whole number of blocks below its top. The block is
    /// as wide as the layer, and as high as a block of the compression
    /// method, or as what is left of the layer where that is less.
    pub open spec fn scan_line_block_bounds(self, y_coordinate: i32) -> Result<BlockBounds, Error> {
        let y = y_coordinate - self.data_window.position.1;
        let lines = self.compression.spec_scan_lines_per_block();
        if y < 0 || y >= self.data_window.size.1 || y % (lines as int) != 0 {
            Err(block_coordinate_error())
        } else {
            Ok(
                BlockBounds {
                    level: Vec2(0, 0),
                    position: Vec2(0, y as usize),
                    size: Vec2(
                        self.data_window.size.0,
                        spec_block_size(self.data_window.size.1 as nat, lines, y as nat) as usize,
                    ),
                },
            )
        }
    }

    /// The size of the layer at the given resolution level, if the
    /// layer has that level: the level `(0, 0)` where there is one level
    /// only; a level with the same index along x and along y in a mip map;
    /// a level within the counts of levels in a rip map.
    pub open spec fn level_size(self, tiles: TileDescription, level: Vec2<i32>) -> Option<
        Vec2<usize>,
    > {
        let round = tiles.rounding_mode;
        let width = self.data_window.size.0;
        let height = self.data_window.size.1;
        let has_level = level.0 >= 0 && level.1 >= 0 && match tiles.level_mode {
            LevelMode::One => level.0 == 0 && level.1 == 0,
            LevelMode::MipMap => level.0 == level.1 && level.0 < spec_level_count(
                round,
                spec_max(width, height) as nat,
            ),
            LevelMode::RipMap => level.0 < spec_level_count(round, width as nat) && level.1
                < spec_level_count(round, height as nat),
        };
        if has_level {
            Some(
                Vec2(
                    spec_level_size(round, width as nat, level.0 as nat) as usize,
                    spec_level_size(round, height as nat, level.1 as nat) as usize,
                ),
            )
        } else {
            None
        }
    }

    /// The pixels of the tile at the given coordinates, if there is such
    /// a tile. A tile at the right or the lower edge of its level is as
    /// wide and as high as what is left of the level.
    pub open spec fn tile_bounds(self, tiles: TileDescription, coordinates: TileCoordinates)
        -> Result<BlockBounds, Error> {
        match self.level_size(tiles, coordinates.level_index) {
            None => Err(Error::InvalidLevelIndex),
            Some(level_size) => {
                let x = coordinates.tile_index.0 * tiles.x_size;
                let y = coordinates.tile_index.1 * tiles.y_size;
                if coordinates.tile_index.0 < 0 || coordinates.tile_index.1 < 0 || x
                    >= level_size.0 || y >= level_size.1 {
                    Err(block_coordinate_error())
                } else {
                    Ok(
                        BlockBounds {
                            level: Vec2(
                                coordinates.level_index.0 as usize,
                                coordinates.level_index.1 as usize,
                            ),
                            position: Vec2(x as usize, y as usize),
                            size: Vec2(
                                spec_block_size(
                                    level_size.0 as nat,
                                    tiles.x_size as nat,
                                    x as nat,
                                ) as usize,
                                spec_block_size(
                                    level_size.1 as nat,
                                    tiles.y_size as nat,
                                    y as nat,
                                ) as usize,
                            ),
                        },
                    )
                }
            },
        }
    }

    /// The pixels that a block of the layer holds, or why there is no such block.
    pub open spec fn block_bounds(self, block: BlockView) -> Result<BlockBounds, Error> {
        match (self.blocks, block) {
            (BlockDescription::ScanLines, BlockView::ScanLine { y_coordinate, .. }) => {
                self.scan_line_block_bounds(y_coordinate)
            },
            (BlockDescription::Tiles(tiles), BlockView::Tile { coordinates, .. }) => {
                if tiles.x_size == 0 || tiles.y_size == 0 {
                    Err(tile_size_error())
                } else {
                    self.tile_bounds(tiles, coordinates)
                }
            },
            _ => Err(block_coordinate_error()),
        }
    }
}

impl Header {
    /// The pixels of the block of scan lines that starts at the given y coordinate.
    fn scan_line_block_bounds(&self, y_coordinate: i32) -> (r: Result<BlockBounds, Error>)
        ensures
            r == self@.scan_line_block_bounds(y_coordinate),
    {
        let lines = self.compression.scan_lines_per_block();
        let y = y_coordinate as i64 - self.data_window.position.1 as i64;
        if y < 0 || y as u64 >= self.data_window.size.1 as u64 || y % (lines as i64) != 0 {
            return Err(
                Error::InvalidContent {
                    what: Value::Attribute("block coordinates"),
                    required: Required::Exact("the start of a block within the layer"),
                },
            );
        }
        let height = match calculate_block_size(self.data_window.size.1, lines, y as usize) {
            Ok(height) => height,
            Err(e) => return Err(e),
        };
        Ok(
            BlockBounds {
                level: Vec2(0, 0),
                position: Vec2(0, y as usize),
                size: Vec2(self.data_window.size.0, height),
            },
        )
    }

    /// The size of the layer at the given resolution level, if the layer has that level.
    fn level_size(&self, tiles: TileDescription, level: Vec2<i32>) -> (r: Option<Vec2<usize>>)
        ensures
            r == self@.level_size(tiles, level),
    {
        if level.0 < 0 || level.1 < 0 {
            return None;
        }
        let round = tiles.rounding_mode;
        let width = self.data_window.size.0;
        let height = self.data_window.size.1;
        let x = level.0 as usize;
        let y = level.1 as usize;
        let has_level = match tiles.level_mode {
            LevelMode::One => x == 0 && y == 0,
            LevelMode::MipMap => {
                let longest = if width > height {
                    width
                } else {
                    height
                };
                x == y && x < compute_level_count(round, longest)
            },
            LevelMode::RipMap => x < compute_level_count(round, width) && y < compute_level_count(
                round,
                height,
            ),
        };
        if has_level {
            Some(Vec2(compute_level_size(round, width, x), compute_level_size(round, height, y)))
        } else {
            None
        }
    }

    /// The pixels of the tile at the given coordinates.
    fn tile_bounds(&self, tiles: TileDescription, coordinates: TileCoordinates) -> (r: Result<
        BlockBounds,
        Error,
    >)
        requires
            tiles.x_size > 0,
            tiles.y_size > 0,
        ensures
            r == self@.tile_bounds(tiles, coordinates),
    {
        let level_size = match self.level_size(tiles, coordinates.level_index) {
            Some(size) => size,
            None => return Err(Error::InvalidLevelIndex),
        };
        if coordinates.tile_index.0 < 0 || coordinates.tile_index.1 < 0 {
            return Err(
                Error::InvalidContent {
                    what: Value::Attribute("block coordinates"),
                    required: Required::Exact("the start of a block within the layer"),
                },
            );
        }
        let x = product(coordinates.tile_index.0 as u32, tiles.x_size);
        let y = product(coordinates.tile_index.1 as u32, tiles.y_size);
        if x >= level_size.0 as u64 || y >= level_size.1 as u64 {
            return Err(
                Error::InvalidContent {
                    what: Value::Attribute("block coordinates"),
                    required: Required::Exact("the start of a block within the layer"),
                },
            );
        }
        let width = match calculate_block_size(level_size.0, tiles.x_size as usize, x as usize) {
            Ok(width) => width,
            Err(e) => return Err(e),
        };
        let height = match calculate_block_size(level_size.1, tiles.y_size as usize, y as usize) {
            Ok(height) => height,
            Err(e) => return Err(e),
        };
        Ok(
            BlockBounds {
                level: Vec2(coordinates.level_index.0 as usize, coordinates.level_index.1 as usize),
                position: Vec2(x as usize, y as usize),
                size: Vec2(width, height),
            },
        )
    }

    /// The pixels that a block of the layer holds. Fails where there is
    /// no such block: the block is of the other kind than the blocks of
    /// the layer, the layer has no such resolution level, or no block
    /// starts at the coordinates.
    pub fn block_bounds(&self, block: &Block) -> (r: Result<BlockBounds, Error>)
        ensures
            r == self@.block_bounds(block@),
    {
        match (self.blocks, block) {
            (BlockDescription::ScanLines, Block::ScanLine { y_coordinate, .. }) => {
                self.scan_line_block_bounds(*y_coordinate)
            },
            (BlockDescription::Tiles(tiles), Block::Tile { coordinates, .. }) => {
                if tiles.x_size == 0 || tiles.y_size == 0 {
                    return Err(
                        Error::InvalidContent {
                            what: Value::Attribute("tiles"),
                            required: Required::Min(1),
                        },
                    );
                }
                self.tile_bounds(tiles, *coordinates)
            },
            _ => Err(
                Error::InvalidContent {
                    what: Value::Attribute("block coordinates"),
                    required: Required::Exact("the start of a block within the layer"),
                },
            ),
        }
    }
}

/// A block of scan lines lies within the layer and holds a scan line
/// at least. A tile lies within its level, holds a pixel at least, and is no
/// wider and no higher than the tiles of the layer: at the right and the
/// lower edge of the level, a tile is cut down to what is left.
pub proof fn lemma_block_bounds_within_level(header: HeaderView, block: BlockView)
    ensures
        header.block_bounds(block) is Ok && header.blocks is ScanLines ==> ({
            let bounds = header.block_bounds(block)->Ok_0;
            &&& bounds.size.0 == header.data_window.size.0
            &&& 1 <= bounds.size.1 <= header.compression.spec_scan_lines_per_block()
            &&& bounds.position.1 + bounds.size.1 <= header.data_window.size.1
        }),
        header.block_bounds(block) is Ok && header.blocks is Tiles && block is Tile ==> ({
            let bounds = header.block_bounds(block)->Ok_0;
            let tiles = header.blocks->Tiles_0;
            let level_size = header.level_size(tiles, block->Tile_coordinates.level_index)->Some_0;
            &&& 1 <= bounds.size.0 <= tiles.x_size
            &&& 1 <= bounds.size.1 <= tiles.y_size
            &&& bounds.position.0 + bounds.size.0 <= level_size.0
            &&& bounds.position.1 + bounds.size.1 <= level_size.1
        }),
{
}

/// Reading the chunk that starts at the given position of a file. Fails
/// with `Io` where the file ends before that position.
pub open spec fn read_chunk_at_spec(
    file: Seq<u8>,
    offset: u64,
    is_multipart: bool,
    headers: Seq<HeaderView>,
) -> Result<ChunkView, Error> {
    if offset > file.len() {
        Err(Error::Io)
    } else {
        match ChunkView::read_spec(file.skip(offset as int), is_multipart, headers) {
            Err(e) => Err(e),
            Ok((chunk, _)) => Ok(chunk),
        }
    }
}

/// Reads the chunk that starts at the given position of a file.
pub fn read_chunk_at(file: &[u8], offset: u64, is_multipart: bool, headers: &[Header]) -> (r:
    Result<Chunk, Error>)
    ensures
        match read_chunk_at_spec(file@, offset, is_multipart, header_views(headers@)) {
            Ok(chunk) => r is Ok && r->Ok_0@ == chunk,
            Err(e) => r == Err::<Chunk, Error>(e),
        },
{
    if offset > file.len() as u64 {
        return Err(Error::Io);
    }
    let rest = vstd::slice::slice_subrange(file, offset as usize, file.len());
    assert(rest@ =~= file@.skip(offset as int));
    let mut read = ByteReader::new(rest);
    Chunk::read(&mut read, is_multipart, headers)
}

/// The sum of the byte sizes.
pub open spec fn total_size(sizes: Seq<usize>) -> nat
    decreases sizes.len(),
{
    if sizes.len() == 0 {
        0
    } else {
        total_size(sizes.drop_last()) + sizes.last() as nat
    }
}

/// The offsets of chunks of the given byte sizes that stand one after
/// another from the position `start` on: each chunk starts where the
/// chunks before it end. Fails with `InvalidSize` where the file would be
/// longer than a 64-bit number can say.
pub fn compute_chunk_offsets(start: u64, sizes: &[usize]) -> (r: Result<Vec<u64>, Error>)
    ensures
        match r {
            Ok(offsets) => start + total_size(sizes@) <= u64::MAX && offsets@.len() == sizes@.len()
                && forall|i: int|
                0 <= i < sizes@.len() ==> (#[trigger] offsets@[i]) == start + total_size(
                    sizes@.take(i),
                ),
            Err(e) => e == Error::InvalidSize && start + total_size(sizes@) > u64::MAX,
        },
{
    let mut offsets: Vec<u64> = Vec::new();
    let mut position: u64 = start;
    let mut index: usize = 0;
    proof {
        assert(sizes@.take(0) =~= Seq::<usize>::empty());
    }
    while index < sizes.len()
        invariant
            index <= sizes@.len(),
            offsets@.len() == index,
            position == start + total_size(sizes@.take(index as int)),
            forall|i: int|
                0 <= i < index ==> (#[trigger] offsets@[i]) == start + total_size(sizes@.take(i)),
        decreases sizes@.len() - index,
    {
        proof {
            assert(sizes@.take(index + 1).drop_last() =~= sizes@.take(index as int));
            lemma_total_size_grows(sizes@, index + 1);
        }
        offsets.push(position);
        position = match position.checked_add(sizes[index] as u64) {
            Some(position) => position,
            None => return Err(Error::InvalidSize),
        };
        index = index + 1;
    }
    proof {
        assert(sizes@.take(index as int) =~= sizes@);
    }
    Ok(offsets)
}

/// The first sizes add up to no more than all of them.
pub proof fn lemma_total_size_grows(sizes: Seq<usize>, count: int)
    requires
        0 <= count <= sizes.len(),
    ensures
        total_size(sizes.take(count)) <= total_size(sizes),
    decreases sizes.len() - count,
{
    if count < sizes.len() {
        lemma_total_size_grows(sizes, count + 1);
        assert(sizes.take(count + 1).drop_last() =~= sizes.take(count));
    } else {
        assert(sizes.take(count) =~= sizes);
    }
}

/// Puts a table of offsets in the place of the bytes of a file from
/// `position` on. Fails with `Io`, and changes nothing, where the file
/// ends before the end of the table.
pub fn patch_offset_table(file: &mut Vec<u8>, position: usize, table: &[u64]) -> (r: Result<
    (),
    Error,
>)
    ensures
        r == if position + 8 * table@.len() <= old(file)@.len() {
            Ok::<(), Error>(())
        } else {
            Err::<(), Error>(Error::Io)
        },
        final(file)@ == if r is Ok {
            old(file)@.take(position as int) + offset_table_bytes(table@) + old(file)@.skip(
                position + 8 * table@.len(),
            )
        } else {
            old(file)@
        },
{
    let len = file.len();
    let fits = match table.len().checked_mul(8) {
        None => false,
        Some(size) => match position.checked_add(size) {
            None => false,
            Some(end) => end <= file.len(),
        },
    };
    if !fits {
        return Err(Error::Io);
    }
    let mut encoded: Vec<u8> = Vec::new();
    write_offset_table(&mut encoded, table);
    proof {
        lemma_offset_table_bytes_len(table@);
        assert(encoded@ =~= offset_table_bytes(table@));
    }
    let mut index: usize = 0;
    assert(file@ =~= old(file)@.take(position as int) + encoded@.take(0) + old(file)@.skip(
        position as int,
    ));
    while index < encoded.len()
        invariant
            index <= encoded@.len(),
            position + encoded@.len() <= file@.len(),
            file@.len() == old(file)@.len(),
            file@ == old(file)@.take(position as int) + encoded@.take(index as int) + old(file)@.skip(position + index),
        decreases encoded@.len() - index,
    {
        assert(file@.len() <= usize::MAX) by {
            let _ = file.len();
        }
        file.set(position + index, encoded[index]);
        index = index + 1;
        assert(file@ =~= old(file)@.take(position as int) + encoded@.take(index as int) + old(file)@.skip(position + index));
    }
    proof {
        assert(encoded@.take(index as int) =~= encoded@);
    }
    Ok(())
}

/// A table takes eight bytes for each offset.
pub proof fn lemma_offset_table_bytes_len(table: Seq<u64>)
    ensures
        offset_table_bytes(table).len() == 8 * table.len(),
    decreases table.len(),
{
    if table.len() > 0 {
        lemma_offset_table_bytes_len(table.drop_last());
    }
}

/// Where a block stands in its layer, without its pixels.
#[derive(Debug, Clone, Copy, PartialEq, Eq)]
pub enum BlockCoordinates {
    /// A block of scan lines that starts at the given y coordinate.
    ScanLine { y_coordinate: i32 },
    /// A tile.
    Tile(TileCoordinates),
}

impl BlockCoordinates {
    /// The block at these coordinates with the given stored bytes.
    pub fn with_pixels(self, compressed_pixels: Vec<u8>) -> (r: Block)
        ensures
            r@ == self.spec_with_pixels(compressed_pixels@),
    {
        match self {
            BlockCoordinates::ScanLine { y_coordinate } => Block::ScanLine {
                y_coordinate,
                compressed_pixels,
            },
            BlockCoordinates::Tile(coordinates) => Block::Tile { coordinates, compressed_pixels },
        }
    }

    /// The block at these coordinates with the given stored bytes.
    pub open spec fn spec_with_pixels(self, compressed_pixels: Seq<u8>) -> BlockView {
        match self {
            BlockCoordinates::ScanLine { y_coordinate } => BlockView::ScanLine {
                y_coordinate,
                compressed_pixels,
            },
            BlockCoordinates::Tile(coordinates) => BlockView::Tile { coordinates, compressed_pixels },
        }
    }
}

impl Block {
    /// Where the block stands in its layer.
    pub fn coordinates(&self) -> (r: BlockCoordinates)
        ensures
            r.spec_with_pixels(self@.compressed_pixels()) == self@,
    {
        match self {
            Block::ScanLine { y_coordinate, .. } => BlockCoordinates::ScanLine {
                y_coordinate: *y_coordinate,
            },
            Block::Tile { coordinates, .. } => BlockCoordinates::Tile(*coordinates),
        }
    }
}

/// The error for the index of a block that its layer does not have.
pub open spec fn block_index_error() -> Error {
    Error::InvalidContent {
        what: Value::Attribute("block index"),
        required: Required::Exact("less than the count of blocks"),
    }
}

/// The tile with the given index among the tiles of the levels from
/// `from` on. The tiles of a level come row by row, and the levels one
/// after another.
pub open spec fn spec_tile_at(
    levels: Seq<(Vec2<usize>, Vec2<usize>)>,
    tiles: TileDescription,
    from: nat,
    index: nat,
) -> Option<TileCoordinates>
    decreases levels.len() - from,
{
    if from >= levels.len() {
        None
    } else {
        let level = levels[from as int];
        let columns = spec_block_count(level.1.0 as nat, tiles.x_size as nat);
        let rows = spec_block_count(level.1.1 as nat, tiles.y_size as nat);
        if index < columns * rows {
            Some(
                TileCoordinates {
                    tile_index: Vec2((index % columns) as i32, (index / columns) as i32),
                    level_index: Vec2(level.0.0 as i32, level.0.1 as i32),
                },
            )
        } else {
            spec_tile_at(levels, tiles, from + 1, (index - columns * rows) as nat)
        }
    }
}

impl HeaderView {
    /// The resolution levels of a layer of tiles, each with the size of
    /// the layer at that level, in the order in which their tiles stand.
    pub open spec fn levels(self, tiles: TileDescription) -> Seq<(Vec2<usize>, Vec2<usize>)> {
        let round = tiles.rounding_mode;
        let size = self.data_window.size;
        match tiles.level_mode {
            LevelMode::One => seq![(Vec2(0usize, 0usize), size)],
            LevelMode::MipMap => Seq::new(
                spec_level_count(round, spec_max(size.0, size.1) as nat),
                |level: int|
                    (
                        Vec2(level as usize, level as usize),
                        Vec2(
                            spec_level_size(round, size.0 as nat, level as nat) as usize,
                            spec_level_size(round, size.1 as nat, level as nat) as usize,
                        ),
                    ),
            ),
            LevelMode::RipMap => {
                let columns = spec_level_count(round, size.0 as nat);
                Seq::new(
                    columns * spec_level_count(round, size.1 as nat),
                    |level: int|
                        (
                            Vec2((level % columns as int) as usize, (level / columns as int) as usize),
                            Vec2(
                                spec_level_size(
                                    round,
                                    size.0 as nat,
                                    (level % columns as int) as nat,
                                ) as usize,
                                spec_level_size(
                                    round,
                                    size.1 as nat,
                                    (level / columns as int) as nat,
                                ) as usize,
                            ),
                        ),
                )
            },
        }
    }

    /// Where the block with the given index stands, among the blocks of
    /// the layer from the top down: for scan lines, the blocks one below
    /// another; for tiles, level by level and in each level row by row.
    pub open spec fn block_at(self, index: usize) -> Result<BlockCoordinates, Error> {
        match self.blocks {
            BlockDescription::ScanLines => {
                let lines = self.compression.spec_scan_lines_per_block();
                let y = self.data_window.position.1 + index * lines;
                if index * lines >= self.data_window.size.1 || y > i32::MAX {
                    Err(block_index_error())
                } else {
                    Ok(BlockCoordinates::ScanLine { y_coordinate: y as i32 })
                }
            },
            BlockDescription::Tiles(tiles) => {
                if tiles.x_size == 0 || tiles.y_size == 0 {
                    Err(tile_size_error())
                } else {
                    match spec_tile_at(self.levels(tiles), tiles, 0, index as nat) {
                        Some(coordinates) => Ok(BlockCoordinates::Tile(coordinates)),
                        None => Err(block_index_error()),
                    }
                }
            },
        }
    }
}

impl Header {
    /// The resolution levels of a layer of tiles, each with the size of
    /// the layer at that level.
    fn levels(&self, tiles: TileDescription) -> (r: Vec<(Vec2<usize>, Vec2<usize>)>)
        ensures
            r@ == self@.levels(tiles),
    {
        let round = tiles.rounding_mode;
        let size = self.data_window.size;
        match tiles.level_mode {
            LevelMode::One => {
                let mut levels: Vec<(Vec2<usize>, Vec2<usize>)> = Vec::new();
                levels.push((Vec2(0, 0), size));
                assert(levels@ =~= self@.levels(tiles));
                levels
            },
            LevelMode::MipMap => {
                let mips = mip_map_levels(round, size);
                let mut levels: Vec<(Vec2<usize>, Vec2<usize>)> = Vec::new();
                let mut index: usize = 0;
                while index < mips.len()
                    invariant
                        index <= mips@.len(),
                        levels@.len() == index,
                        forall|i: int|
                            0 <= i < index ==> (#[trigger] levels@[i]) == (
                                Vec2(mips@[i].0, mips@[i].0),
                                mips@[i].1,
                            ),
                    decreases mips@.len() - index,
                {
                    levels.push((Vec2(mips[index].0, mips[index].0), mips[index].1));
                    index = index + 1;
                }
                proof {
                    assert forall|i: int| 0 <= i < levels@.len() implies levels@[i]
                        == self@.levels(tiles)[i] by {
                        assert(is_level(
                            round,
                            size,
                            i,
                            i,
                            (Vec2(mips@[i].0, mips@[i].0), mips@[i].1),
                        ));
                    }
                    assert(levels@ =~= self@.levels(tiles));
                }
                levels
            },
            LevelMode::RipMap => {
                let levels = rip_map_levels(round, size);
                proof {
                    let columns = spec_level_count(round, size.0 as nat) as int;
                    let rows = spec_level_count(round, size.1 as nat) as int;
                    assert(levels@.len() == rows * columns);
                    assert(rows * columns == columns * rows) by (nonlinear_arith);
                    assert forall|k: int| 0 <= k < levels@.len() implies levels@[k]
                        == self@.levels(tiles)[k] by {
                        let x = k % columns;
                        let y = k / columns;
                        assert(k == y * columns + x) by {
                            vstd::arithmetic::div_mod::lemma_fundamental_div_mod(k, columns);
                            assert(columns * y == y * columns) by (nonlinear_arith);
                        }
                        assert(0 <= y < rows) by (nonlinear_arith)
                            requires
                                0 <= k < rows * columns,
                                k == y * columns + x,
                                0 <= x < columns,
                        ;
                        assert(rip_level_index(x, y, columns) == k);
                        assert(is_level(round, size, x, y, levels@[rip_level_index(x, y, columns)]));
                    }
                    assert(levels@ =~= self@.levels(tiles));
                }
                levels
            },
        }
    }

    /// Where the block with the given index stands, among the blocks of
    /// the layer from the top down. Fails where the layer has no block of
    /// that index.
    pub fn block_at(&self, index: usize) -> (r: Result<BlockCoordinates, Error>)
        ensures
            r == self@.block_at(index),
    {
        match self.blocks {
            BlockDescription::ScanLines => {
                let lines = self.compression.scan_lines_per_block();
                let y = match index.checked_mul(lines) {
                    Some(y) => y,
                    None => {
                        assert(index * lines > usize::MAX);
                        return Err(
                            Error::InvalidContent {
                                what: Value::Attribute("block index"),
                                required: Required::Exact("less than the count of blocks"),
                            },
                        );
                    },
                };
                if y >= self.data_window.size.1 || y as u64 > 0xFFFF_FFFF
                    || self.data_window.position.1 as i64 + y as i64 > i32::MAX as i64 {
                    return Err(
                        Error::InvalidContent {
                            what: Value::Attribute("block index"),
                            required: Required::Exact("less than the count of blocks"),
                        },
                    );
                }
                Ok(
                    BlockCoordinates::ScanLine {
                        y_coordinate: (self.data_window.position.1 as i64 + y as i64) as i32,
                    },
                )
            },
            BlockDescription::Tiles(tiles) => {
                if tiles.x_size == 0 || tiles.y_size == 0 {
                    return Err(
                        Error::InvalidContent {
                            what: Value::Attribute("tiles"),
                            required: Required::Min(1),
                        },
                    );
                }
                let levels = self.levels(tiles);
                let mut rest: usize = index;
                let mut level: usize = 0;
                while level < levels.len()
                    invariant
                        level <= levels@.len(),
                        tiles.x_size > 0,
                        tiles.y_size > 0,
                        self.blocks == BlockDescription::Tiles(tiles),
                        levels@ == self@.levels(tiles),
                        spec_tile_at(levels@, tiles, 0, index as nat) == spec_tile_at(
                            levels@,
                            tiles,
                            level as nat,
                            rest as nat,
                        ),
                    decreases levels@.len() - level,
                {
                    let size = levels[level].1;
                    let columns = compute_block_count(size.0, tiles.x_size as usize);
                    let rows = compute_block_count(size.1, tiles.y_size as usize);
                    proof {
                        assert(0 <= columns * rows) by (nonlinear_arith)
                            requires
                                0 <= columns,
                                0 <= rows,
                        ;
                    }
                    let within = match columns.checked_mul(rows) {
                        Some(count) => rest < count,
                        None => true,
                    };
                    if within {
                        proof {
                            assert(columns > 0) by (nonlinear_arith)
                                requires
                                    rest < columns * rows,
                                    0 <= rest,
                                    0 <= columns,
                                    0 <= rows,
                            ;
                        }
                        let x = rest % columns;
                        let y = rest / columns;
                        return Ok(
                            BlockCoordinates::Tile(
                                TileCoordinates {
                                    tile_index: Vec2(x as i32, y as i32),
                                    level_index: Vec2(
                                        levels[level].0.0 as i32,
                                        levels[level].0.1 as i32,
                                    ),
                                },
                            ),
                        );
                    }
                    rest = rest - columns * rows;
                    level = level + 1;
                }
                Err(
                    Error::InvalidContent {
                        what: Value::Attribute("block index"),
                        required: Required::Exact("less than the count of blocks"),
                    },
                )
            },
        }
    }
}

impl HeaderView {
    /// The pixels that the block at the given coordinates holds, or why
    /// there is no such block.
    pub open spec fn bounds_of(self, coordinates: BlockCoordinates) -> Result<BlockBounds, Error> {
        self.block_bounds(coordinates.spec_with_pixels(Seq::empty()))
    }

    /// Whether a block of the layer holds flat pixels at full resolution:
    /// the layer holds no deep data, and the block is of the first
    /// resolution level.
    pub open spec fn is_flat_full_resolution(self, coordinates: BlockCoordinates) -> bool {
        !self.deep && match coordinates {
            BlockCoordinates::ScanLine { .. } => true,
            BlockCoordinates::Tile(tile) => tile.level_index == Vec2(0i32, 0i32),
        }
    }
}

impl Header {
    /// The pixels that the block at the given coordinates holds. Fails
    /// where there is no such block.
    pub fn bounds_of(&self, coordinates: BlockCoordinates) -> (r: Result<BlockBounds, Error>)
        ensures
            r == self@.bounds_of(coordinates),
    {
        match (self.blocks, coordinates) {
            (BlockDescription::ScanLines, BlockCoordinates::ScanLine { y_coordinate }) => {
                self.scan_line_block_bounds(y_coordinate)
            },
            (BlockDescription::Tiles(tiles), BlockCoordinates::Tile(coordinates)) => {
                if tiles.x_size == 0 || tiles.y_size == 0 {
                    return Err(
                        Error::InvalidContent {
                            what: Value::Attribute("tiles"),
                            required: Required::Min(1),
                        },
                    );
                }
                self.tile_bounds(tiles, coordinates)
            },
            _ => Err(
                Error::InvalidContent {
                    what: Value::Attribute("block coordinates"),
                    required: Required::Exact("the start of a block within the layer"),
                },
            ),
        }
    }

    /// Whether a block of the layer holds flat pixels at full resolution.
    pub fn is_flat_full_resolution(&self, coordinates: BlockCoordinates) -> (r: bool)
        ensures
            r == self@.is_flat_full_resolution(coordinates),
    {
        !self.deep && match coordinates {
            BlockCoordinates::ScanLine { .. } => true,
            BlockCoordinates::Tile(tile) => tile.level_index.0 == 0 && tile.level_index.1 == 0,
        }
    }
}

} // verus!
