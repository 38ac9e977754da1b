//! What holds of whole files and of the blocks of an image.
//!
//! A file that was written is read as it was written: the meta data, and
//! every chunk with its stored bytes. Its table holds one offset for each
//! block of each layer, and the offsets grow from chunk to chunk. Blocks
//! that were put into an image are in the image afterwards, in whatever
//! order they came.

use vstd::prelude::*;
use crate::error::Error;
use crate::math::Vec2;
use crate::io::{i32_le, lemma_u64_decodes_encoded, read_u64_spec, u32_le, u64_le};
use crate::file::laws::{lemma_add_assoc, lemma_i32_in_front, lemma_u32_in_front};
use crate::chunk::{
    BlockView, ChunkView, TileCoordinates, offset_table_bytes, read_chunk_at_spec,
    read_offset_table_spec, read_offset_tables_spec, read_sized_bytes_spec, sized_bytes,
};
use crate::chunk::{lemma_block_bounds_within_level, lemma_offset_table_bytes_len, spec_bytes_per_pixel};
use crate::meta::{BlockDescription, HeaderView};
use crate::meta::header::{MetaDataView, lemma_meta_data_read_written, nothing_unknown};
use crate::file::attributes::ChannelView;
use crate::chunk::BlockBounds;
use crate::image::simple::{
    Channel, Part, SamplesView, block_bytes, block_row_bytes, block_row_start, inferred_channels,
    lemma_block_bytes_len, lemma_inserted_block_is_extracted, lemma_replaced_samples_apart,
    pixel_bytes, spec_channel_resolution,
};
use crate::schedule::{
    BlockPlace, FileContentsView, are_chunks_valid, chunk_at, chunk_offsets, chunks_at, chunks_bytes, file_bytes,
    file_places, image_chunks_spec, layer_places, layers_places, lemma_layer_places_len,
    lemma_layers_places_len, place_of, places_of, read_file_spec, spec_block_in_order,
    table_chunks, tables_chunks, total_chunk_count, validate_file, validate_places,
};

verus! {

/// Bytes behind their size are read back, where they are no more than
/// the limit and than a signed 32-bit number can say.
pub proof fn lemma_sized_bytes_read(bytes: Seq<u8>, limit: nat, tail: Seq<u8>)
    requires
        bytes.len() <= i32::MAX,
        bytes.len() <= limit,
    ensures
        read_sized_bytes_spec(sized_bytes(bytes) + tail, limit) == Ok::<(Seq<u8>, Seq<u8>), Error>(
            (bytes, tail),
        ),
{
    let size = bytes.len() as i32;
    assert(sized_bytes(bytes) + tail =~= i32_le(size) + (bytes + tail));
    lemma_i32_in_front(size, bytes + tail);
    assert((bytes + tail).take(bytes.len() as int) =~= bytes);
    assert((bytes + tail).skip(bytes.len() as int) =~= tail);
}

/// Whether a reader of a file with the given headers takes the chunk:
/// the file has the layer of the chunk, the block is of the kind of the
/// blocks of the layer, and the stored bytes are no more than the largest
/// block of the layer has pixel bytes, and no more than a signed 32-bit
/// number can say.
#[verifier::opaque]
pub open spec fn is_chunk_readable(chunk: ChunkView, is_multipart: bool, headers: Seq<HeaderView>)
    -> bool {
    &&& chunk.part_number < headers.len()
    &&& is_multipart || chunk.part_number == 0
    &&& chunk.validate() is Ok
    &&& chunk.block.compressed_pixels().len() <= headers[chunk.part_number as int].max_block_byte_size()
    &&& chunk.block is ScanLine <==> headers[chunk.part_number as int].blocks is ScanLines
}

/// Reading a written block of scan lines gives the block back.
pub proof fn lemma_scan_line_block_read_written(block: BlockView, limit: nat, tail: Seq<u8>)
    requires
        block is ScanLine,
        block.compressed_pixels().len() <= i32::MAX,
        block.compressed_pixels().len() <= limit,
    ensures
        BlockView::read_scan_line_spec(block.bytes() + tail, limit) == Ok::<
            (BlockView, Seq<u8>),
            Error,
        >((block, tail)),
{
    let y = block->ScanLine_y_coordinate;
    let pixels = block.compressed_pixels();
    assert(block.bytes() + tail =~= i32_le(y) + (sized_bytes(pixels) + tail));
    lemma_i32_in_front(y, sized_bytes(pixels) + tail);
    lemma_sized_bytes_read(pixels, limit, tail);
}

/// Reading a written tile gives the tile back.
pub proof fn lemma_tile_read_written(block: BlockView, limit: nat, tail: Seq<u8>)
    requires
        block is Tile,
        block.compressed_pixels().len() <= i32::MAX,
        block.compressed_pixels().len() <= limit,
    ensures
        BlockView::read_tile_spec(block.bytes() + tail, limit) == Ok::<(BlockView, Seq<u8>), Error>(
            (block, tail),
        ),
{
    let coordinates = block->Tile_coordinates;
    let pixels = block.compressed_pixels();
    let r4 = sized_bytes(pixels) + tail;
    let r3 = i32_le(coordinates.level_index.1) + r4;
    let r2 = i32_le(coordinates.level_index.0) + r3;
    let r1 = i32_le(coordinates.tile_index.1) + r2;
    let s = i32_le(coordinates.tile_index.0) + r1;
    assert(block.bytes() + tail =~= s);
    lemma_i32_in_front(coordinates.tile_index.0, r1);
    lemma_i32_in_front(coordinates.tile_index.1, r2);
    lemma_i32_in_front(coordinates.level_index.0, r3);
    lemma_i32_in_front(coordinates.level_index.1, r4);
    assert(s.skip(4) == r1);
    assert(s.skip(8) =~= r1.skip(4));
    assert(s.skip(12) =~= r2.skip(4));
    assert(s.skip(16) =~= r3.skip(4));
    lemma_sized_bytes_read(pixels, limit, tail);
    assert(TileCoordinates {
        tile_index: Vec2(coordinates.tile_index.0, coordinates.tile_index.1),
        level_index: Vec2(coordinates.level_index.0, coordinates.level_index.1),
    } == coordinates);
}

/// The index of the layer of a written chunk is read back.
pub proof fn lemma_part_number_read_written(
    part_number: u32,
    is_multipart: bool,
    layer_count: nat,
    tail: Seq<u8>,
)
    requires
        part_number < layer_count,
        is_multipart || part_number == 0,
    ensures
        ChunkView::read_part_number_spec(
            if is_multipart {
                u32_le(part_number) + tail
            } else {
                tail
            },
            is_multipart,
            layer_count,
        ) == Ok::<(u32, Seq<u8>), Error>((part_number, tail)),
{
    if is_multipart {
        lemma_u32_in_front(part_number, tail);
    }
}

/// Reading a written block gives the block back, where it is of the
/// kind of the blocks of its layer.
pub proof fn lemma_block_read_written(
    block: BlockView,
    blocks: BlockDescription,
    limit: nat,
    tail: Seq<u8>,
)
    requires
        block is ScanLine <==> blocks is ScanLines,
        block.compressed_pixels().len() <= i32::MAX,
        block.compressed_pixels().len() <= limit,
    ensures
        (match blocks {
            BlockDescription::ScanLines => BlockView::read_scan_line_spec(
                block.bytes() + tail,
                limit,
            ),
            BlockDescription::Tiles(_) => BlockView::read_tile_spec(block.bytes() + tail, limit),
        }) == Ok::<(BlockView, Seq<u8>), Error>((block, tail)),
{
    match blocks {
        BlockDescription::ScanLines => {
            lemma_scan_line_block_read_written(block, limit, tail);
        },
        BlockDescription::Tiles(_) => {
            lemma_tile_read_written(block, limit, tail);
        },
    }
}

/// Reading a written chunk gives the chunk back, where a reader of a
/// file with the given headers takes it.
pub proof fn lemma_chunk_read_written(
    chunk: ChunkView,
    is_multipart: bool,
    headers: Seq<HeaderView>,
    tail: Seq<u8>,
)
    requires
        is_chunk_readable(chunk, is_multipart, headers),
    ensures
        ChunkView::read_spec(chunk.bytes(is_multipart) + tail, is_multipart, headers) == Ok::<
            (ChunkView, Seq<u8>),
            Error,
        >((chunk, tail)),
{
    reveal(is_chunk_readable);
    let header = headers[chunk.part_number as int];
    let limit = header.max_block_byte_size();
    let rest = chunk.block.bytes() + tail;
    let s = chunk.bytes(is_multipart) + tail;
    if is_multipart {
        assert(s =~= u32_le(chunk.part_number) + rest);
    } else {
        assert(s =~= rest);
    }
    lemma_part_number_read_written(chunk.part_number, is_multipart, headers.len(), rest);
    lemma_block_read_written(chunk.block, header.blocks, limit, tail);
}

/// The bytes of two tables one after the other are the bytes of the
/// first, then those of the second.
pub proof fn lemma_offset_table_bytes_add(front: Seq<u64>, back: Seq<u64>)
    ensures
        offset_table_bytes(front + back) == offset_table_bytes(front) + offset_table_bytes(back),
    decreases back.len(),
{
    if back.len() == 0 {
        assert(front + back =~= front);
        assert(offset_table_bytes(front) + offset_table_bytes(back) =~= offset_table_bytes(front));
    } else {
        assert((front + back).drop_last() =~= front + back.drop_last());
        lemma_offset_table_bytes_add(front, back.drop_last());
        assert(offset_table_bytes(front + back) =~= offset_table_bytes(front) + offset_table_bytes(
            back,
        ));
    }
}

/// Reading a written table of offsets gives the table back.
pub proof fn lemma_offset_table_read_written(table: Seq<u64>, tail: Seq<u8>)
    ensures
        read_offset_table_spec(offset_table_bytes(table) + tail, table.len()) == Ok::<
            (Seq<u64>, Seq<u8>),
            Error,
        >((table, tail)),
    decreases table.len(),
{
    if table.len() > 0 {
        let front = table.drop_last();
        let rest = u64_le(table.last()) + tail;
        assert(offset_table_bytes(table) + tail =~= offset_table_bytes(front) + rest);
        lemma_offset_table_read_written(front, rest);
        lemma_u64_decodes_encoded(table.last(), tail);
        assert(u64_le(table.last()).len() == 8);
        assert(rest.skip(8) =~= tail);
        assert(read_u64_spec(rest) == Ok::<(u64, Seq<u8>), Error>((table.last(), tail)));
        assert(front.push(table.last()) =~= table);
    } else {
        assert(table =~= Seq::<u64>::empty());
        assert(offset_table_bytes(table) + tail =~= tail);
    }
}

/// The tables put one after another.
pub open spec fn flat_table(tables: Seq<Seq<u64>>) -> Seq<u64>
    decreases tables.len(),
{
    if tables.len() == 0 {
        Seq::empty()
    } else {
        flat_table(tables.drop_last()) + tables.last()
    }
}

/// Reading one table that holds an offset for each block of the first
/// layers gives a table for each of these layers, and the tables one after
/// another are the table that was written.
pub proof fn lemma_offset_tables_read_written(
    offsets: Seq<u64>,
    headers: Seq<HeaderView>,
    count: nat,
    tail: Seq<u8>,
)
    requires
        count <= headers.len(),
        offsets.len() == total_chunk_count(headers, count),
    ensures
        read_offset_tables_spec(offset_table_bytes(offsets) + tail, headers.take(count as int))
            matches Ok((tables, rest)) && rest == tail && flat_table(tables) == offsets,
    decreases count,
{
    if count > 0 {
        let fewer = total_chunk_count(headers, (count - 1) as nat);
        let front = offsets.take(fewer as int);
        let back = offsets.skip(fewer as int);
        let mid = offset_table_bytes(back) + tail;
        assert(offsets =~= front + back);
        lemma_offset_table_bytes_add(front, back);
        assert(offset_table_bytes(offsets) + tail =~= offset_table_bytes(front) + mid);
        lemma_offset_tables_read_written(front, headers, (count - 1) as nat, mid);
        assert(headers.take(count as int).drop_last() =~= headers.take(count - 1));
        assert(headers.take(count as int).last() == headers[count - 1]);
        lemma_offset_table_read_written(back, tail);
        let tables = read_offset_tables_spec(
            offset_table_bytes(front) + mid,
            headers.take(count - 1),
        )->Ok_0.0;
        assert(tables.push(back).drop_last() =~= tables);
    } else {
        assert(headers.take(0) =~= Seq::<HeaderView>::empty());
        assert(offsets =~= Seq::<u64>::empty());
        assert(offset_table_bytes(offsets) + tail =~= tail);
    }
}

/// The chunks at the offsets of two tables one after the other are the
/// chunks at the offsets of the first, then those at the offsets of the second.
pub proof fn lemma_table_chunks_add(
    file: Seq<u8>,
    front: Seq<u64>,
    back: Seq<u64>,
    is_multipart: bool,
    headers: Seq<HeaderView>,
)
    ensures
        table_chunks(file, front + back, is_multipart, headers) == match table_chunks(
            file,
            front,
            is_multipart,
            headers,
        ) {
            Err(e) => Err::<Seq<ChunkView>, Error>(e),
            Ok(first) => match table_chunks(file, back, is_multipart, headers) {
                Err(e) => Err::<Seq<ChunkView>, Error>(e),
                Ok(second) => Ok::<Seq<ChunkView>, Error>(first + second),
            },
        },
    decreases back.len(),
{
    if back.len() == 0 {
        assert(front + back =~= front);
        match table_chunks(file, front, is_multipart, headers) {
            Ok(first) => {
                assert(first + Seq::<ChunkView>::empty() =~= first);
            },
            Err(_) => {},
        }
    } else {
        assert((front + back).drop_last() =~= front + back.drop_last());
        assert((front + back).last() == back.last());
        lemma_table_chunks_add(file, front, back.drop_last(), is_multipart, headers);
        match table_chunks(file, front, is_multipart, headers) {
            Ok(first) => match table_chunks(file, back.drop_last(), is_multipart, headers) {
                Ok(second) => match read_chunk_at_spec(file, back.last(), is_multipart, headers) {
                    Ok(chunk) => {
                        assert((first + second).push(chunk) =~= first + second.push(chunk));
                    },
                    Err(_) => {},
                },
                Err(_) => {},
            },
            Err(_) => {},
        }
    }
}

/// The chunks at the offsets of tables are the chunks at the offsets of
/// the tables put one after another.
pub proof fn lemma_tables_chunks_flat(
    file: Seq<u8>,
    tables: Seq<Seq<u64>>,
    is_multipart: bool,
    headers: Seq<HeaderView>,
)
    ensures
        tables_chunks(file, tables, is_multipart, headers) == table_chunks(
            file,
            flat_table(tables),
            is_multipart,
            headers,
        ),
    decreases tables.len(),
{
    if tables.len() > 0 {
        lemma_tables_chunks_flat(file, tables.drop_last(), is_multipart, headers);
        lemma_table_chunks_add(
            file,
            flat_table(tables.drop_last()),
            tables.last(),
            is_multipart,
            headers,
        );
    }
}

/// The bytes of chunks one after another are the bytes of the first
/// chunks, then those of the chunks behind them.
pub proof fn lemma_chunks_bytes_add(front: Seq<ChunkView>, back: Seq<ChunkView>, is_multipart: bool)
    ensures
        chunks_bytes(front + back, is_multipart) == chunks_bytes(front, is_multipart)
            + chunks_bytes(back, is_multipart),
    decreases back.len(),
{
    if back.len() == 0 {
        assert(front + back =~= front);
        assert(chunks_bytes(front, is_multipart) + chunks_bytes(back, is_multipart)
            =~= chunks_bytes(front, is_multipart));
    } else {
        assert((front + back).drop_last() =~= front + back.drop_last());
        lemma_chunks_bytes_add(front, back.drop_last(), is_multipart);
        assert(chunks_bytes(front + back, is_multipart) =~= chunks_bytes(front, is_multipart)
            + chunks_bytes(back, is_multipart));
    }
}

/// The bytes of chunks are those of the chunks before one of them, then
/// the bytes of that chunk, then those of the chunks behind it.
pub proof fn lemma_chunks_bytes_around(chunks: Seq<ChunkView>, index: int, is_multipart: bool)
    requires
        0 <= index < chunks.len(),
    ensures
        chunks_bytes(chunks, is_multipart) == chunks_bytes(chunks.take(index), is_multipart)
            + chunks[index].bytes(is_multipart) + chunks_bytes(
            chunks.skip(index + 1),
            is_multipart,
        ),
        chunks_bytes(chunks.take(index + 1), is_multipart) == chunks_bytes(
            chunks.take(index),
            is_multipart,
        ) + chunks[index].bytes(is_multipart),
{
    assert(chunks =~= chunks.take(index + 1) + chunks.skip(index + 1));
    lemma_chunks_bytes_add(chunks.take(index + 1), chunks.skip(index + 1), is_multipart);
    assert(chunks.take(index + 1).drop_last() =~= chunks.take(index));
}

/// Each place of a layer is in that layer, at the coordinates of the
/// block of its index in the order of the file.
pub proof fn lemma_layer_places_are_blocks(
    header: HeaderView,
    part_number: u32,
    count: nat,
    index: int,
)
    requires
        layer_places(header, part_number, count) is Ok,
        0 <= index < count,
    ensures
        layer_places(header, part_number, count)->Ok_0.len() == count,
        layer_places(header, part_number, count)->Ok_0[index] == (BlockPlace {
            part_number,
            coordinates: spec_block_in_order(header, index as usize)->Ok_0,
        }),
        spec_block_in_order(header, index as usize) is Ok,
    decreases count,
{
    lemma_layer_places_len(header, part_number, count);
    lemma_layer_places_len(header, part_number, (count - 1) as nat);
    if index < count - 1 {
        lemma_layer_places_are_blocks(header, part_number, (count - 1) as nat, index);
    }
}

/// Each place of the first layers of a file is in one of these layers,
/// and is a block of scan lines where the layer holds scan lines, and a
/// tile where it holds tiles.
pub proof fn lemma_places_are_of_layers(headers: Seq<HeaderView>, count: nat, index: int)
    requires
        count <= headers.len(),
        count <= u32::MAX,
        layers_places(headers, count) is Ok,
        0 <= index < layers_places(headers, count)->Ok_0.len(),
    ensures
        layers_places(headers, count)->Ok_0[index].part_number < count,
        layers_places(headers, count)->Ok_0[index].coordinates is ScanLine
            <==> headers[layers_places(headers, count)->Ok_0[index].part_number as int].blocks is ScanLines,
    decreases count,
{
    if count > 0 {
        let front = layers_places(headers, (count - 1) as nat)->Ok_0;
        let header = headers[count - 1];
        let back = layer_places(header, (count - 1) as u32, header.chunk_count as nat)->Ok_0;
        if index < front.len() {
            lemma_places_are_of_layers(headers, (count - 1) as nat, index);
        } else {
            lemma_layer_places_len(header, (count - 1) as u32, header.chunk_count as nat);
            lemma_layer_places_are_blocks(
                header,
                (count - 1) as u32,
                header.chunk_count as nat,
                index - front.len(),
            );
        }
    }
}

/// A chunk is at least eight bytes long.
pub proof fn lemma_chunk_bytes_len(chunk: ChunkView, is_multipart: bool)
    ensures
        chunk.bytes(is_multipart).len() >= 8,
{
    let pixels = chunk.block.compressed_pixels();
    assert(i32_le(pixels.len() as i32).len() == 4);
    assert(sized_bytes(pixels).len() == 4 + pixels.len());
    match chunk.block {
        BlockView::ScanLine { y_coordinate, .. } => {
            assert(i32_le(y_coordinate).len() == 4);
        },
        BlockView::Tile { coordinates, .. } => {
            assert(i32_le(coordinates.tile_index.0).len() == 4);
        },
    }
}

/// Each chunk is at least eight bytes long, so the bytes of more chunks
/// are more.
pub proof fn lemma_chunks_bytes_grow(
    chunks: Seq<ChunkView>,
    is_multipart: bool,
    fewer: int,
    more: int,
)
    requires
        0 <= fewer <= more <= chunks.len(),
    ensures
        chunks_bytes(chunks.take(fewer), is_multipart).len() + 8 * (more - fewer) <= chunks_bytes(
            chunks.take(more),
            is_multipart,
        ).len(),
    decreases more,
{
    if fewer < more {
        lemma_chunks_bytes_grow(chunks, is_multipart, fewer, more - 1);
        lemma_chunks_bytes_around(chunks, more - 1, is_multipart);
        lemma_chunk_bytes_len(chunks[more - 1], is_multipart);
    }
}

/// The offsets of chunks that stand one after another grow from each
/// chunk to the next, where the file is no longer than a 64-bit number
/// can say.
pub proof fn lemma_chunk_offsets_increase(
    start: nat,
    chunks: Seq<ChunkView>,
    is_multipart: bool,
    low: int,
    high: int,
)
    requires
        0 <= low < high < chunks.len(),
        start + chunks_bytes(chunks, is_multipart).len() <= u64::MAX,
    ensures
        start <= chunk_offsets(start, chunks, is_multipart)[low] < chunk_offsets(
            start,
            chunks,
            is_multipart,
        )[high],
{
    lemma_chunks_bytes_grow(chunks, is_multipart, low, high);
    lemma_chunks_bytes_grow(chunks, is_multipart, high, chunks.len() as int);
    assert(chunks.take(chunks.len() as int) =~= chunks);
}

/// The table of a file that was written holds one offset for each
/// block of each layer.
pub proof fn lemma_written_table_matches_blocks(meta_data: MetaDataView, chunks: Seq<ChunkView>)
    requires
        validate_file(meta_data, chunks) is Ok,
    ensures
        chunk_offsets(
            meta_data.bytes().len() + 8 * chunks.len(),
            chunks,
            meta_data.requirements.is_multipart,
        ).len() == total_chunk_count(meta_data.headers, meta_data.headers.len()),
{
    lemma_layers_places_len(meta_data.headers, meta_data.headers.len());
    assert(places_of(chunks).len() == chunks.len());
}

/// A chunk that stands in a file behind other bytes is read at the
/// position at which these bytes end.
pub proof fn lemma_chunk_at_offset_read(
    before: Seq<u8>,
    chunk: ChunkView,
    behind: Seq<u8>,
    is_multipart: bool,
    headers: Seq<HeaderView>,
)
    requires
        before.len() <= u64::MAX,
        is_chunk_readable(chunk, is_multipart, headers),
    ensures
        read_chunk_at_spec(
            before + chunk.bytes(is_multipart) + behind,
            before.len() as u64,
            is_multipart,
            headers,
        ) == Ok::<ChunkView, Error>(chunk),
{
    let file = before + chunk.bytes(is_multipart) + behind;
    assert(file.skip(before.len() as int) =~= chunk.bytes(is_multipart) + behind);
    lemma_chunk_read_written(chunk, is_multipart, headers, behind);
}

/// Where each offset of a table is that of a chunk that can be read,
/// the chunks at the offsets of the table are these chunks.
pub proof fn lemma_table_chunks_each(
    file: Seq<u8>,
    table: Seq<u64>,
    chunks: Seq<ChunkView>,
    is_multipart: bool,
    headers: Seq<HeaderView>,
)
    requires
        table.len() == chunks.len(),
        forall|i: int|
            0 <= i < table.len() ==> read_chunk_at_spec(
                file,
                #[trigger] table[i],
                is_multipart,
                headers,
            ) == Ok::<ChunkView, Error>(chunks[i]),
    ensures
        table_chunks(file, table, is_multipart, headers) == Ok::<Seq<ChunkView>, Error>(chunks),
    decreases table.len(),
{
    if table.len() > 0 {
        let front = table.drop_last();
        assert forall|i: int| 0 <= i < front.len() implies read_chunk_at_spec(
            file,
            #[trigger] front[i],
            is_multipart,
            headers,
        ) == Ok::<ChunkView, Error>(chunks.drop_last()[i]) by {
            assert(front[i] == table[i]);
        }
        lemma_table_chunks_each(file, front, chunks.drop_last(), is_multipart, headers);
        assert(table.last() == table[table.len() - 1]);
        assert(chunks.drop_last().push(chunks.last()) =~= chunks);
    } else {
        assert(chunks =~= Seq::<ChunkView>::empty());
    }
}

/// The chunk at an offset of a file that holds the chunks one after
/// another behind other bytes is the chunk of that index.
pub proof fn lemma_chunk_at_its_offset(
    head: Seq<u8>,
    chunks: Seq<ChunkView>,
    is_multipart: bool,
    headers: Seq<HeaderView>,
    index: int,
)
    requires
        0 <= index < chunks.len(),
        head.len() + chunks_bytes(chunks, is_multipart).len() <= u64::MAX,
        is_chunk_readable(chunks[index], is_multipart, headers),
    ensures
        read_chunk_at_spec(
            head + chunks_bytes(chunks, is_multipart),
            chunk_offsets(head.len(), chunks, is_multipart)[index],
            is_multipart,
            headers,
        ) == Ok::<ChunkView, Error>(chunks[index]),
{
    let chunk = chunks[index];
    lemma_chunks_bytes_around(chunks, index, is_multipart);
    let front = chunks_bytes(chunks.take(index), is_multipart);
    let this = chunk.bytes(is_multipart);
    let behind = chunks_bytes(chunks.skip(index + 1), is_multipart);
    lemma_add_assoc(head, front + this, behind);
    lemma_add_assoc(head, front, this);
    assert(chunk_offsets(head.len(), chunks, is_multipart)[index] == (head + front).len() as u64);
    lemma_chunk_at_offset_read(head + front, chunk, behind, is_multipart, headers);
}

/// The chunks at the offsets of a file that holds the chunks one after
/// another behind other bytes are these chunks.
pub proof fn lemma_chunks_at_offsets_read(
    head: Seq<u8>,
    chunks: Seq<ChunkView>,
    is_multipart: bool,
    headers: Seq<HeaderView>,
)
    requires
        head.len() + chunks_bytes(chunks, is_multipart).len() <= u64::MAX,
        forall|i: int|
            0 <= i < chunks.len() ==> is_chunk_readable(#[trigger] chunks[i], is_multipart, headers),
    ensures
        table_chunks(
            head + chunks_bytes(chunks, is_multipart),
            chunk_offsets(head.len(), chunks, is_multipart),
            is_multipart,
            headers,
        ) == Ok::<Seq<ChunkView>, Error>(chunks),
{
    let file = head + chunks_bytes(chunks, is_multipart);
    let offsets = chunk_offsets(head.len(), chunks, is_multipart);
    assert forall|i: int| 0 <= i < offsets.len() implies read_chunk_at_spec(
        file,
        #[trigger] offsets[i],
        is_multipart,
        headers,
    ) == Ok::<ChunkView, Error>(chunks[i]) by {
        lemma_chunk_at_its_offset(head, chunks, is_multipart, headers, i);
    }
    lemma_table_chunks_each(file, offsets, chunks, is_multipart, headers);
}

/// Whether the stored bytes of each chunk are no more than the largest
/// block of its layer has pixel bytes: no reader takes more.
pub open spec fn are_chunks_within_limits(chunks: Seq<ChunkView>, headers: Seq<HeaderView>) -> bool {
    forall|i: int|
        0 <= i < chunks.len() && (#[trigger] chunks[i]).part_number < headers.len()
            ==> chunks[i].block.compressed_pixels().len()
            <= headers[chunks[i].part_number as int].max_block_byte_size()
}

/// Reading a file that was written gives back what was written: the
/// meta data with every attribute of every header, and every chunk with
/// its stored bytes, in the order in which the chunks were written.
pub proof fn lemma_file_read_written(
    meta_data: MetaDataView,
    chunks: Seq<ChunkView>,
    skip_unknown: bool,
)
    requires
        validate_file(meta_data, chunks) is Ok,
        forall|i: int|
            0 <= i < meta_data.headers.len() ==> (#[trigger] meta_data.headers[i]).is_readable(),
        are_chunks_within_limits(chunks, meta_data.headers),
        file_bytes(meta_data, chunks).len() <= u64::MAX,
    ensures
        read_file_spec(file_bytes(meta_data, chunks), skip_unknown) == Ok::<
            FileContentsView,
            Error,
        >(
            FileContentsView {
                meta_data,
                unknown_attributes: nothing_unknown(meta_data.headers.len()),
                chunks,
            },
        ),
{
    let is_multipart = meta_data.requirements.is_multipart;
    let headers = meta_data.headers;
    let places = file_places(headers)->Ok_0;
    let start = meta_data.bytes().len() + 8 * chunks.len();
    let offsets = chunk_offsets(start, chunks, is_multipart);
    let table = offset_table_bytes(offsets);
    let body = chunks_bytes(chunks, is_multipart);
    let head = meta_data.bytes() + table;
    let file = file_bytes(meta_data, chunks);
    assert(places_of(chunks) == places);
    assert(places.len() == chunks.len());
    assert forall|i: int| 0 <= i < chunks.len() implies is_chunk_readable(
        #[trigger] chunks[i],
        is_multipart,
        headers,
    ) by {
        reveal(is_chunk_readable);
        lemma_places_are_of_layers(headers, headers.len(), i);
        assert(places_of(chunks)[i] == place_of(chunks[i]));
    }
    lemma_offset_table_bytes_len(offsets);
    assert(file =~= head + body);
    assert(file =~= meta_data.bytes() + (table + body));
    lemma_meta_data_read_written(meta_data, skip_unknown, table + body);
    lemma_layers_places_len(headers, headers.len());
    assert(headers.take(headers.len() as int) =~= headers);
    lemma_offset_tables_read_written(offsets, headers, headers.len(), body);
    let tables = read_offset_tables_spec(table + body, headers)->Ok_0.0;
    lemma_tables_chunks_flat(file, tables, is_multipart, headers);
    lemma_chunks_at_offsets_read(head, chunks, is_multipart, headers);
}

/// The chunks that fill places stand at these places.
pub proof fn lemma_chunks_stand_at_places(
    parts: Seq<Part>,
    headers: Seq<HeaderView>,
    places: Seq<BlockPlace>,
)
    ensures
        chunks_at(parts, headers, places) matches Ok(chunks) ==> places_of(chunks) == places,
    decreases places.len(),
{
    if places.len() > 0 {
        lemma_chunks_stand_at_places(parts, headers, places.drop_last());
        match chunks_at(parts, headers, places.drop_last()) {
            Ok(front) => match chunk_at(parts, headers, places.last()) {
                Ok(chunk) => {
                    assert(place_of(chunk) == places.last());
                    assert(places_of(front.push(chunk)) =~= places_of(front).push(place_of(chunk)));
                    assert(places.drop_last().push(places.last()) =~= places);
                },
                Err(_) => {},
            },
            Err(_) => {},
        }
    } else {
        assert(places_of(Seq::<ChunkView>::empty()) =~= places);
    }
}

/// The chunks of an image are those of the blocks of the file, one for
/// each block of each layer and in the order of the blocks: they can be
/// written as they are.
pub proof fn lemma_image_chunks_in_place(parts: Seq<Part>, headers: Seq<HeaderView>)
    ensures
        image_chunks_spec(parts, headers) matches Ok(chunks) ==> validate_places(headers, chunks)
            is Ok && chunks.len() == total_chunk_count(headers, headers.len()),
{
    match file_places(headers) {
        Ok(places) => {
            lemma_chunks_stand_at_places(parts, headers, places);
            lemma_layers_places_len(headers, headers.len());
            match chunks_at(parts, headers, places) {
                Ok(chunks) => {
                    assert(places_of(chunks).len() == chunks.len());
                },
                Err(_) => {},
            }
        },
        Err(_) => {},
    }
}

/// The chunk that an image fills a place with holds as many pixel bytes
/// as the block has pixels, for each byte that a pixel takes in all the
/// channels together.
pub proof fn lemma_image_chunk_size(parts: Seq<Part>, headers: Seq<HeaderView>, place: BlockPlace)
    ensures
        chunk_at(parts, headers, place) matches Ok(chunk) ==> {
            let part = parts[place.part_number as int];
            let bounds = headers[place.part_number as int].bounds_of(place.coordinates)->Ok_0;
            chunk.block.compressed_pixels().len() == (bounds.size.0 * bounds.size.1) * pixel_bytes(
                part.channels@,
                part.channels@.len(),
            )
        },
{
    if chunk_at(parts, headers, place) is Ok {
        let part = parts[place.part_number as int];
        let bounds = headers[place.part_number as int].bounds_of(place.coordinates)->Ok_0;
        lemma_block_bytes_len(part, bounds, bounds.size.1 as nat);
    }
}

/// The bytes that a pixel takes in the first channels of a part are
/// those that the header of the part says.
pub proof fn lemma_pixel_bytes_of_header(channels: Seq<Channel>, count: nat)
    requires
        count <= channels.len(),
    ensures
        pixel_bytes(channels, count) == spec_bytes_per_pixel(
            inferred_channels(channels).take(count as int),
        ),
    decreases count,
{
    let listed = inferred_channels(channels);
    if count > 0 {
        lemma_pixel_bytes_of_header(channels, (count - 1) as nat);
        assert(listed.take(count as int).drop_last() =~= listed.take(count - 1));
        assert(listed.take(count as int).last() == listed[count - 1]);
    } else {
        assert(listed.take(0) =~= Seq::<ChannelView>::empty());
    }
}

/// The chunk that an image fills a place with holds no more pixel bytes
/// than the largest block of its layer, where the header of the layer
/// lists the channels of the part.
pub proof fn lemma_image_chunk_within_limit(
    parts: Seq<Part>,
    headers: Seq<HeaderView>,
    place: BlockPlace,
)
    requires
        place.part_number < parts.len() && place.part_number < headers.len()
            ==> headers[place.part_number as int].channels == inferred_channels(
            parts[place.part_number as int].channels@,
        ),
    ensures
        chunk_at(parts, headers, place) matches Ok(chunk)
            ==> chunk.block.compressed_pixels().len()
            <= headers[place.part_number as int].max_block_byte_size(),
{
    if chunk_at(parts, headers, place) is Ok {
        let part = parts[place.part_number as int];
        let header = headers[place.part_number as int];
        let bounds = header.bounds_of(place.coordinates)->Ok_0;
        let each = pixel_bytes(part.channels@, part.channels@.len());
        let largest = header.max_block_size();
        lemma_image_chunk_size(parts, headers, place);
        lemma_block_bounds_within_level(
            header,
            place.coordinates.spec_with_pixels(Seq::<u8>::empty()),
        );
        lemma_pixel_bytes_of_header(part.channels@, part.channels@.len());
        assert(header.channels.take(part.channels@.len() as int) =~= header.channels);
        assert(bounds.size.0 <= largest.0);
        assert(bounds.size.1 <= largest.1);
        assert((bounds.size.0 * bounds.size.1) * each <= (largest.0 * largest.1) * each)
            by (nonlinear_arith)
            requires
                0 <= bounds.size.0 <= largest.0,
                0 <= bounds.size.1 <= largest.1,
                0 <= each,
        ;
    }
}

/// Each of the chunks that fill places is the chunk that fills the
/// place of its index.
pub proof fn lemma_chunks_at_each(
    parts: Seq<Part>,
    headers: Seq<HeaderView>,
    places: Seq<BlockPlace>,
    index: int,
)
    requires
        chunks_at(parts, headers, places) is Ok,
        0 <= index < places.len(),
    ensures
        chunks_at(parts, headers, places)->Ok_0.len() == places.len(),
        chunk_at(parts, headers, places[index]) == Ok::<ChunkView, Error>(
            chunks_at(parts, headers, places)->Ok_0[index],
        ),
    decreases places.len(),
{
    lemma_chunks_stand_at_places(parts, headers, places);
    lemma_chunks_stand_at_places(parts, headers, places.drop_last());
    assert(places_of(chunks_at(parts, headers, places)->Ok_0).len() == places.len());
    let front = chunks_at(parts, headers, places.drop_last())->Ok_0;
    assert(places_of(front).len() == places.len() - 1);
    if index < places.len() - 1 {
        lemma_chunks_at_each(parts, headers, places.drop_last(), index);
    }
}

/// Whether each header lists the channels of the part of its index.
pub open spec fn are_channels_listed(parts: Seq<Part>, headers: Seq<HeaderView>) -> bool {
    &&& parts.len() == headers.len()
    &&& forall|i: int|
        0 <= i < headers.len() ==> (#[trigger] headers[i]).channels == inferred_channels(
            parts[i].channels@,
        )
}

/// Reading the file that holds the chunks of an image gives back the
/// meta data and every chunk of the image: the pixel bytes of every block
/// are in the file and are read as they are.
pub proof fn lemma_image_file_read_written(
    parts: Seq<Part>,
    meta_data: MetaDataView,
    skip_unknown: bool,
)
    requires
        meta_data.validate() is Ok,
        forall|i: int|
            0 <= i < meta_data.headers.len() ==> (#[trigger] meta_data.headers[i]).is_readable(),
        are_channels_listed(parts, meta_data.headers),
        image_chunks_spec(parts, meta_data.headers) is Ok,
        are_chunks_valid(image_chunks_spec(parts, meta_data.headers)->Ok_0),
        file_bytes(meta_data, image_chunks_spec(parts, meta_data.headers)->Ok_0).len() <= u64::MAX,
    ensures
        read_file_spec(
            file_bytes(meta_data, image_chunks_spec(parts, meta_data.headers)->Ok_0),
            skip_unknown,
        ) == Ok::<FileContentsView, Error>(
            FileContentsView {
                meta_data,
                unknown_attributes: nothing_unknown(meta_data.headers.len()),
                chunks: image_chunks_spec(parts, meta_data.headers)->Ok_0,
            },
        ),
{
    let headers = meta_data.headers;
    let places = file_places(headers)->Ok_0;
    let chunks = image_chunks_spec(parts, headers)->Ok_0;
    lemma_image_chunks_in_place(parts, headers);
    assert forall|i: int|
        0 <= i < chunks.len() && (#[trigger] chunks[i]).part_number
            < headers.len() implies chunks[i].block.compressed_pixels().len()
        <= headers[chunks[i].part_number as int].max_block_byte_size() by {
        lemma_chunks_at_each(parts, headers, places, i);
        lemma_image_chunk_within_limit(parts, headers, places[i]);
    }
    lemma_file_read_written(meta_data, chunks, skip_unknown);
}

/// Whether two blocks of one resolution level share no pixel: one lies
/// to the left of the other, or above it.
pub open spec fn are_blocks_apart(left: BlockBounds, right: BlockBounds) -> bool {
    ||| left.position.0 + left.size.0 <= right.position.0
    ||| right.position.0 + right.size.0 <= left.position.0
    ||| left.position.1 + left.size.1 <= right.position.1
    ||| right.position.1 + right.size.1 <= left.position.1
}

/// A row of a block shares no sample with a row of a block that lies apart.
pub proof fn lemma_rows_of_blocks_apart(
    resolution: Vec2<usize>,
    left: BlockBounds,
    right: BlockBounds,
    left_row: nat,
    right_row: nat,
)
    requires
        left.position.0 + left.size.0 <= resolution.0,
        left.position.1 + left.size.1 <= resolution.1,
        right.position.0 + right.size.0 <= resolution.0,
        right.position.1 + right.size.1 <= resolution.1,
        left_row < left.size.1,
        right_row < right.size.1,
        are_blocks_apart(left, right),
    ensures
        0 <= block_row_start(resolution, left, left_row),
        block_row_start(resolution, left, left_row) + left.size.0 <= resolution.0 * resolution.1,
        block_row_start(resolution, left, left_row) + left.size.0 <= block_row_start(
            resolution,
            right,
            right_row,
        ) || block_row_start(resolution, right, right_row) + right.size.0 <= block_row_start(
            resolution,
            left,
            left_row,
        ),
{
    let width = resolution.0 as int;
    let a = left.position.1 + left_row;
    let b = right.position.1 + right_row;
    assert(0 <= a * width) by (nonlinear_arith)
        requires
            0 <= a,
            0 <= width,
    ;
    assert(a * width + width <= width * resolution.1) by (nonlinear_arith)
        requires
            0 <= a < resolution.1,
            0 <= width,
    ;
    if a < b {
        assert(a * width + width <= b * width) by (nonlinear_arith)
            requires
                0 <= a < b,
                0 <= width,
        ;
    } else if b < a {
        assert(b * width + width <= a * width) by (nonlinear_arith)
            requires
                0 <= b < a,
                0 <= width,
        ;
    }
}

/// Samples that lie apart from every row of a block are the same after
/// the rows of the block were put into the channel.
pub proof fn lemma_samples_apart_from_block(
    samples: SamplesView,
    resolution: Vec2<usize>,
    bounds: BlockBounds,
    bytes: Seq<u8>,
    offset: nat,
    stride: nat,
    rows: nat,
    from: int,
    to: int,
)
    requires
        rows <= bounds.size.1,
        bounds.position.0 + bounds.size.0 <= resolution.0,
        bounds.position.1 + bounds.size.1 <= resolution.1,
        samples.len() == resolution.0 * resolution.1,
        0 <= from <= to <= samples.len(),
        forall|row: nat|
            row < rows ==> to <= #[trigger] block_row_start(resolution, bounds, row)
                || block_row_start(resolution, bounds, row) + bounds.size.0 <= from,
    ensures
        samples.with_block_rows(resolution, bounds, bytes, offset, stride, rows).bytes_between(
            from,
            to,
        ) == samples.bytes_between(from, to),
    decreases rows,
{
    if rows > 0 {
        let row = (rows - 1) as nat;
        lemma_samples_apart_from_block(
            samples,
            resolution,
            bounds,
            bytes,
            offset,
            stride,
            row,
            from,
            to,
        );
        samples.lemma_with_block_rows_shape(resolution, bounds, bytes, offset, stride, row);
        let before = samples.with_block_rows(resolution, bounds, bytes, offset, stride, row);
        let start = block_row_start(resolution, bounds, row);
        let y = bounds.position.1 + row;
        assert(0 <= y * resolution.0) by (nonlinear_arith)
            requires
                0 <= y,
                0 <= resolution.0,
        ;
        assert(y * resolution.0 + resolution.0 <= resolution.0 * resolution.1)
            by (nonlinear_arith)
            requires
                0 <= y < resolution.1,
                0 <= resolution.0,
        ;
        let step = offset + row * stride;
        lemma_replaced_samples_apart(
            before,
            start,
            bounds.size.0 as nat,
            bytes.subrange(
                step as int,
                step + bounds.size.0 * samples.sample_type().spec_bytes_per_sample(),
            ),
            from,
            to,
        );
    }
}

/// After a block was put into a part, the bytes of the first channels
/// in a row of a block that lies apart are what they were.
pub proof fn lemma_row_apart_unchanged(
    part: Part,
    after: Part,
    bounds: BlockBounds,
    bytes: Seq<u8>,
    apart: BlockBounds,
    row: nat,
    count: nat,
)
    requires
        part.validate_block_bytes(bounds, bytes.len()) is Ok,
        part.is_with_block(after, bounds, bytes, part.channels@.len()),
        part.validate_block(apart) is Ok,
        are_blocks_apart(apart, bounds),
        row < apart.size.1,
        count <= part.channels@.len(),
    ensures
        block_row_bytes(after.channels@, after.data_window.size, apart, row, count)
            == block_row_bytes(part.channels@, part.data_window.size, apart, row, count),
    decreases count,
{
    if count > 0 {
        let channel = (count - 1) as nat;
        lemma_row_apart_unchanged(part, after, bounds, bytes, apart, row, channel);
        let size = part.data_window.size;
        let samples = part.channels@[channel as int].samples@;
        let width = bounds.size.0 as nat;
        let stride = width * pixel_bytes(part.channels@, part.channels@.len());
        let from = block_row_start(size, apart, row);
        part.lemma_block_holds_lines(apart, row, channel);
        assert(spec_channel_resolution(size, Vec2(1usize, 1usize)) == size);
        assert forall|other: nat| other < bounds.size.1 implies from + apart.size.0
            <= #[trigger] block_row_start(size, bounds, other) || block_row_start(
            size,
            bounds,
            other,
        ) + bounds.size.0 <= from by {
            lemma_rows_of_blocks_apart(size, apart, bounds, row, other);
        }
        lemma_rows_of_blocks_apart(size, apart, bounds, row, 0);
        lemma_samples_apart_from_block(
            samples,
            size,
            bounds,
            bytes,
            width * pixel_bytes(part.channels@, channel),
            stride,
            bounds.size.1 as nat,
            from,
            from + apart.size.0,
        );
    }
}

/// After a block was put into a part, the bytes of the first rows of a
/// block that lies apart are what they were.
pub proof fn lemma_rows_apart_unchanged(
    part: Part,
    after: Part,
    bounds: BlockBounds,
    bytes: Seq<u8>,
    apart: BlockBounds,
    rows: nat,
)
    requires
        part.validate_block_bytes(bounds, bytes.len()) is Ok,
        part.is_with_block(after, bounds, bytes, part.channels@.len()),
        part.validate_block(apart) is Ok,
        are_blocks_apart(apart, bounds),
        rows <= apart.size.1,
    ensures
        block_bytes(after.channels@, after.data_window.size, apart, rows) == block_bytes(
            part.channels@,
            part.data_window.size,
            apart,
            rows,
        ),
    decreases rows,
{
    if rows > 0 {
        let row = (rows - 1) as nat;
        lemma_rows_apart_unchanged(part, after, bounds, bytes, apart, row);
        lemma_row_apart_unchanged(part, after, bounds, bytes, apart, row, part.channels@.len());
    }
}

/// Blocks do not disturb each other: after a block was put into a part,
/// the pixel bytes of every block that shares no pixel with it are what
/// they were. So the blocks of a file can be put into an image in any
/// order, and by any number of workers one after another.
pub proof fn lemma_block_apart_unchanged(
    part: Part,
    after: Part,
    bounds: BlockBounds,
    bytes: Seq<u8>,
    apart: BlockBounds,
)
    requires
        part.validate_block_bytes(bounds, bytes.len()) is Ok,
        part.is_with_block(after, bounds, bytes, part.channels@.len()),
        part.validate_block(apart) is Ok,
        are_blocks_apart(apart, bounds),
    ensures
        after.validate_block(apart) is Ok,
        block_bytes(after.channels@, after.data_window.size, apart, apart.size.1 as nat)
            == block_bytes(part.channels@, part.data_window.size, apart, apart.size.1 as nat),
{
    let channels = part.channels@;
    let size = part.data_window.size;
    let stride = bounds.size.0 as nat * pixel_bytes(channels, channels.len());
    assert forall|i: int| 0 <= i < channels.len() implies (#[trigger] after.channels@[i]).samples@.len()
        == size.0 * size.1 by {
        channels[i].samples@.lemma_with_block_rows_shape(
            size,
            bounds,
            bytes,
            bounds.size.0 as nat * pixel_bytes(channels, i as nat),
            stride,
            bounds.size.1 as nat,
        );
    }
    lemma_rows_apart_unchanged(part, after, bounds, bytes, apart, apart.size.1 as nat);
}

/// Whether each part of the chain but the first is the part in front of
/// it with a block put into it: the block of its index, with the bytes
/// of its index.
pub open spec fn are_blocks_inserted(
    chain: Seq<Part>,
    blocks: Seq<BlockBounds>,
    bytes: Seq<Seq<u8>>,
) -> bool {
    &&& chain.len() == blocks.len() + 1
    &&& bytes.len() == blocks.len()
    &&& forall|i: int|
        0 <= i < blocks.len() ==> {
            &&& (#[trigger] chain[i]).validate_block_bytes(blocks[i], bytes[i].len()) is Ok
            &&& chain[i].is_with_block(chain[i + 1], blocks[i], bytes[i], chain[i].channels@.len())
        }
}

/// Whether no two of the blocks share a pixel.
pub open spec fn are_all_apart(blocks: Seq<BlockBounds>) -> bool {
    forall|i: int, j: int|
        0 <= i < j < blocks.len() ==> are_blocks_apart(#[trigger] blocks[i], #[trigger] blocks[j])
}

/// What is put into a part block by block is in the part afterwards:
/// where no two blocks share a pixel, the pixel bytes of each block are
/// those that were put there, in whatever order the blocks came. So the
/// samples of an image that was written are those of the image that is
/// read, and they do not depend on the order in which the chunks are
/// decompressed.
pub proof fn lemma_inserted_blocks_are_extracted(
    chain: Seq<Part>,
    blocks: Seq<BlockBounds>,
    bytes: Seq<Seq<u8>>,
    count: int,
    index: int,
)
    requires
        are_blocks_inserted(chain, blocks, bytes),
        are_all_apart(blocks),
        0 <= index < count <= blocks.len(),
    ensures
        chain[count].validate_block(blocks[index]) is Ok,
        block_bytes(
            chain[count].channels@,
            chain[count].data_window.size,
            blocks[index],
            blocks[index].size.1 as nat,
        ) == bytes[index],
    decreases count,
{
    let step = count - 1;
    let before = chain[step];
    let after = chain[count];
    assert(before.validate_block_bytes(blocks[step], bytes[step].len()) is Ok);
    assert(before.is_with_block(after, blocks[step], bytes[step], before.channels@.len()));
    if index == step {
        lemma_inserted_block_is_extracted(before, after, blocks[step], bytes[step]);
    } else {
        lemma_inserted_blocks_are_extracted(chain, blocks, bytes, step, index);
        assert(are_blocks_apart(blocks[index], blocks[step]));
        lemma_block_apart_unchanged(before, after, blocks[step], bytes[step], blocks[index]);
    }
}

} // verus!
