//! The blocks of a file in their order.
//!
//! A file holds the blocks of its first layer, then those of its second
//! layer, and so on. The blocks of one layer stand from the top down, or,
//! for scan lines in decreasing order, from the bottom up. Here are the
//! list of the blocks that the layers of a file have, the chunks that an
//! image fills them with, the file that holds chunks behind the table of
//! their offsets, and the chunks that the tables of a file point at.

use vstd::prelude::*;
use crate::error::{Error, Value, Required};
use crate::io::{ByteReader, u64_le, write_u64};
use crate::file::attributes::LineOrder;
use crate::chunk::{
    BlockCoordinates, BlockView, Chunk, ChunkView, block_index_error, lemma_offset_table_bytes_len,
    offset_table_bytes, patch_offset_table, read_chunk_at, read_chunk_at_spec, read_offset_tables,
    read_offset_tables_spec, table_views,
};
use crate::meta::{BlockDescription, Header, HeaderView, MetaData};
use crate::meta::header::{
    MetaDataView, UnknownAttribute, UnknownAttributeView, header_views, unknown_views_of_each,
};
use crate::image::simple::{Image, Part, block_bytes};

verus! {

/// Which block of which layer.
#[derive(Debug, Clone, Copy, PartialEq, Eq)]
pub struct BlockPlace {
    /// The index of the layer.
    pub part_number: u32,
    /// Where the block stands in the layer.
    pub coordinates: BlockCoordinates,
}

/// Whether the blocks of a layer stand in the file from the bottom up:
/// so it is for scan lines in decreasing order. All other blocks stand
/// from the top down, and tiles level by level.
pub open spec fn is_from_the_bottom(header: HeaderView) -> bool {
    header.line_order == LineOrder::DecreasingY && header.blocks is ScanLines
}

/// Where the block stands that is at the given index in the order of
/// the file, or why the layer has no such block.
pub open spec fn spec_block_in_order(header: HeaderView, index: usize) -> Result<
    BlockCoordinates,
    Error,
> {
    if !is_from_the_bottom(header) {
        header.block_at(index)
    } else if index >= header.chunk_count {
        Err(block_index_error())
    } else {
        header.block_at((header.chunk_count - 1 - index) as usize)
    }
}

/// Where the block stands that is at the given index in the order of
/// the file: scan lines in decreasing order are counted from the bottom
/// up, all other blocks from the top down.
pub fn block_in_order(header: &Header, index: usize) -> (r: Result<BlockCoordinates, Error>)
    ensures
        r == spec_block_in_order(header@, index),
{
    let from_the_bottom = match (header.line_order, header.blocks) {
        (LineOrder::DecreasingY, BlockDescription::ScanLines) => true,
        _ => false,
    };
    if !from_the_bottom {
        header.block_at(index)
    } else if index >= header.chunk_count {
        Err(
            Error::InvalidContent {
                what: Value::Attribute("block index"),
                required: Required::Exact("less than the count of blocks"),
            },
        )
    } else {
        header.block_at(header.chunk_count - 1 - index)
    }
}

/// Where the first `count` blocks of a layer stand, in the order of the
/// file, or why one of them has no place.
pub open spec fn layer_places(header: HeaderView, part_number: u32, count: nat) -> Result<
    Seq<BlockPlace>,
    Error,
>
    decreases count,
{
    if count == 0 {
        Ok(Seq::empty())
    } else {
        match layer_places(header, part_number, (count - 1) as nat) {
            Err(e) => Err(e),
            Ok(front) => match spec_block_in_order(header, (count - 1) as usize) {
                Err(e) => Err(e),
                Ok(coordinates) => Ok(front.push(BlockPlace { part_number, coordinates })),
            },
        }
    }
}

/// Where the first blocks of a layer have no place, all of them have
/// none, and the error is the same.
pub proof fn lemma_layer_places_prefix(header: HeaderView, part_number: u32, fewer: nat, more: nat)
    requires
        fewer <= more,
    ensures
        layer_places(header, part_number, fewer) matches Err(e) ==> layer_places(
            header,
            part_number,
            more,
        ) == Err::<Seq<BlockPlace>, Error>(e),
    decreases more,
{
    if fewer < more {
        lemma_layer_places_prefix(header, part_number, fewer, (more - 1) as nat);
    }
}

/// A layer has as many places as blocks.
pub proof fn lemma_layer_places_len(header: HeaderView, part_number: u32, count: nat)
    ensures
        layer_places(header, part_number, count) matches Ok(places) ==> places.len() == count,
    decreases count,
{
    if count > 0 {
        lemma_layer_places_len(header, part_number, (count - 1) as nat);
    }
}

/// Where the blocks of the first `count` layers stand: those of the first
/// layer, then those of the second, and so on.
pub open spec fn layers_places(headers: Seq<HeaderView>, count: nat) -> Result<
    Seq<BlockPlace>,
    Error,
>
    decreases count,
{
    if count == 0 {
        Ok(Seq::empty())
    } else {
        match layers_places(headers, (count - 1) as nat) {
            Err(e) => Err(e),
            Ok(front) => match layer_places(
                headers[count - 1],
                (count - 1) as u32,
                headers[count - 1].chunk_count as nat,
            ) {
                Err(e) => Err(e),
                Ok(back) => Ok(front + back),
            },
        }
    }
}

/// Where the blocks of the first layers have no place, those of all
/// layers have none, and the error is the same.
pub proof fn lemma_layers_places_prefix(headers: Seq<HeaderView>, fewer: nat, more: nat)
    requires
        fewer <= more,
    ensures
        layers_places(headers, fewer) matches Err(e) ==> layers_places(headers, more) == Err::<
            Seq<BlockPlace>,
            Error,
        >(e),
    decreases more,
{
    if fewer < more {
        lemma_layers_places_prefix(headers, fewer, (more - 1) as nat);
    }
}

/// How many blocks the first `count` layers have together.
pub open spec fn total_chunk_count(headers: Seq<HeaderView>, count: nat) -> nat
    decreases count,
{
    if count == 0 {
        0
    } else {
        total_chunk_count(headers, (count - 1) as nat) + headers[count - 1].chunk_count as nat
    }
}

/// The layers have as many places as they have blocks together.
pub proof fn lemma_layers_places_len(headers: Seq<HeaderView>, count: nat)
    ensures
        layers_places(headers, count) matches Ok(places) ==> places.len() == total_chunk_count(
            headers,
            count,
        ),
    decreases count,
{
    if count > 0 {
        lemma_layers_places_len(headers, (count - 1) as nat);
        lemma_layer_places_len(
            headers[count - 1],
            (count - 1) as u32,
            headers[count - 1].chunk_count as nat,
        );
    }
}

/// The error for a file of more layers than a 32-bit number can index.
pub open spec fn too_many_layers_error() -> Error {
    Error::InvalidContent {
        what: Value::Attribute("headers"),
        required: Required::Max(0xFFFF_FFFF),
    }
}

/// Where the blocks of a file with the given headers stand, in the
/// order of the file.
pub open spec fn file_places(headers: Seq<HeaderView>) -> Result<Seq<BlockPlace>, Error> {
    if headers.len() > u32::MAX {
        Err(too_many_layers_error())
    } else {
        layers_places(headers, headers.len())
    }
}

/// Where the blocks of a layer stand, in the order of the file.
pub fn places_of_layer(header: &Header, part_number: u32) -> (r: Result<Vec<BlockPlace>, Error>)
    ensures
        match layer_places(header@, part_number, header.chunk_count as nat) {
            Ok(places) => r is Ok && r->Ok_0@ == places,
            Err(e) => r == Err::<Vec<BlockPlace>, Error>(e),
        },
{
    let mut places: Vec<BlockPlace> = Vec::new();
    let mut index: usize = 0;
    while index < header.chunk_count
        invariant
            index <= header.chunk_count,
            layer_places(header@, part_number, index as nat) == Ok::<Seq<BlockPlace>, Error>(
                places@,
            ),
        decreases header.chunk_count - index,
    {
        proof {
            lemma_layer_places_prefix(
                header@,
                part_number,
                (index + 1) as nat,
                header.chunk_count as nat,
            );
        }
        let coordinates = block_in_order(header, index)?;
        places.push(BlockPlace { part_number, coordinates });
        index = index + 1;
    }
    Ok(places)
}

/// Where the blocks of a file with the given headers stand, in the
/// order of the file: the blocks of the first layer, then those of the
/// second, and so on.
pub fn block_places(headers: &[Header]) -> (r: Result<Vec<BlockPlace>, Error>)
    ensures
        match file_places(header_views(headers@)) {
            Ok(places) => r is Ok && r->Ok_0@ == places,
            Err(e) => r == Err::<Vec<BlockPlace>, Error>(e),
        },
{
    if headers.len() > u32::MAX as usize {
        return Err(
            Error::InvalidContent {
                what: Value::Attribute("headers"),
                required: Required::Max(0xFFFF_FFFF),
            },
        );
    }
    let ghost views = header_views(headers@);
    let mut places: Vec<BlockPlace> = Vec::new();
    let mut index: usize = 0;
    while index < headers.len()
        invariant
            index <= headers@.len() <= u32::MAX,
            views == header_views(headers@),
            layers_places(views, index as nat) == Ok::<Seq<BlockPlace>, Error>(places@),
        decreases headers@.len() - index,
    {
        proof {
            lemma_layers_places_prefix(views, (index + 1) as nat, headers@.len());
            assert(views[index as int] == headers@[index as int]@);
        }
        let mut more = places_of_layer(&headers[index], index as u32)?;
        places.append(&mut more);
        index = index + 1;
    }
    Ok(places)
}

/// The views of the chunks of a vector.
pub open spec fn chunk_views(chunks: Seq<Chunk>) -> Seq<ChunkView> {
    Seq::new(chunks.len(), |i: int| chunks[i]@)
}

/// The chunk that fills a place with the pixel bytes of an image, or
/// why the image has no pixels for that place.
pub open spec fn chunk_at(parts: Seq<Part>, headers: Seq<HeaderView>, place: BlockPlace) -> Result<
    ChunkView,
    Error,
> {
    if place.part_number >= headers.len() {
        Err(Error::InvalidPartIndex)
    } else {
        match headers[place.part_number as int].bounds_of(place.coordinates) {
            Err(e) => Err(e),
            Ok(bounds) => if place.part_number >= parts.len() {
                Err(Error::InvalidPartIndex)
            } else {
                let part = parts[place.part_number as int];
                match part.validate_block(bounds) {
                    Err(e) => Err(e),
                    Ok(_) => Ok(
                        ChunkView {
                            part_number: place.part_number,
                            block: place.coordinates.spec_with_pixels(
                                block_bytes(
                                    part.channels@,
                                    part.data_window.size,
                                    bounds,
                                    bounds.size.1 as nat,
                                ),
                            ),
                        },
                    ),
                }
            },
        }
    }
}

/// The chunks that fill the places with the pixel bytes of an image, or
/// why the image has no pixels for the first place for which it has none.
pub open spec fn chunks_at(parts: Seq<Part>, headers: Seq<HeaderView>, places: Seq<BlockPlace>)
    -> Result<Seq<ChunkView>, Error>
    decreases places.len(),
{
    if places.len() == 0 {
        Ok(Seq::empty())
    } else {
        match chunks_at(parts, headers, places.drop_last()) {
            Err(e) => Err(e),
            Ok(front) => match chunk_at(parts, headers, places.last()) {
                Err(e) => Err(e),
                Ok(chunk) => Ok(front.push(chunk)),
            },
        }
    }
}

/// Where an image has no pixels for one of the first places, the error
/// for all places is the same.
pub proof fn lemma_chunks_at_prefix(
    parts: Seq<Part>,
    headers: Seq<HeaderView>,
    places: Seq<BlockPlace>,
    count: int,
)
    requires
        0 <= count <= places.len(),
    ensures
        chunks_at(parts, headers, places.take(count)) matches Err(e) ==> chunks_at(
            parts,
            headers,
            places,
        ) == Err::<Seq<ChunkView>, Error>(e),
    decreases places.len() - count,
{
    if count < places.len() {
        lemma_chunks_at_prefix(parts, headers, places, count + 1);
        assert(places.take(count + 1).drop_last() =~= places.take(count));
    } else {
        assert(places.take(count) =~= places);
    }
}

/// The chunks of an image in a file with the given headers, or why the
/// image cannot stand in such a file.
pub open spec fn image_chunks_spec(parts: Seq<Part>, headers: Seq<HeaderView>) -> Result<
    Seq<ChunkView>,
    Error,
> {
    match file_places(headers) {
        Err(e) => Err(e),
        Ok(places) => chunks_at(parts, headers, places),
    }
}

/// The chunk that fills a place with the pixel bytes of an image, not
/// compressed.
pub fn chunk_of(image: &Image, headers: &[Header], place: BlockPlace) -> (r: Result<Chunk, Error>)
    ensures
        match chunk_at(image.parts@, header_views(headers@), place) {
            Ok(chunk) => r is Ok && r->Ok_0@ == chunk,
            Err(e) => r == Err::<Chunk, Error>(e),
        },
{
    if place.part_number as usize >= headers.len() {
        return Err(Error::InvalidPartIndex);
    }
    let header = &headers[place.part_number as usize];
    proof {
        assert(header_views(headers@)[place.part_number as int] == header@);
    }
    let bounds = header.bounds_of(place.coordinates)?;
    let mut pixels: Vec<u8> = Vec::new();
    image.extract_block(place.part_number as usize, bounds, &mut pixels)?;
    proof {
        let part = image.parts@[place.part_number as int];
        assert(pixels@ =~= block_bytes(
            part.channels@,
            part.data_window.size,
            bounds,
            bounds.size.1 as nat,
        ));
    }
    Ok(Chunk { part_number: place.part_number, block: place.coordinates.with_pixels(pixels) })
}

/// The chunks of an image in a file with the given headers, in the
/// order of the file, each with its pixel bytes not compressed: row after
/// row, and in each row channel after channel. Fails where a block of a
/// header does not lie within its part of the image.
pub fn image_chunks(image: &Image, headers: &[Header]) -> (r: Result<Vec<Chunk>, Error>)
    ensures
        match image_chunks_spec(image.parts@, header_views(headers@)) {
            Ok(chunks) => r is Ok && chunk_views(r->Ok_0@) == chunks,
            Err(e) => r == Err::<Vec<Chunk>, Error>(e),
        },
{
    let places = block_places(headers)?;
    let ghost views = header_views(headers@);
    let mut chunks: Vec<Chunk> = Vec::new();
    let mut index: usize = 0;
    proof {
        assert(places@.take(0) =~= Seq::<BlockPlace>::empty());
        assert(chunk_views(chunks@) =~= Seq::<ChunkView>::empty());
    }
    while index < places.len()
        invariant
            index <= places@.len(),
            views == header_views(headers@),
            file_places(views) == Ok::<Seq<BlockPlace>, Error>(places@),
            chunks_at(image.parts@, views, places@.take(index as int)) == Ok::<
                Seq<ChunkView>,
                Error,
            >(chunk_views(chunks@)),
        decreases places@.len() - index,
    {
        proof {
            lemma_chunks_at_prefix(image.parts@, views, places@, index + 1);
            assert(places@.take(index + 1).drop_last() =~= places@.take(index as int));
        }
        let ghost before = chunk_views(chunks@);
        let chunk = chunk_of(image, headers, places[index])?;
        chunks.push(chunk);
        index = index + 1;
        proof {
            assert(chunk_views(chunks@) =~= before.push(chunk@));
        }
    }
    proof {
        assert(places@.take(index as int) =~= places@);
    }
    Ok(chunks)
}

/// Where the block of a chunk stands.
pub open spec fn place_of(chunk: ChunkView) -> BlockPlace {
    BlockPlace {
        part_number: chunk.part_number,
        coordinates: match chunk.block {
            BlockView::ScanLine { y_coordinate, .. } => BlockCoordinates::ScanLine { y_coordinate },
            BlockView::Tile { coordinates, .. } => BlockCoordinates::Tile(coordinates),
        },
    }
}

/// Where the blocks of the chunks stand.
pub open spec fn places_of(chunks: Seq<ChunkView>) -> Seq<BlockPlace> {
    Seq::new(chunks.len(), |i: int| place_of(chunks[i]))
}

/// The error for chunks that are not those of the blocks of the file,
/// one for each and in their order.
pub open spec fn chunk_place_error() -> Error {
    Error::InvalidContent {
        what: Value::Attribute("chunks"),
        required: Required::Exact("one chunk for each block, in the order of the blocks"),
    }
}

/// What is wrong with the chunks as those of a file with the given
/// headers, if anything: a block of a header has no place, or the chunks
/// are not those of the blocks of the file, one for each and in their order.
pub open spec fn validate_places(headers: Seq<HeaderView>, chunks: Seq<ChunkView>) -> Result<
    (),
    Error,
> {
    match file_places(headers) {
        Err(e) => Err(e),
        Ok(places) => if places_of(chunks) != places {
            Err(chunk_place_error())
        } else {
            Ok(())
        },
    }
}

/// Whether two blocks stand at the same coordinates.
fn same_coordinates(left: BlockCoordinates, right: BlockCoordinates) -> (r: bool)
    ensures
        r == (left == right),
{
    match (left, right) {
        (
            BlockCoordinates::ScanLine { y_coordinate: left },
            BlockCoordinates::ScanLine { y_coordinate: right },
        ) => left == right,
        (BlockCoordinates::Tile(left), BlockCoordinates::Tile(right)) => left.tile_index.0
            == right.tile_index.0 && left.tile_index.1 == right.tile_index.1
            && left.level_index.0 == right.level_index.0 && left.level_index.1
            == right.level_index.1,
        _ => false,
    }
}

/// Says whether the chunks are those of the blocks of a file with the
/// given headers, one for each and in their order.
pub fn check_places(headers: &[Header], chunks: &[Chunk]) -> (r: Result<(), Error>)
    ensures
        r == validate_places(header_views(headers@), chunk_views(chunks@)),
{
    let places = block_places(headers)?;
    let ghost views = chunk_views(chunks@);
    if places.len() != chunks.len() {
        return Err(
            Error::InvalidContent {
                what: Value::Attribute("chunks"),
                required: Required::Exact("one chunk for each block, in the order of the blocks"),
            },
        );
    }
    let mut index: usize = 0;
    while index < chunks.len()
        invariant
            index <= chunks@.len(),
            places@.len() == chunks@.len(),
            views == chunk_views(chunks@),
            file_places(header_views(headers@)) == Ok::<Seq<BlockPlace>, Error>(places@),
            forall|i: int| 0 <= i < index ==> places_of(views)[i] == places@[i],
        decreases chunks@.len() - index,
    {
        let chunk = &chunks[index];
        let place = places[index];
        let coordinates = chunk.block.coordinates();
        proof {
            assert(views[index as int] == chunk@);
            assert(place_of(chunk@).coordinates == coordinates);
        }
        if chunk.part_number != place.part_number || !same_coordinates(
            coordinates,
            place.coordinates,
        ) {
            proof {
                assert(places_of(views)[index as int] != places@[index as int]);
            }
            return Err(
                Error::InvalidContent {
                    what: Value::Attribute("chunks"),
                    required: Required::Exact(
                        "one chunk for each block, in the order of the blocks",
                    ),
                },
            );
        }
        index = index + 1;
    }
    proof {
        assert(places_of(views) =~= places@);
    }
    Ok(())
}

/// The bytes of chunks one after another.
pub open spec fn chunks_bytes(chunks: Seq<ChunkView>, is_multipart: bool) -> Seq<u8>
    decreases chunks.len(),
{
    if chunks.len() == 0 {
        Seq::empty()
    } else {
        chunks_bytes(chunks.drop_last(), is_multipart) + chunks.last().bytes(is_multipart)
    }
}

/// The position of each chunk, where the chunks stand one after
/// another from the position `start` on.
pub open spec fn chunk_offsets(start: nat, chunks: Seq<ChunkView>, is_multipart: bool) -> Seq<u64> {
    Seq::new(
        chunks.len(),
        |i: int| (start + chunks_bytes(chunks.take(i), is_multipart).len()) as u64,
    )
}

/// Whether the stored bytes of each chunk are no more than a signed
/// 32-bit number can say.
pub open spec fn are_chunks_valid(chunks: Seq<ChunkView>) -> bool {
    forall|i: int| 0 <= i < chunks.len() ==> (#[trigger] chunks[i]).validate() is Ok
}

/// What is wrong with a file of the given meta data and chunks, if
/// anything: first with the meta data, then with the places of the
/// chunks, then with the sizes of the chunks.
pub open spec fn validate_file(meta_data: MetaDataView, chunks: Seq<ChunkView>) -> Result<
    (),
    Error,
> {
    match meta_data.validate() {
        Err(e) => Err(e),
        Ok(_) => match validate_places(meta_data.headers, chunks) {
            Err(e) => Err(e),
            Ok(_) => if are_chunks_valid(chunks) {
                Ok(())
            } else {
                Err(Error::InvalidSize)
            },
        },
    }
}

/// The bytes of a file: the meta data, the table of the offsets of the
/// chunks, and the chunks one after another.
pub open spec fn file_bytes(meta_data: MetaDataView, chunks: Seq<ChunkView>) -> Seq<u8> {
    let is_multipart = meta_data.requirements.is_multipart;
    let start = meta_data.bytes().len() + 8 * chunks.len();
    meta_data.bytes() + offset_table_bytes(chunk_offsets(start, chunks, is_multipart))
        + chunks_bytes(chunks, is_multipart)
}

/// Appends as many zero bytes as a table of `count` offsets takes.
fn reserve_offset_table(file: &mut Vec<u8>, count: usize)
    ensures
        final(file)@.len() == old(file)@.len() + 8 * count,
        final(file)@.take(old(file)@.len() as int) == old(file)@,
{
    let mut index: usize = 0;
    while index < count
        invariant
            index <= count,
            file@.len() == old(file)@.len() + 8 * index,
            file@.take(old(file)@.len() as int) == old(file)@,
        decreases count - index,
    {
        let ghost before = file@;
        write_u64(file, 0);
        index = index + 1;
        proof {
            assert(u64_le(0).len() == 8);
            assert(file@.take(old(file)@.len() as int) =~= before.take(old(file)@.len() as int));
        }
    }
}

/// The file that holds the meta data, the table of the offsets of the
/// chunks, and the chunks one after another. Space is kept for the
/// table first; the offsets are put there when all chunks are written.
/// Fails where the meta data are not valid, where the chunks are not
/// those of the blocks of the headers, one for each and in their order,
/// or where a chunk is not valid.
pub fn write_file(meta_data: &MetaData, chunks: &[Chunk]) -> (r: Result<Vec<u8>, Error>)
    ensures
        match validate_file(meta_data@, chunk_views(chunks@)) {
            Ok(_) => r is Ok && r->Ok_0@ == file_bytes(meta_data@, chunk_views(chunks@)),
            Err(e) => r == Err::<Vec<u8>, Error>(e),
        },
{
    let ghost views = chunk_views(chunks@);
    let is_multipart = meta_data.requirements.is_multipart;
    let mut file: Vec<u8> = Vec::new();
    meta_data.write(&mut file)?;
    check_places(&meta_data.headers, chunks)?;
    let table_start = file.len();
    reserve_offset_table(&mut file, chunks.len());
    let chunks_start = file.len();
    let ghost head = file@;
    let mut offsets: Vec<u64> = Vec::new();
    let mut index: usize = 0;
    proof {
        assert(meta_data@.bytes() =~= Seq::<u8>::empty() + meta_data@.bytes());
        assert(views.take(0) =~= Seq::<ChunkView>::empty());
        assert(file@ =~= head + chunks_bytes(views.take(0), is_multipart));
    }
    while index < chunks.len()
        invariant
            index <= chunks@.len(),
            views == chunk_views(chunks@),
            is_multipart == meta_data.requirements.is_multipart,
            meta_data@.validate() is Ok,
            validate_places(meta_data@.headers, views) is Ok,
            head.len() == chunks_start == table_start + 8 * chunks@.len(),
            file@ == head + chunks_bytes(views.take(index as int), is_multipart),
            are_chunks_valid(views.take(index as int)),
            offsets@.len() == index,
            forall|i: int|
                0 <= i < index ==> (#[trigger] offsets@[i]) == (chunks_start + chunks_bytes(
                    views.take(i),
                    is_multipart,
                ).len()) as u64,
        decreases chunks@.len() - index,
    {
        let position = file.len();
        let ghost before = file@;
        proof {
            assert(views[index as int] == chunks@[index as int]@);
            assert(views.take(index + 1).drop_last() =~= views.take(index as int));
        }
        chunks[index].write(&mut file, is_multipart)?;
        offsets.push(position as u64);
        index = index + 1;
        proof {
            assert(file@ =~= head + chunks_bytes(views.take(index as int), is_multipart));
            assert forall|i: int| 0 <= i < index implies (#[trigger] views.take(
                index as int,
            )[i]).validate() is Ok by {
                if i < index - 1 {
                    assert(views.take(index - 1)[i].validate() is Ok);
                }
            }
        }
    }
    proof {
        assert(views.take(index as int) =~= views);
        assert(offsets@ =~= chunk_offsets(chunks_start as nat, views, is_multipart));
        lemma_offset_table_bytes_len(offsets@);
    }
    let ghost body = file@;
    let patched = patch_offset_table(&mut file, table_start, &offsets);
    proof {
        assert(patched is Ok);
        assert(head.take(table_start as int) == meta_data@.bytes());
        assert(body.take(table_start as int) =~= meta_data@.bytes());
        assert(body.skip(table_start + 8 * offsets@.len()) =~= chunks_bytes(views, is_multipart));
        assert(file@ =~= file_bytes(meta_data@, views));
    }
    Ok(file)
}

/// The chunks at the offsets of a table, or why the first one that
/// cannot be read cannot be read.
pub open spec fn table_chunks(
    file: Seq<u8>,
    table: Seq<u64>,
    is_multipart: bool,
    headers: Seq<HeaderView>,
) -> Result<Seq<ChunkView>, Error>
    decreases table.len(),
{
    if table.len() == 0 {
        Ok(Seq::empty())
    } else {
        match table_chunks(file, table.drop_last(), is_multipart, headers) {
            Err(e) => Err(e),
            Ok(front) => match read_chunk_at_spec(file, table.last(), is_multipart, headers) {
                Err(e) => Err(e),
                Ok(chunk) => Ok(front.push(chunk)),
            },
        }
    }
}

/// Where a chunk at one of the first offsets cannot be read, the error
/// for the whole table is the same.
pub proof fn lemma_table_chunks_prefix(
    file: Seq<u8>,
    table: Seq<u64>,
    is_multipart: bool,
    headers: Seq<HeaderView>,
    count: int,
)
    requires
        0 <= count <= table.len(),
    ensures
        table_chunks(file, table.take(count), is_multipart, headers) matches Err(e)
            ==> table_chunks(file, table, is_multipart, headers) == Err::<Seq<ChunkView>, Error>(
            e,
        ),
    decreases table.len() - count,
{
    if count < table.len() {
        lemma_table_chunks_prefix(file, table, is_multipart, headers, count + 1);
        assert(table.take(count + 1).drop_last() =~= table.take(count));
    } else {
        assert(table.take(count) =~= table);
    }
}

/// The chunks at the offsets of the tables: those of the first table,
/// then those of the second, and so on.
pub open spec fn tables_chunks(
    file: Seq<u8>,
    tables: Seq<Seq<u64>>,
    is_multipart: bool,
    headers: Seq<HeaderView>,
) -> Result<Seq<ChunkView>, Error>
    decreases tables.len(),
{
    if tables.len() == 0 {
        Ok(Seq::empty())
    } else {
        match tables_chunks(file, tables.drop_last(), is_multipart, headers) {
            Err(e) => Err(e),
            Ok(front) => match table_chunks(file, tables.last(), is_multipart, headers) {
                Err(e) => Err(e),
                Ok(back) => Ok(front + back),
            },
        }
    }
}

/// Where a chunk of one of the first tables cannot be read, the error
/// for all tables is the same.
pub proof fn lemma_tables_chunks_prefix(
    file: Seq<u8>,
    tables: Seq<Seq<u64>>,
    is_multipart: bool,
    headers: Seq<HeaderView>,
    count: int,
)
    requires
        0 <= count <= tables.len(),
    ensures
        tables_chunks(file, tables.take(count), is_multipart, headers) matches Err(e)
            ==> tables_chunks(file, tables, is_multipart, headers) == Err::<
            Seq<ChunkView>,
            Error,
        >(e),
    decreases tables.len() - count,
{
    if count < tables.len() {
        lemma_tables_chunks_prefix(file, tables, is_multipart, headers, count + 1);
        assert(tables.take(count + 1).drop_last() =~= tables.take(count));
    } else {
        assert(tables.take(count) =~= tables);
    }
}

/// Reads the chunks at the offsets of a table, in the order of the table.
pub fn read_table_chunks(file: &[u8], table: &[u64], is_multipart: bool, headers: &[Header]) -> (r:
    Result<Vec<Chunk>, Error>)
    ensures
        match table_chunks(file@, table@, is_multipart, header_views(headers@)) {
            Ok(chunks) => r is Ok && chunk_views(r->Ok_0@) == chunks,
            Err(e) => r == Err::<Vec<Chunk>, Error>(e),
        },
{
    let ghost views = header_views(headers@);
    let mut chunks: Vec<Chunk> = Vec::new();
    let mut index: usize = 0;
    proof {
        assert(table@.take(0) =~= Seq::<u64>::empty());
        assert(chunk_views(chunks@) =~= Seq::<ChunkView>::empty());
    }
    while index < table.len()
        invariant
            index <= table@.len(),
            views == header_views(headers@),
            table_chunks(file@, table@.take(index as int), is_multipart, views) == Ok::<
                Seq<ChunkView>,
                Error,
            >(chunk_views(chunks@)),
        decreases table@.len() - index,
    {
        proof {
            lemma_table_chunks_prefix(file@, table@, is_multipart, views, index + 1);
            assert(table@.take(index + 1).drop_last() =~= table@.take(index as int));
        }
        let ghost before = chunk_views(chunks@);
        let chunk = read_chunk_at(file, table[index], is_multipart, headers)?;
        chunks.push(chunk);
        index = index + 1;
        proof {
            assert(chunk_views(chunks@) =~= before.push(chunk@));
        }
    }
    proof {
        assert(table@.take(index as int) =~= table@);
    }
    Ok(chunks)
}

/// Reads the chunks at the offsets of the tables of a file: those of
/// the first table, then those of the second, and so on. Fails where a
/// chunk cannot be read; no chunk is returned then.
pub fn read_chunks(file: &[u8], tables: &[Vec<u64>], is_multipart: bool, headers: &[Header]) -> (r:
    Result<Vec<Chunk>, Error>)
    ensures
        match tables_chunks(file@, table_views(tables@), is_multipart, header_views(headers@)) {
            Ok(chunks) => r is Ok && chunk_views(r->Ok_0@) == chunks,
            Err(e) => r == Err::<Vec<Chunk>, Error>(e),
        },
{
    let ghost views = header_views(headers@);
    let ghost offsets = table_views(tables@);
    let mut chunks: Vec<Chunk> = Vec::new();
    let mut index: usize = 0;
    proof {
        assert(offsets.take(0) =~= Seq::<Seq<u64>>::empty());
        assert(chunk_views(chunks@) =~= Seq::<ChunkView>::empty());
    }
    while index < tables.len()
        invariant
            index <= tables@.len(),
            views == header_views(headers@),
            offsets == table_views(tables@),
            tables_chunks(file@, offsets.take(index as int), is_multipart, views) == Ok::<
                Seq<ChunkView>,
                Error,
            >(chunk_views(chunks@)),
        decreases tables@.len() - index,
    {
        proof {
            lemma_tables_chunks_prefix(file@, offsets, is_multipart, views, index + 1);
            assert(offsets.take(index + 1).drop_last() =~= offsets.take(index as int));
            assert(offsets.take(index + 1).last() == tables@[index as int]@);
        }
        let ghost before = chunk_views(chunks@);
        let mut more = read_table_chunks(file, tables[index].as_slice(), is_multipart, headers)?;
        let ghost back = chunk_views(more@);
        chunks.append(&mut more);
        index = index + 1;
        proof {
            assert(chunk_views(chunks@) =~= before + back);
        }
    }
    proof {
        assert(offsets.take(index as int) =~= offsets);
    }
    Ok(chunks)
}

/// What a file holds: its meta data, the attributes of unknown types
/// that were passed over in each header, and its chunks in the order of
/// the tables of their offsets.
#[derive(Debug, PartialEq, Eq)]
pub struct FileContents {
    /// What the file says before its pixels.
    pub meta_data: MetaData,
    /// The attributes of unknown types that were passed over, for each header.
    pub unknown_attributes: Vec<Vec<UnknownAttribute>>,
    /// The chunks, in the order of the tables of their offsets.
    pub chunks: Vec<Chunk>,
}

/// What a file holds, as plain values.
pub struct FileContentsView {
    pub meta_data: MetaDataView,
    pub unknown_attributes: Seq<Seq<UnknownAttributeView>>,
    pub chunks: Seq<ChunkView>,
}

impl View for FileContents {
    type V = FileContentsView;

    open spec fn view(&self) -> FileContentsView {
        FileContentsView {
            meta_data: self.meta_data@,
            unknown_attributes: unknown_views_of_each(self.unknown_attributes@),
            chunks: chunk_views(self.chunks@),
        }
    }
}

/// Reading a file: the meta data, the tables of offsets behind them,
/// and the chunk at each offset. The first thing that cannot be read
/// gives the error.
pub open spec fn read_file_spec(file: Seq<u8>, skip_unknown: bool) -> Result<
    FileContentsView,
    Error,
> {
    match MetaDataView::read_spec(file, skip_unknown) {
        Err(e) => Err(e),
        Ok(((meta_data, unknown_attributes), rest)) => match read_offset_tables_spec(
            rest,
            meta_data.headers,
        ) {
            Err(e) => Err(e),
            Ok((tables, _)) => match tables_chunks(
                file,
                tables,
                meta_data.requirements.is_multipart,
                meta_data.headers,
            ) {
                Err(e) => Err(e),
                Ok(chunks) => Ok(FileContentsView { meta_data, unknown_attributes, chunks }),
            },
        },
    }
}

/// Reads a file: the meta data, the tables of offsets behind them, and
/// the chunk at each offset. Attributes of a type that is not known are
/// passed over and returned where `skip_unknown` is set, and are an error
/// where it is not. Nothing is returned of a file of which a part cannot
/// be read.
pub fn read_file(file: &[u8], skip_unknown: bool) -> (r: Result<FileContents, Error>)
    ensures
        match read_file_spec(file@, skip_unknown) {
            Ok(contents) => r is Ok && r->Ok_0@ == contents,
            Err(e) => r == Err::<FileContents, Error>(e),
        },
{
    let mut read = ByteReader::new(file);
    let (meta_data, unknown_attributes) = MetaData::read(&mut read, skip_unknown)?;
    let tables = read_offset_tables(&mut read, &meta_data.headers)?;
    let chunks = read_chunks(
        file,
        tables.as_slice(),
        meta_data.requirements.is_multipart,
        meta_data.headers.as_slice(),
    )?;
    Ok(FileContents { meta_data, unknown_attributes, chunks })
}

} // verus!
