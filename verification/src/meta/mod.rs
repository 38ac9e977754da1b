//! What a file says about itself before its pixels: the capabilities that
//! it asks of a reader, the header of each layer, and the numbers that follow
//! from them, such as the sizes of the resolution levels and the count of
//! the blocks.

pub mod header;

use vstd::prelude::*;
use crate::error::{Error, Value, Required};
use crate::math::{Vec2, IntRect};
use crate::compression::Compression;
use crate::io::{ByteReader, Parsed, reads, u32_le, u32_from_le, write_u8, write_u32};
use crate::file::attributes::{
    Attribute, AttributeView, ChannelList, ChannelView, LevelMode, LineOrder, RoundingMode, Text,
    TileDescription, attribute_views, name_view,
};

verus! {

/// Two to the power of `exponent`.
pub open spec fn power_of_two(exponent: nat) -> nat
    decreases exponent,
{
    if exponent == 0 {
        1
    } else {
        2 * power_of_two((exponent - 1) as nat)
    }
}

/// The logarithm to the base two, rounded down; zero for zero.
pub open spec fn floor_log2(number: nat) -> nat
    decreases number,
{
    if number <= 1 {
        0
    } else {
        1 + floor_log2(number / 2)
    }
}

/// The logarithm to the base two, rounded up; zero for zero.
pub open spec fn ceil_log2(number: nat) -> nat
    decreases number,
{
    if number <= 1 {
        0
    } else {
        1 + ceil_log2((number + 1) / 2)
    }
}

/// A power of two is at least one, and a greater exponent gives no smaller power.
pub proof fn lemma_power_of_two_grows(low: nat, high: nat)
    requires
        low <= high,
    ensures
        1 <= power_of_two(low) <= power_of_two(high),
    decreases high,
{
    if low < high {
        lemma_power_of_two_grows(low, (high - 1) as nat);
    } else if low > 0 {
        lemma_power_of_two_grows((low - 1) as nat, (high - 1) as nat);
    }
}

/// The logarithm rounded down is the greatest exponent whose power is not
/// above the number; the logarithm rounded up is the least whose power is
/// not below it.
pub proof fn lemma_log2_bounds(number: nat)
    requires
        number >= 1,
    ensures
        power_of_two(floor_log2(number)) <= number < 2 * power_of_two(floor_log2(number)),
        number <= power_of_two(ceil_log2(number)),
        number > 1 ==> power_of_two((ceil_log2(number) - 1) as nat) < number,
    decreases number,
{
    if number > 1 {
        lemma_log2_bounds(number / 2);
        lemma_log2_bounds((number + 1) / 2);
    }
}

/// How many resolution levels an axis of the given length has.
pub open spec fn spec_level_count(round: RoundingMode, full_res: nat) -> nat {
    1 + match round {
        RoundingMode::Down => floor_log2(full_res),
        RoundingMode::Up => ceil_log2(full_res),
    }
}

/// The length of an axis at the given level: the full length divided by
/// two to the power of the level and rounded, but at least one.
pub open spec fn spec_level_size(round: RoundingMode, full_res: nat, level_index: nat) -> nat {
    let size = round.spec_divide(full_res, power_of_two(level_index));
    if size < 1 {
        1
    } else {
        size
    }
}

/// How many blocks of the given length it takes to cover an axis.
pub open spec fn spec_block_count(full_res: nat, block_size: nat) -> nat
    recommends
        block_size > 0,
{
    RoundingMode::Up.spec_divide(full_res, block_size)
}

/// The length of the block at `block_position` along an axis of length
/// `total_size`: `block_size`, or what is left of the axis where that is less.
pub open spec fn spec_block_size(total_size: nat, block_size: nat, block_position: nat) -> nat
    recommends
        block_position < total_size,
{
    if block_position + block_size <= total_size {
        block_size
    } else {
        (total_size - block_position) as nat
    }
}

/// The logarithm to the base two, rounded down.
pub fn floor_log_2(number: usize) -> (r: usize)
    ensures
        r == floor_log2(number as nat),
        r < number || number == 0,
{
    let mut log: usize = 0;
    let mut rest: usize = number;
    while rest > 1
        invariant
            floor_log2(number as nat) == log + floor_log2(rest as nat),
            log + rest <= number,
            rest >= 1 || number == 0,
        decreases rest,
    {
        log = log + 1;
        rest = rest / 2;
    }
    log
}

/// The logarithm to the base two, rounded up.
pub fn ceil_log_2(number: usize) -> (r: usize)
    ensures
        r == ceil_log2(number as nat),
        r < number || number == 0,
{
    let mut log: usize = 0;
    let mut rest: usize = number;
    while rest > 1
        invariant
            ceil_log2(number as nat) == log + ceil_log2(rest as nat),
            log + rest <= number,
            rest >= 1 || number == 0,
        decreases rest,
    {
        log = log + 1;
        rest = rest / 2 + rest % 2;
    }
    log
}

/// The quotient, rounded down or up to a whole number.
pub fn divide(round: RoundingMode, dividend: usize, divisor: usize) -> (r: usize)
    requires
        divisor != 0,
    ensures
        r == round.spec_divide(dividend as nat, divisor as nat),
{
    let result = dividend / divisor;
    match round {
        RoundingMode::Up => {
            if dividend % divisor != 0 {
                assert(result < usize::MAX) by (nonlinear_arith)
                    requires
                        result == dividend / divisor,
                        dividend % divisor != 0,
                        divisor != 0,
                        dividend <= usize::MAX,
                {
                    if divisor == 1 {
                        assert(dividend % 1 == 0);
                    } else {
                        assert(dividend / divisor <= dividend / 2);
                    }
                }
                result + 1
            } else {
                result
            }
        },
        RoundingMode::Down => result,
    }
}

/// How many resolution levels an axis of the given length has.
pub fn compute_level_count(round: RoundingMode, full_res: usize) -> (r: usize)
    ensures
        r == spec_level_count(round, full_res as nat),
{
    match round {
        RoundingMode::Down => floor_log_2(full_res) + 1,
        RoundingMode::Up => ceil_log_2(full_res) + 1,
    }
}

/// The length of an axis at the given level.
pub fn compute_level_size(round: RoundingMode, full_res: usize, level_index: usize) -> (r: usize)
    ensures
        r == spec_level_size(round, full_res as nat, level_index as nat),
        r >= 1,
{
    let mut power: usize = 1;
    let mut index: usize = 0;
    while index < level_index
        invariant
            index <= level_index,
            power == power_of_two(index as nat),
            power >= 1,
        decreases level_index - index,
    {
        if power > full_res / 2 {
            proof {
                lemma_power_of_two_grows((index + 1) as nat, level_index as nat);
                let divisor = power_of_two(level_index as nat);
                assert(divisor > full_res);
                assert(full_res as nat / divisor == 0) by {
                    vstd::arithmetic::div_mod::lemma_basic_div(full_res as int, divisor as int);
                }
                assert(full_res as nat % divisor == full_res) by {
                    vstd::arithmetic::div_mod::lemma_small_mod(full_res as nat, divisor);
                }
            }
            return 1;
        }
        power = power * 2;
        index = index + 1;
    }
    let size = divide(round, full_res, power);
    if size < 1 {
        1
    } else {
        size
    }
}

/// How many blocks of the given length it takes to cover an axis.
pub fn compute_block_count(full_res: usize, block_size: usize) -> (r: usize)
    requires
        block_size != 0,
    ensures
        r == spec_block_count(full_res as nat, block_size as nat),
{
    divide(RoundingMode::Up, full_res, block_size)
}

/// The length of the block at `block_position` along an axis of length `total_size`.
pub fn calculate_block_size(total_size: usize, block_size: usize, block_position: usize) -> (r:
    Result<usize, Error>)
    ensures
        r == if block_position < total_size {
            Ok::<usize, Error>(
                spec_block_size(total_size as nat, block_size as nat, block_position as nat) as usize,
            )
        } else {
            Err::<usize, Error>(block_position_error())
        },
{
    if block_position >= total_size {
        return Err(
            Error::InvalidContent {
                what: Value::Attribute("block position"),
                required: Required::Exact("a position within the layer"),
            },
        );
    }
    if block_size <= total_size - block_position {
        Ok(block_size)
    } else {
        Ok(total_size - block_position)
    }
}

/// The error for a block that starts outside of its layer.
pub open spec fn block_position_error() -> Error {
    Error::InvalidContent {
        what: Value::Attribute("block position"),
        required: Required::Exact("a position within the layer"),
    }
}

/// The blocks along an axis cover it exactly: the lengths of all blocks
/// but the last are the block size, and the last ends where the axis ends.
pub proof fn lemma_blocks_cover(total_size: nat, block_size: nat)
    requires
        total_size > 0,
        block_size > 0,
    ensures
        spec_block_count(total_size, block_size) >= 1,
        (spec_block_count(total_size, block_size) - 1) * block_size < total_size,
        (spec_block_count(total_size, block_size) - 1) * block_size + spec_block_size(
            total_size,
            block_size,
            ((spec_block_count(total_size, block_size) - 1) * block_size) as nat,
        ) == total_size,
        forall|index: nat|
            index + 1 < spec_block_count(total_size, block_size) ==> #[trigger] spec_block_size(
                total_size,
                block_size,
                index * block_size,
            ) == block_size,
{
    RoundingMode::lemma_divide_rounds(total_size, block_size);
    let count = spec_block_count(total_size, block_size);
    assert(count >= 1) by (nonlinear_arith)
        requires
            count * block_size >= total_size,
            total_size > 0,
            block_size > 0,
    ;
    assert forall|index: nat| index + 1 < count implies #[trigger] spec_block_size(
        total_size,
        block_size,
        index * block_size,
    ) == block_size by {
        assert(index * block_size + block_size <= (count - 1) * block_size) by (nonlinear_arith)
            requires
                index + 1 <= count - 1,
                block_size > 0,
        ;
    }
    assert((count - 1) * block_size + block_size == count * block_size) by (nonlinear_arith);
}

/// The resolution levels of a layer with mip maps: for each level, its
/// index and the size of the layer at that level.
pub fn mip_map_levels(round: RoundingMode, max_resolution: Vec2<usize>) -> (r: Vec<
    (usize, Vec2<usize>),
>)
    ensures
        r@.len() == spec_level_count(round, spec_max(max_resolution.0, max_resolution.1) as nat),
        forall|level: int|
            0 <= level < r@.len() ==> is_level(
                round,
                max_resolution,
                level,
                level,
                (Vec2((#[trigger] r@[level]).0, r@[level].0), r@[level].1),
            ),
{
    let longest = if max_resolution.0 > max_resolution.1 {
        max_resolution.0
    } else {
        max_resolution.1
    };
    let count = compute_level_count(round, longest);
    let mut levels: Vec<(usize, Vec2<usize>)> = Vec::new();
    let mut level: usize = 0;
    while level < count
        invariant
            level <= count,
            levels@.len() == level,
            forall|index: int|
                0 <= index < level ==> is_level(
                    round,
                    max_resolution,
                    index,
                    index,
                    (Vec2((#[trigger] levels@[index]).0, levels@[index].0), levels@[index].1),
                ),
        decreases count - level,
    {
        let width = compute_level_size(round, max_resolution.0, level);
        let height = compute_level_size(round, max_resolution.1, level);
        levels.push((level, Vec2(width, height)));
        level = level + 1;
    }
    levels
}

/// The greater of two numbers.
pub open spec fn spec_max(left: usize, right: usize) -> usize {
    if left > right {
        left
    } else {
        right
    }
}

/// Whether `entry` is the pair of the level `(x, y)` and the size of the
/// layer at that level.
pub open spec fn is_level(
    round: RoundingMode,
    max_resolution: Vec2<usize>,
    x: int,
    y: int,
    entry: (Vec2<usize>, Vec2<usize>),
) -> bool {
    &&& entry.0.0 == x
    &&& entry.0.1 == y
    &&& entry.1.0 == spec_level_size(round, max_resolution.0 as nat, x as nat)
    &&& entry.1.1 == spec_level_size(round, max_resolution.1 as nat, y as nat)
}

/// The place of the level `(x, y)` among the levels of a layer with rip
/// maps that has `x_count` levels along x.
pub open spec fn rip_level_index(x: int, y: int, x_count: int) -> int {
    y * x_count + x
}

/// The places of the levels of the rows before row `y` are below those of
/// row `y`, which are below those of the rows after it.
pub proof fn lemma_rip_level_index(x: int, y: int, x_count: int)
    requires
        0 <= x < x_count,
        0 <= y,
    ensures
        y * x_count <= rip_level_index(x, y, x_count) < (y + 1) * x_count,
        rip_level_index(x, y, x_count) == y * x_count + x,
        (y + 1) * x_count == y * x_count + x_count,
        0 <= y * x_count,
{
    assert((y + 1) * x_count == y * x_count + x_count) by (nonlinear_arith);
    assert(0 <= y * x_count) by (nonlinear_arith)
        requires
            0 <= y,
            0 <= x_count,
    ;
}

/// Whether `levels` holds, row by row, the levels of the first `rows`
/// rows of a layer with rip maps that has `x_count` levels along x.
pub open spec fn are_rip_levels(
    levels: Seq<(Vec2<usize>, Vec2<usize>)>,
    round: RoundingMode,
    max_resolution: Vec2<usize>,
    x_count: int,
    rows: int,
) -> bool {
    &&& levels.len() == rows * x_count
    &&& forall|x: int, y: int|
        0 <= x < x_count && 0 <= y < rows ==> 0 <= #[trigger] rip_level_index(x, y, x_count)
            < levels.len() && is_level(
            round,
            max_resolution,
            x,
            y,
            levels[rip_level_index(x, y, x_count)],
        )
}

/// The resolution levels of a layer with rip maps: for each pair of a
/// level along x and a level along y, the pair and the size of the layer
/// at it. The pairs come row by row: the pair `(x, y)` stands at the place
/// `y * count + x`, where `count` is the number of levels along x.
pub fn rip_map_levels(round: RoundingMode, max_resolution: Vec2<usize>) -> (r: Vec<
    (Vec2<usize>, Vec2<usize>),
>)
    ensures
        are_rip_levels(
            r@,
            round,
            max_resolution,
            spec_level_count(round, max_resolution.0 as nat) as int,
            spec_level_count(round, max_resolution.1 as nat) as int,
        ),
{
    let x_count = compute_level_count(round, max_resolution.0);
    let y_count = compute_level_count(round, max_resolution.1);
    let mut levels: Vec<(Vec2<usize>, Vec2<usize>)> = Vec::new();
    let mut y: usize = 0;
    assert(0 * x_count == 0);
    while y < y_count
        invariant
            y <= y_count,
            x_count == spec_level_count(round, max_resolution.0 as nat),
            are_rip_levels(levels@, round, max_resolution, x_count as int, y as int),
        decreases y_count - y,
    {
        let height = compute_level_size(round, max_resolution.1, y);
        let ghost before = levels@;
        let mut x: usize = 0;
        while x < x_count
            invariant
                x <= x_count,
                y < y_count,
                before.len() == y * x_count,
                levels@.len() == y * x_count + x,
                height == spec_level_size(round, max_resolution.1 as nat, y as nat),
                forall|k: int| 0 <= k < before.len() ==> levels@[k] == before[k],
                forall|i: int|
                    0 <= i < x ==> is_level(
                        round,
                        max_resolution,
                        i,
                        y as int,
                        #[trigger] levels@[y * x_count + i],
                    ),
            decreases x_count - x,
        {
            let width = compute_level_size(round, max_resolution.0, x);
            levels.push((Vec2(x, y), Vec2(width, height)));
            x = x + 1;
        }
        proof {
            assert((y + 1) * x_count == y * x_count + x_count) by (nonlinear_arith);
            assert forall|i: int, j: int| 0 <= i < x_count && 0 <= j < y + 1 implies 0
                <= #[trigger] rip_level_index(i, j, x_count as int) < levels@.len() && is_level(
                round,
                max_resolution,
                i,
                j,
                levels@[rip_level_index(i, j, x_count as int)],
            ) by {
                lemma_rip_level_index(i, j, x_count as int);
                let k = rip_level_index(i, j, x_count as int);
                if j < y {
                    assert((j + 1) * x_count <= y * x_count) by (nonlinear_arith)
                        requires
                            j + 1 <= y,
                            0 <= x_count,
                    ;
                    assert(is_level(round, max_resolution, i, j, before[k]));
                    assert(levels@[k] == before[k]);
                } else {
                    assert(k == y * x_count + i);
                    assert(is_level(round, max_resolution, i, y as int, levels@[y * x_count + i]));
                }
            }
        }
        y = y + 1;
    }
    levels
}

/// How the pixels of a layer are divided into blocks.
#[derive(Debug, Clone, Copy, PartialEq, Eq)]
pub enum BlockDescription {
    /// Blocks of one or more whole scan lines. How many lines a block
    /// holds follows from the compression method.
    ScanLines,
    /// Tiles of a fixed size, perhaps at several resolution levels.
    Tiles(TileDescription),
}

impl BlockDescription {
    /// Whether the layer is divided into tiles.
    pub fn has_tiles(&self) -> (r: bool)
        ensures
            r == (self is Tiles),
    {
        match self {
            BlockDescription::Tiles(_) => true,
            BlockDescription::ScanLines => false,
        }
    }
}

/// How many tiles of the given size it takes to cover a level of the given size.
pub open spec fn spec_tile_count(width: nat, height: nat, tile_width: nat, tile_height: nat) -> nat {
    spec_block_count(width, tile_width) * spec_block_count(height, tile_height)
}

/// How many tiles the first `levels` levels of a layer with mip maps have together.
pub open spec fn spec_mip_chunk_count(
    round: RoundingMode,
    width: nat,
    height: nat,
    tile_width: nat,
    tile_height: nat,
    levels: nat,
) -> nat
    decreases levels,
{
    if levels == 0 {
        0
    } else {
        let level = (levels - 1) as nat;
        spec_mip_chunk_count(round, width, height, tile_width, tile_height, level)
            + spec_tile_count(
            spec_level_size(round, width, level),
            spec_level_size(round, height, level),
            tile_width,
            tile_height,
        )
    }
}

/// How many tiles the first `levels` levels along x have together, at the
/// level `y_level` along y, in a layer with rip maps.
pub open spec fn spec_rip_row_chunk_count(
    round: RoundingMode,
    width: nat,
    height: nat,
    tile_width: nat,
    tile_height: nat,
    y_level: nat,
    levels: nat,
) -> nat
    decreases levels,
{
    if levels == 0 {
        0
    } else {
        let level = (levels - 1) as nat;
        spec_rip_row_chunk_count(round, width, height, tile_width, tile_height, y_level, level)
            + spec_tile_count(
            spec_level_size(round, width, level),
            spec_level_size(round, height, y_level),
            tile_width,
            tile_height,
        )
    }
}

/// How many tiles the first `rows` levels along y have together, each with
/// all levels along x, in a layer with rip maps.
pub open spec fn spec_rip_chunk_count(
    round: RoundingMode,
    width: nat,
    height: nat,
    tile_width: nat,
    tile_height: nat,
    rows: nat,
) -> nat
    decreases rows,
{
    if rows == 0 {
        0
    } else {
        let row = (rows - 1) as nat;
        spec_rip_chunk_count(round, width, height, tile_width, tile_height, row)
            + spec_rip_row_chunk_count(
            round,
            width,
            height,
            tile_width,
            tile_height,
            row,
            spec_level_count(round, width),
        )
    }
}

/// How many blocks a layer of the given size has: the blocks of scan
/// lines that cover its height, or the tiles of all its resolution levels.
pub open spec fn spec_chunk_count(
    compression: Compression,
    data_size: Vec2<usize>,
    blocks: BlockDescription,
) -> nat
    recommends
        blocks matches BlockDescription::Tiles(tiles) ==> tiles.x_size > 0 && tiles.y_size > 0,
{
    let width = data_size.0 as nat;
    let height = data_size.1 as nat;
    match blocks {
        BlockDescription::ScanLines => spec_block_count(
            height,
            compression.spec_scan_lines_per_block(),
        ),
        BlockDescription::Tiles(tiles) => {
            let tile_width = tiles.x_size as nat;
            let tile_height = tiles.y_size as nat;
            match tiles.level_mode {
                LevelMode::One => spec_tile_count(width, height, tile_width, tile_height),
                LevelMode::MipMap => spec_mip_chunk_count(
                    tiles.rounding_mode,
                    width,
                    height,
                    tile_width,
                    tile_height,
                    spec_level_count(tiles.rounding_mode, spec_max(data_size.0, data_size.1) as nat),
                ),
                LevelMode::RipMap => spec_rip_chunk_count(
                    tiles.rounding_mode,
                    width,
                    height,
                    tile_width,
                    tile_height,
                    spec_level_count(tiles.rounding_mode, height),
                ),
            }
        },
    }
}

/// More levels have no fewer tiles.
pub proof fn lemma_chunk_counts_grow(
    round: RoundingMode,
    width: nat,
    height: nat,
    tile_width: nat,
    tile_height: nat,
    y_level: nat,
    fewer: nat,
    more: nat,
)
    requires
        fewer <= more,
    ensures
        spec_mip_chunk_count(round, width, height, tile_width, tile_height, fewer)
            <= spec_mip_chunk_count(round, width, height, tile_width, tile_height, more),
        spec_rip_row_chunk_count(round, width, height, tile_width, tile_height, y_level, fewer)
            <= spec_rip_row_chunk_count(
            round,
            width,
            height,
            tile_width,
            tile_height,
            y_level,
            more,
        ),
        spec_rip_chunk_count(round, width, height, tile_width, tile_height, fewer)
            <= spec_rip_chunk_count(round, width, height, tile_width, tile_height, more),
    decreases more,
{
    if fewer < more {
        lemma_chunk_counts_grow(
            round,
            width,
            height,
            tile_width,
            tile_height,
            y_level,
            fewer,
            (more - 1) as nat,
        );
    }
}

/// The error for a tile size of zero.
pub open spec fn tile_size_error() -> Error {
    Error::InvalidContent { what: Value::Attribute("tiles"), required: Required::Min(1) }
}

/// How many tiles of the given size it takes to cover a level of the given
/// size, or `None` if it is more than `usize` can hold.
fn compute_tile_count(width: usize, height: usize, tile_width: usize, tile_height: usize) -> (r:
    Option<usize>)
    requires
        tile_width > 0,
        tile_height > 0,
    ensures
        r == if spec_tile_count(
            width as nat,
            height as nat,
            tile_width as nat,
            tile_height as nat,
        ) <= usize::MAX {
            Some(
                spec_tile_count(
                    width as nat,
                    height as nat,
                    tile_width as nat,
                    tile_height as nat,
                ) as usize,
            )
        } else {
            None::<usize>
        },
{
    compute_block_count(width, tile_width).checked_mul(compute_block_count(height, tile_height))
}

/// How many blocks a layer of the given size has. Fails with
/// `InvalidContent` for tiles without a width or a height, and with
/// `InvalidSize` where the count is more than `usize` can hold.
pub fn compute_chunk_count(
    compression: Compression,
    data_size: Vec2<usize>,
    blocks: BlockDescription,
) -> (r: Result<usize, Error>)
    ensures
        r == if blocks matches BlockDescription::Tiles(tiles) && (tiles.x_size == 0 || tiles.y_size
            == 0) {
            Err::<usize, Error>(tile_size_error())
        } else if spec_chunk_count(compression, data_size, blocks) > usize::MAX {
            Err::<usize, Error>(Error::InvalidSize)
        } else {
            Ok::<usize, Error>(spec_chunk_count(compression, data_size, blocks) as usize)
        },
{
    match blocks {
        BlockDescription::ScanLines => Ok(
            compute_block_count(data_size.1, compression.scan_lines_per_block()),
        ),
        BlockDescription::Tiles(tiles) => {
            if tiles.x_size == 0 || tiles.y_size == 0 {
                return Err(
                    Error::InvalidContent {
                        what: Value::Attribute("tiles"),
                        required: Required::Min(1),
                    },
                );
            }
            let round = tiles.rounding_mode;
            let tile_width = tiles.x_size as usize;
            let tile_height = tiles.y_size as usize;
            match tiles.level_mode {
                LevelMode::One => match compute_tile_count(
                    data_size.0,
                    data_size.1,
                    tile_width,
                    tile_height,
                ) {
                    Some(count) => Ok(count),
                    None => Err(Error::InvalidSize),
                },
                LevelMode::MipMap => compute_mip_chunk_count(
                    round,
                    data_size,
                    tile_width,
                    tile_height,
                ),
                LevelMode::RipMap => compute_rip_chunk_count(
                    round,
                    data_size,
                    tile_width,
                    tile_height,
                ),
            }
        },
    }
}

/// How many tiles all levels of a layer with mip maps have together.
fn compute_mip_chunk_count(
    round: RoundingMode,
    data_size: Vec2<usize>,
    tile_width: usize,
    tile_height: usize,
) -> (r: Result<usize, Error>)
    requires
        tile_width > 0,
        tile_height > 0,
    ensures
        r == if spec_mip_chunk_count(
            round,
            data_size.0 as nat,
            data_size.1 as nat,
            tile_width as nat,
            tile_height as nat,
            spec_level_count(round, spec_max(data_size.0, data_size.1) as nat),
        ) > usize::MAX {
            Err::<usize, Error>(Error::InvalidSize)
        } else {
            Ok::<usize, Error>(
                spec_mip_chunk_count(
                    round,
                    data_size.0 as nat,
                    data_size.1 as nat,
                    tile_width as nat,
                    tile_height as nat,
                    spec_level_count(round, spec_max(data_size.0, data_size.1) as nat),
                ) as usize,
            )
        },
{
    let longest = if data_size.0 > data_size.1 {
        data_size.0
    } else {
        data_size.1
    };
    let count = compute_level_count(round, longest);
    let mut total: usize = 0;
    let mut level: usize = 0;
    while level < count
        invariant
            level <= count,
            tile_width > 0,
            tile_height > 0,
            count == spec_level_count(round, spec_max(data_size.0, data_size.1) as nat),
            total == spec_mip_chunk_count(
                round,
                data_size.0 as nat,
                data_size.1 as nat,
                tile_width as nat,
                tile_height as nat,
                level as nat,
            ),
        decreases count - level,
    {
        let width = compute_level_size(round, data_size.0, level);
        let height = compute_level_size(round, data_size.1, level);
        proof {
            lemma_chunk_counts_grow(
                round,
                data_size.0 as nat,
                data_size.1 as nat,
                tile_width as nat,
                tile_height as nat,
                0,
                (level + 1) as nat,
                count as nat,
            );
        }
        proof {
            assert(spec_mip_chunk_count(
                round,
                data_size.0 as nat,
                data_size.1 as nat,
                tile_width as nat,
                tile_height as nat,
                (level + 1) as nat,
            ) == total + spec_tile_count(
                width as nat,
                height as nat,
                tile_width as nat,
                tile_height as nat,
            ));
        }
        let tiles = match compute_tile_count(width, height, tile_width, tile_height) {
            Some(tiles) => tiles,
            None => return Err(Error::InvalidSize),
        };
        total = match total.checked_add(tiles) {
            Some(total) => total,
            None => return Err(Error::InvalidSize),
        };
        level = level + 1;
    }
    Ok(total)
}

/// How many tiles all levels of a layer with rip maps have together.
fn compute_rip_chunk_count(
    round: RoundingMode,
    data_size: Vec2<usize>,
    tile_width: usize,
    tile_height: usize,
) -> (r: Result<usize, Error>)
    requires
        tile_width > 0,
        tile_height > 0,
    ensures
        r == if spec_rip_chunk_count(
            round,
            data_size.0 as nat,
            data_size.1 as nat,
            tile_width as nat,
            tile_height as nat,
            spec_level_count(round, data_size.1 as nat),
        ) > usize::MAX {
            Err::<usize, Error>(Error::InvalidSize)
        } else {
            Ok::<usize, Error>(
                spec_rip_chunk_count(
                    round,
                    data_size.0 as nat,
                    data_size.1 as nat,
                    tile_width as nat,
                    tile_height as nat,
                    spec_level_count(round, data_size.1 as nat),
                ) as usize,
            )
        },
{
    let x_count = compute_level_count(round, data_size.0);
    let y_count = compute_level_count(round, data_size.1);
    let mut total: usize = 0;
    let mut y: usize = 0;
    while y < y_count
        invariant
            y <= y_count,
            tile_width > 0,
            tile_height > 0,
            x_count == spec_level_count(round, data_size.0 as nat),
            y_count == spec_level_count(round, data_size.1 as nat),
            total == spec_rip_chunk_count(
                round,
                data_size.0 as nat,
                data_size.1 as nat,
                tile_width as nat,
                tile_height as nat,
                y as nat,
            ),
        decreases y_count - y,
    {
        let height = compute_level_size(round, data_size.1, y);
        let mut row: usize = 0;
        let mut x: usize = 0;
        proof {
            lemma_chunk_counts_grow(
                round,
                data_size.0 as nat,
                data_size.1 as nat,
                tile_width as nat,
                tile_height as nat,
                0,
                (y + 1) as nat,
                y_count as nat,
            );
        }
        while x < x_count
            invariant
                x <= x_count,
                y < y_count,
                tile_width > 0,
                tile_height > 0,
                height == spec_level_size(round, data_size.1 as nat, y as nat),
                row == spec_rip_row_chunk_count(
                    round,
                    data_size.0 as nat,
                    data_size.1 as nat,
                    tile_width as nat,
                    tile_height as nat,
                    y as nat,
                    x as nat,
                ),
                x_count == spec_level_count(round, data_size.0 as nat),
                y_count == spec_level_count(round, data_size.1 as nat),
                total == spec_rip_chunk_count(
                    round,
                    data_size.0 as nat,
                    data_size.1 as nat,
                    tile_width as nat,
                    tile_height as nat,
                    y as nat,
                ),
                spec_rip_chunk_count(
                    round,
                    data_size.0 as nat,
                    data_size.1 as nat,
                    tile_width as nat,
                    tile_height as nat,
                    (y + 1) as nat,
                ) <= spec_rip_chunk_count(
                    round,
                    data_size.0 as nat,
                    data_size.1 as nat,
                    tile_width as nat,
                    tile_height as nat,
                    y_count as nat,
                ),
            decreases x_count - x,
        {
            let width = compute_level_size(round, data_size.0, x);
            proof {
                lemma_chunk_counts_grow(
                    round,
                    data_size.0 as nat,
                    data_size.1 as nat,
                    tile_width as nat,
                    tile_height as nat,
                    y as nat,
                    (x + 1) as nat,
                    x_count as nat,
                );
            }
            proof {
                assert(spec_rip_row_chunk_count(
                    round,
                    data_size.0 as nat,
                    data_size.1 as nat,
                    tile_width as nat,
                    tile_height as nat,
                    y as nat,
                    (x + 1) as nat,
                ) == row + spec_tile_count(
                    width as nat,
                    height as nat,
                    tile_width as nat,
                    tile_height as nat,
                ));
            }
            let tiles = match compute_tile_count(width, height, tile_width, tile_height) {
                Some(tiles) => tiles,
                None => return Err(Error::InvalidSize),
            };
            row = match row.checked_add(tiles) {
                Some(row) => row,
                None => return Err(Error::InvalidSize),
            };
            x = x + 1;
        }
        proof {
            assert(spec_rip_chunk_count(
                round,
                data_size.0 as nat,
                data_size.1 as nat,
                tile_width as nat,
                tile_height as nat,
                (y + 1) as nat,
            ) == total + row);
        }
        total = match total.checked_add(row) {
            Some(total) => total,
            None => return Err(Error::InvalidSize),
        };
        y = y + 1;
    }
    Ok(total)
}

/// The four bytes that every file starts with.
pub open spec fn magic_number_bytes() -> Seq<u8> {
    seq![0x76u8, 0x2Fu8, 0x31u8, 0x01u8]
}

/// The bytes that every file starts with.
pub struct MagicNumber;

impl MagicNumber {
    /// Appends the magic number.
    pub fn write(write: &mut Vec<u8>)
        ensures
            final(write)@ == old(write)@ + magic_number_bytes(),
    {
        write_u8(write, 0x76);
        write_u8(write, 0x2F);
        write_u8(write, 0x31);
        write_u8(write, 0x01);
        assert(write@ =~= old(write)@ + magic_number_bytes());
    }

    /// Reading the magic number.
    pub open spec fn read_spec(s: Seq<u8>) -> Parsed<()> {
        if s.len() < 4 {
            Err(Error::Io)
        } else if s.take(4) == magic_number_bytes() {
            Ok(((), s.skip(4)))
        } else {
            Err(Error::InvalidMagic)
        }
    }

    /// Reads four bytes and says whether they are the magic number.
    pub fn validate_exr(read: &mut ByteReader) -> (r: Result<(), Error>)
        ensures
            reads(*old(read), *final(read), r, MagicNumber::read_spec(old(read).remaining())),
    {
        let ghost s = old(read).remaining();
        let bytes = read.read_u8_vec(4, 4)?;
        if bytes[0] == 0x76 && bytes[1] == 0x2F && bytes[2] == 0x31 && bytes[3] == 0x01 {
            assert(s.take(4) =~= magic_number_bytes());
            Ok(())
        } else {
            Err(Error::InvalidMagic)
        }
    }
}

/// What a file asks of the program that reads it: the version of the
/// format, and the features that it makes use of.
#[derive(Debug, Clone, Copy, PartialEq, Eq)]
pub struct Requirements {
    /// The version of the format. Version 2 is the one that is supported.
    pub file_format_version: u8,
    /// Whether a layer is divided into tiles.
    pub has_tiles: bool,
    /// Whether names may have up to 255 bytes, and not only up to 31.
    pub has_long_names: bool,
    /// Whether a layer holds deep data.
    pub has_deep_data: bool,
    /// Whether the file may hold more than one layer.
    pub is_multipart: bool,
}

impl Requirements {
    /// The requirements with the given version and features.
    pub fn new(version: u8, is_multipart: bool, has_tiles: bool, long_names: bool, deep: bool) -> (r:
        Requirements)
        ensures
            r == (Requirements {
                file_format_version: version,
                has_tiles,
                has_long_names: long_names,
                has_deep_data: deep,
                is_multipart,
            }),
    {
        Requirements {
            file_format_version: version,
            has_tiles,
            has_long_names: long_names,
            has_deep_data: deep,
            is_multipart,
        }
    }

    /// The 32-bit number that holds the version in its lowest eight bits,
    /// and above them one bit for each feature: bit 9 for tiles, bit 10
    /// for long names, bit 11 for deep data, bit 12 for more than one layer.
    pub open spec fn spec_pack(self) -> u32 {
        (self.file_format_version + (if self.has_tiles {
            0x200int
        } else {
            0
        }) + (if self.has_long_names {
            0x400int
        } else {
            0
        }) + (if self.has_deep_data {
            0x800int
        } else {
            0
        }) + (if self.is_multipart {
            0x1000int
        } else {
            0
        })) as u32
    }

    /// The requirements that a 32-bit number holds, whatever the version;
    /// `None` where a bit is set that has no meaning.
    pub open spec fn spec_unpack(packed: u32) -> Option<Requirements> {
        let flags = packed / 256;
        if flags % 2 != 0 || flags >= 32 {
            None
        } else {
            Some(
                Requirements {
                    file_format_version: (packed % 256) as u8,
                    has_tiles: (flags / 2) % 2 == 1,
                    has_long_names: (flags / 4) % 2 == 1,
                    has_deep_data: (flags / 8) % 2 == 1,
                    is_multipart: (flags / 16) % 2 == 1,
                },
            )
        }
    }

    /// The four bytes of the requirements.
    pub open spec fn bytes(self) -> Seq<u8> {
        u32_le(self.spec_pack())
    }

    /// Reading requirements: a version or a bit that is not supported
    /// fails with `UnsupportedVersion`.
    pub open spec fn read_spec(s: Seq<u8>) -> Parsed<Requirements> {
        if s.len() < 4 {
            Err(Error::Io)
        } else {
            match Requirements::spec_unpack(u32_from_le(s)) {
                Some(requirements) => if requirements.file_format_version == 2 {
                    Ok((requirements, s.skip(4)))
                } else {
                    Err(Error::UnsupportedVersion)
                },
                None => Err(Error::UnsupportedVersion),
            }
        }
    }

    /// Unpacking what was packed gives the requirements back, and
    /// packing what was unpacked gives the number back.
    pub proof fn lemma_pack_round_trip(self, packed: u32)
        ensures
            Requirements::spec_unpack(self.spec_pack()) == Some(self),
            Requirements::spec_unpack(packed) matches Some(requirements)
                ==> requirements.spec_pack() == packed,
    {
    }

    /// The 32-bit number that holds the version and the features.
    pub fn pack(&self) -> (r: u32)
        ensures
            r == self.spec_pack(),
    {
        let mut packed: u32 = self.file_format_version as u32;
        if self.has_tiles {
            packed = packed + 0x200;
        }
        if self.has_long_names {
            packed = packed + 0x400;
        }
        if self.has_deep_data {
            packed = packed + 0x800;
        }
        if self.is_multipart {
            packed = packed + 0x1000;
        }
        packed
    }

    /// Says whether the version is the one that is supported.
    pub fn validate(&self) -> (r: Result<(), Error>)
        ensures
            r == if self.file_format_version == 2 {
                Ok::<(), Error>(())
            } else {
                Err::<(), Error>(Error::UnsupportedVersion)
            },
    {
        if self.file_format_version == 2 {
            Ok(())
        } else {
            Err(Error::UnsupportedVersion)
        }
    }

    /// Appends the requirements, if the version is the one that is supported.
    pub fn write(&self, write: &mut Vec<u8>) -> (r: Result<(), Error>)
        ensures
            r == if self.file_format_version == 2 {
                Ok::<(), Error>(())
            } else {
                Err::<(), Error>(Error::UnsupportedVersion)
            },
            final(write)@ == if r is Ok {
                old(write)@ + self.bytes()
            } else {
                old(write)@
            },
    {
        self.validate()?;
        write_u32(write, self.pack());
        Ok(())
    }

    /// Reads requirements.
    pub fn read(read: &mut ByteReader) -> (r: Result<Requirements, Error>)
        ensures
            reads(*old(read), *final(read), r, Requirements::read_spec(old(read).remaining())),
    {
        let packed = read.read_u32()?;
        let flags = packed / 256;
        if flags % 2 != 0 || flags >= 32 {
            return Err(Error::UnsupportedVersion);
        }
        let requirements = Requirements {
            file_format_version: (packed % 256) as u8,
            has_tiles: (flags / 2) % 2 == 1,
            has_long_names: (flags / 4) % 2 == 1,
            has_deep_data: (flags / 8) % 2 == 1,
            is_multipart: (flags / 16) % 2 == 1,
        };
        if requirements.file_format_version != 2 {
            return Err(Error::UnsupportedVersion);
        }
        Ok(requirements)
    }
}

/// Reading written requirements gives them back, and writing
/// requirements that were read gives the bytes back.
pub proof fn lemma_requirements_round_trip(requirements: Requirements, s: Seq<u8>, tail: Seq<u8>)
    ensures
        requirements.file_format_version == 2 ==> Requirements::read_spec(
            requirements.bytes() + tail,
        ) == Ok::<(Requirements, Seq<u8>), Error>((requirements, tail)),
        Requirements::read_spec(s) matches Ok((read, rest)) ==> s == read.bytes() + rest,
{
    crate::io::lemma_u32_decodes_encoded(requirements.spec_pack(), tail);
    assert((requirements.bytes() + tail).skip(4) =~= tail);
    requirements.lemma_pack_round_trip(0);
    if s.len() >= 4 {
        let packed = u32_from_le(s);
        requirements.lemma_pack_round_trip(packed);
        crate::io::lemma_u32_encodes_decoded(s);
        assert(s =~= s.take(4) + s.skip(4));
    }
}

/// Reading the magic number that was written succeeds, and what was
/// read as the magic number is the magic number.
pub proof fn lemma_magic_number_round_trip(s: Seq<u8>, tail: Seq<u8>)
    ensures
        MagicNumber::read_spec(magic_number_bytes() + tail) == Ok::<((), Seq<u8>), Error>(
            ((), tail),
        ),
        MagicNumber::read_spec(s) matches Ok((_, rest)) ==> s == magic_number_bytes() + rest,
{
    let written = magic_number_bytes() + tail;
    assert(written.take(4) =~= magic_number_bytes());
    assert(written.skip(4) =~= tail);
    if s.len() >= 4 {
        assert(s =~= s.take(4) + s.skip(4));
    }
}

/// The header of a layer: what the file says of the layer before its pixels.
#[derive(Debug, PartialEq, Eq)]
pub struct Header {
    /// The channels of the layer, sorted by name.
    pub channels: ChannelList,
    /// How the pixel bytes of each block are compressed.
    pub compression: Compression,
    /// How the pixels are divided into blocks.
    pub blocks: BlockDescription,
    /// The order in which the blocks stand in the file.
    pub line_order: LineOrder,
    /// The rectangle of the pixels that the layer holds.
    pub data_window: IntRect,
    /// The rectangle that a viewer shows.
    pub display_window: IntRect,
    /// The width of a pixel divided by its height, a 32-bit
    /// floating-point number as its bit pattern.
    pub pixel_aspect: u32,
    /// The center of the screen window, two 32-bit floating-point numbers
    /// as their bit patterns.
    pub screen_window_center: Vec2<u32>,
    /// The width of the screen window, a 32-bit floating-point number as
    /// its bit pattern.
    pub screen_window_width: u32,
    /// The name of the layer. A file with one layer needs none.
    pub name: Option<Text>,
    /// The attributes that have no field of their own here.
    pub custom_attributes: Vec<Attribute>,
    /// How many blocks the layer has.
    pub chunk_count: usize,
    /// Whether the layer holds deep data.
    pub deep: bool,
    /// The version of the deep data, in a layer that holds deep data.
    pub deep_data_version: Option<i32>,
    /// The greatest number of samples in a pixel, in a layer that holds deep data.
    pub max_samples_per_pixel: Option<usize>,
}

/// The attributes of a layer that have no field of their own.
pub type Attributes = Vec<Attribute>;

/// The headers of the layers of a file.
pub type Headers = Vec<Header>;

/// All that a file says before its pixels.
#[derive(Debug, PartialEq, Eq)]
pub struct MetaData {
    /// What the file asks of a reader.
    pub requirements: Requirements,
    /// The header of each layer.
    pub headers: Headers,
}

/// What a header holds.
pub struct HeaderView {
    pub channels: Seq<ChannelView>,
    pub compression: Compression,
    pub blocks: BlockDescription,
    pub line_order: LineOrder,
    pub data_window: IntRect,
    pub display_window: IntRect,
    pub pixel_aspect: u32,
    pub screen_window_center: Vec2<u32>,
    pub screen_window_width: u32,
    pub name: Option<Seq<u8>>,
    pub custom_attributes: Seq<AttributeView>,
    pub chunk_count: usize,
    pub deep: bool,
    pub deep_data_version: Option<i32>,
    pub max_samples_per_pixel: Option<usize>,
}

impl View for Header {
    type V = HeaderView;

    open spec fn view(&self) -> HeaderView {
        HeaderView {
            channels: self.channels@,
            compression: self.compression,
            blocks: self.blocks,
            line_order: self.line_order,
            data_window: self.data_window,
            display_window: self.display_window,
            pixel_aspect: self.pixel_aspect,
            screen_window_center: self.screen_window_center,
            screen_window_width: self.screen_window_width,
            name: name_view(self.name),
            custom_attributes: attribute_views(self.custom_attributes@),
            chunk_count: self.chunk_count,
            deep: self.deep,
            deep_data_version: self.deep_data_version,
            max_samples_per_pixel: self.max_samples_per_pixel,
        }
    }
}

} // verus!
