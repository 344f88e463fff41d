//! Strategies that fill a chunk with blocks.
use vstd::prelude::*;
use crate::block::{BlockProperties, BlockType};
use crate::chunk::Chunk;
use crate::coords::{BlockCoordinate, ChunkCoordinate, HEIGHT_OFFSET};
use crate::storage::{block_at, cell_index, in_chunk_bounds, lemma_cell_index_injective};

verus! {

/// Produces the blocks of the chunk at a coordinate.
pub trait WorldGenerator {
    fn generate(&self, coordinate: ChunkCoordinate) -> (r: Chunk)
        requires
            coordinate.valid(),
        ensures
            r.wf(),
            r@.coordinates == coordinate;
}

/// The kind of the planar pattern's block for selector `v = (x + z) % 4`.
pub open spec fn planar_type(v: int) -> BlockType {
    if v <= 0 {
        BlockType::DIRT
    } else if v == 1 {
        BlockType::SAND
    } else if v == 2 {
        BlockType::STONE
    } else {
        BlockType::GRASS
    }
}

/// The planar pattern: one layer at local `y = 0`, its kind chosen by
/// `(x + z) % 4`.
pub open spec fn planar_block(x: int, y: int, z: int) -> Option<BlockProperties> {
    if y == 0 {
        Some(BlockProperties { block_type: planar_type((x + z) % 4) })
    } else {
        None
    }
}

/// Generates the same flat, patterned layer for every chunk.
pub struct PlanarGenerator {}

impl PlanarGenerator {
    pub fn new() -> (r: PlanarGenerator) {
        PlanarGenerator {  }
    }

    /// The planar layer at `coordinate`.
    pub fn generate_planar(&self, coordinate: ChunkCoordinate) -> (r: Chunk)
        requires
            coordinate.valid(),
        ensures
            r.wf(),
            r@.coordinates == coordinate,
            forall|x: int, y: int, z: int|
                in_chunk_bounds(x, y, z) ==> #[trigger] block_at(r@.blocks, x, y, z) == planar_block(x, y, z),
    {
        let mut chunk = Chunk::new(coordinate);
        let mut x: usize = 0;
        while x < 16
            invariant
                chunk.wf(),
                chunk@.coordinates == coordinate,
                x <= 16,
                forall|a: int, b: int, c: int|
                    in_chunk_bounds(a, b, c) ==> #[trigger] block_at(chunk@.blocks, a, b, c) == (if a < x {
                        planar_block(a, b, c)
                    } else {
                        None
                    }),
            decreases 16 - x,
        {
            let mut z: usize = 0;
            while z < 16
                invariant
                    chunk.wf(),
                    chunk@.coordinates == coordinate,
                    x < 16,
                    z <= 16,
                    forall|a: int, b: int, c: int|
                        in_chunk_bounds(a, b, c) ==> #[trigger] block_at(chunk@.blocks, a, b, c) == (if a < x
                            || (a == x && c < z) {
                            planar_block(a, b, c)
                        } else {
                            None
                        }),
                decreases 16 - z,
            {
                let selector = (x + z) % 4;
                let block_type = if selector == 0 {
                    BlockType::DIRT
                } else if selector == 1 {
                    BlockType::SAND
                } else if selector == 2 {
                    BlockType::STONE
                } else {
                    BlockType::GRASS
                };
                let ghost before = chunk@.blocks;
                proof {
                    chunk.lemma_len();
                }
                let target = BlockCoordinate { x, y: 0, z };
                chunk.add_block(target, block_type);
                assert forall|a: int, b: int, c: int|
                    in_chunk_bounds(a, b, c) implies #[trigger] block_at(chunk@.blocks, a, b, c) == (if a < x || (
                    a == x && c < z + 1) {
                        planar_block(a, b, c)
                    } else {
                        None
                    }) by {
                    lemma_cell_index_injective(a, b, c, x as int, 0, z as int);
                    assert(block_at(before, a, b, c) == before[cell_index(a, b, c)]);
                    if a != x || b != 0 || c != z {
                        assert(chunk@.blocks[cell_index(a, b, c)] == before[cell_index(a, b, c)]);
                    }
                }
                z = z + 1;
            }
            x = x + 1;
        }
        chunk
    }
}

impl WorldGenerator for PlanarGenerator {
    /// The same planar layer for every chunk coordinate.
    fn generate(&self, coordinate: ChunkCoordinate) -> (r: Chunk)
        ensures
            forall|x: int, y: int, z: int|
                in_chunk_bounds(x, y, z) ==> #[trigger] block_at(r@.blocks, x, y, z) == planar_block(x, y, z),
    {
        self.generate_planar(coordinate)
    }
}

/// The kind of the surface block of a column of the given height.
pub open spec fn surface_type(height: int) -> BlockType {
    if height <= 0 {
        BlockType::SAND
    } else if height <= 12 {
        BlockType::GRASS
    } else {
        BlockType::STONE
    }
}

/// The block at world height `y` in a terrain column whose surface is at
/// `height`: the surface block itself, water from above the surface up to
/// the water table below `y = 0`, and stone from below the surface down to,
/// but not including, `-HEIGHT_OFFSET`.
pub open spec fn terrain_block(height: int, y: int) -> Option<BlockProperties> {
    if y == height {
        Some(BlockProperties { block_type: surface_type(height) })
    } else if height < y < 0 {
        Some(BlockProperties { block_type: BlockType::WATER })
    } else if -HEIGHT_OFFSET < y < height {
        Some(BlockProperties { block_type: BlockType::STONE })
    } else {
        None
    }
}

/// The kind of the surface block of a column of the given height.
pub fn get_block(height: i64) -> (r: BlockType)
    ensures
        r == surface_type(height as int),
{
    if height <= 0 {
        BlockType::SAND
    } else if height <= 12 {
        BlockType::GRASS
    } else {
        BlockType::STONE
    }
}

/// The block at world height `y` in a column whose surface is at `height`.
pub fn column_block(height: i64, y: i64) -> (r: Option<BlockProperties>)
    ensures
        r == terrain_block(height as int, y as int),
{
    if y == height {
        Some(BlockProperties { block_type: get_block(height) })
    } else if height < y && y < 0 {
        Some(BlockProperties { block_type: BlockType::WATER })
    } else if -HEIGHT_OFFSET < y && y < height {
        Some(BlockProperties { block_type: BlockType::STONE })
    } else {
        None
    }
}

/// Number of columns in a chunk.
pub const CHUNK_COLUMNS: usize = 256;

/// The terrain chunk at `coordinate` whose column `(x, z)` has its surface at
/// world height `heights[x * 16 + z]`; cells outside the chunk's vertical
/// extent are left out.
pub fn terrain_chunk(coordinate: ChunkCoordinate, heights: &Vec<i64>) -> (r: Chunk)
    requires
        coordinate.valid(),
        heights@.len() == CHUNK_COLUMNS,
    ensures
        r.wf(),
        r@.coordinates == coordinate,
        forall|x: int, y: int, z: int|
            in_chunk_bounds(x, y, z) ==> #[trigger] block_at(r@.blocks, x, y, z) == terrain_block(
                heights@[x * 16 + z] as int,
                y - HEIGHT_OFFSET,
            ),
{
    let mut chunk = Chunk::new(coordinate);
    let mut x: usize = 0;
    while x < 16
        invariant
            chunk.wf(),
            chunk@.coordinates == coordinate,
            heights@.len() == CHUNK_COLUMNS,
            x <= 16,
            forall|a: int, b: int, c: int|
                in_chunk_bounds(a, b, c) ==> #[trigger] block_at(chunk@.blocks, a, b, c) == (if a < x {
                    terrain_block(heights@[a * 16 + c] as int, b - HEIGHT_OFFSET)
                } else {
                    None
                }),
        decreases 16 - x,
    {
        let mut z: usize = 0;
        while z < 16
            invariant
                chunk.wf(),
                chunk@.coordinates == coordinate,
                heights@.len() == CHUNK_COLUMNS,
                x < 16,
                z <= 16,
                forall|a: int, b: int, c: int|
                    in_chunk_bounds(a, b, c) ==> #[trigger] block_at(chunk@.blocks, a, b, c) == (if a < x || (a
                        == x && c < z) {
                        terrain_block(heights@[a * 16 + c] as int, b - HEIGHT_OFFSET)
                    } else {
                        None
                    }),
            decreases 16 - z,
        {
            let height = heights[x * 16 + z];
            let mut y: usize = 0;
            while y < 64
                invariant
                    chunk.wf(),
                    chunk@.coordinates == coordinate,
                    heights@.len() == CHUNK_COLUMNS,
                    height == heights@[x * 16 + z],
                    x < 16,
                    z < 16,
                    y <= 64,
                    forall|a: int, b: int, c: int|
                        in_chunk_bounds(a, b, c) ==> #[trigger] block_at(chunk@.blocks, a, b, c) == (if a < x
                            || (a == x && c < z) || (a == x && c == z && b < y) {
                            terrain_block(heights@[a * 16 + c] as int, b - HEIGHT_OFFSET)
                        } else {
                            None
                        }),
                decreases 64 - y,
            {
                let ghost before = chunk@.blocks;
                proof {
                    chunk.lemma_len();
                }
                let placed = column_block(height, y as i64 - HEIGHT_OFFSET);
                if let Some(p) = placed {
                    chunk.add_block(BlockCoordinate { x, y, z }, p.block_type);
                }
                assert(chunk@.blocks == before.update(cell_index(x as int, y as int, z as int), placed)
                    || (placed is None && chunk@.blocks == before));
                assert forall|a: int, b: int, c: int|
                    in_chunk_bounds(a, b, c) implies #[trigger] block_at(chunk@.blocks, a, b, c) == (if a < x || (
                    a == x && c < z) || (a == x && c == z && b < y + 1) {
                        terrain_block(heights@[a * 16 + c] as int, b - HEIGHT_OFFSET)
                    } else {
                        None
                    }) by {
                    lemma_cell_index_injective(a, b, c, x as int, y as int, z as int);
                    lemma_cell_index_injective(x as int, y as int, z as int, a, b, c);
                    assert(block_at(before, a, b, c) == before[cell_index(a, b, c)]);
                    if a != x || b != y || c != z {
                        assert(before.update(cell_index(x as int, y as int, z as int), placed)[cell_index(a, b, c)]
                            == before[cell_index(a, b, c)]);
                    }
                }
                y = y + 1;
            }
            z = z + 1;
        }
        x = x + 1;
    }
    chunk
}

} // verus!
