//! A chunk: one chunk's blocks and its place in the world, with ray-driven
//! block removal and the list of blocks to draw.
use vstd::prelude::*;
use vstd::arithmetic::div_mod::{lemma_fundamental_div_mod, lemma_mod_pos_bound};
use crate::block::{Block, BlockProperties, BlockType};
use crate::coords::{
    BlockCoordinate, ChunkCoordinate, WorldCoordinate, CHUNK_HEIGHT, CHUNK_SIZE, HEIGHT_OFFSET,
    floor_div_mod,
};
use crate::march::{
    AxisModel, MarchModel, VoxelMarch, MAX_MARCH_STEPS, lemma_iterate_keeps_direction,
    lemma_step_moves_one_axis,
};
use crate::storage::{
    ChunkStorage, CHUNK_VOLUME, block_at, cell_index, exposed, in_chunk_bounds, index_of,
};

verus! {

/// A march takes at most this many steps in one call of `Chunk::remove`:
/// one more than the longest path through a chunk, `16 + 64 + 16` cells.
pub const CHUNK_SPAN: u64 = 97;

/// A chunk as mathematical values: where it stands and what it holds.
pub ghost struct ChunkView {
    pub coordinates: ChunkCoordinate,
    pub blocks: Seq<Option<BlockProperties>>,
}

/// Whether world cell `(x, y, z)` lies in chunk `c`.
pub open spec fn chunk_contains(c: ChunkCoordinate, x: int, y: int, z: int) -> bool {
    &&& c.x * CHUNK_SIZE <= x < c.x * CHUNK_SIZE + CHUNK_SIZE
    &&& -HEIGHT_OFFSET <= y < CHUNK_HEIGHT - HEIGHT_OFFSET
    &&& c.z * CHUNK_SIZE <= z < c.z * CHUNK_SIZE + CHUNK_SIZE
}

/// The block of chunk `c` at world cell `(x, y, z)`; none outside the chunk.
pub open spec fn block_in(c: ChunkCoordinate, blocks: Seq<Option<BlockProperties>>, x: int, y: int, z: int) -> Option<
    BlockProperties,
> {
    block_at(blocks, x - c.x * CHUNK_SIZE, y + HEIGHT_OFFSET, z - c.z * CHUNK_SIZE)
}

/// Storage position, in chunk `c`, of world cell `(x, y, z)`.
pub open spec fn local_index(c: ChunkCoordinate, x: int, y: int, z: int) -> int {
    cell_index(x - c.x * CHUNK_SIZE, y + HEIGHT_OFFSET, z - c.z * CHUNK_SIZE)
}

/// Whether a march's current cell lies in chunk `c`.
pub open spec fn march_in(c: ChunkCoordinate, m: MarchModel) -> bool {
    chunk_contains(c, m.x.pos, m.y.pos, m.z.pos)
}

/// The block of chunk `c` at a march's current cell.
pub open spec fn march_block(c: ChunkCoordinate, blocks: Seq<Option<BlockProperties>>, m: MarchModel) -> Option<
    BlockProperties,
> {
    block_in(c, blocks, m.x.pos, m.y.pos, m.z.pos)
}

/// Whether steps `1..=k` from `m` all stay in chunk `c` on empty cells.
pub open spec fn passes_empty(c: ChunkCoordinate, blocks: Seq<Option<BlockProperties>>, m: MarchModel, k: int) -> bool {
    forall|j: nat|
        1 <= j <= k ==> march_in(c, #[trigger] m.iterate(j)) && march_block(c, blocks, m.iterate(j)).is_none()
}

/// Steps left along one axis before leaving `[lo, hi)`.
pub open spec fn axis_exit(a: AxisModel, lo: int, hi: int) -> int {
    if a.step > 0 {
        hi - a.pos
    } else if a.step < 0 {
        a.pos - lo + 1
    } else {
        0
    }
}

/// Steps left, summed over the axes, before a march leaves chunk `c`.
pub open spec fn exit_distance(c: ChunkCoordinate, m: MarchModel) -> int {
    axis_exit(m.x, c.x * CHUNK_SIZE, c.x * CHUNK_SIZE + CHUNK_SIZE) + axis_exit(
        m.y,
        -HEIGHT_OFFSET,
        CHUNK_HEIGHT - HEIGHT_OFFSET,
    ) + axis_exit(m.z, c.z * CHUNK_SIZE, c.z * CHUNK_SIZE + CHUNK_SIZE)
}

/// Local `x` of storage position `i`.
pub open spec fn cell_x(i: int) -> int {
    i / 1024
}

/// Local `z` of storage position `i`.
pub open spec fn cell_z(i: int) -> int {
    (i % 1024) / 64
}

/// Local `y` of storage position `i`.
pub open spec fn cell_y(i: int) -> int {
    (i % 1024) % 64
}

/// Storage positions and local coordinates correspond one to one.
pub proof fn lemma_cell_of_index(i: int)
    requires
        0 <= i < CHUNK_VOLUME,
    ensures
        in_chunk_bounds(cell_x(i), cell_y(i), cell_z(i)),
        cell_index(cell_x(i), cell_y(i), cell_z(i)) == i,
{
    assert(CHUNK_SIZE * CHUNK_HEIGHT == 1024);
    lemma_fundamental_div_mod(i, 1024);
    lemma_mod_pos_bound(i, 1024);
    lemma_fundamental_div_mod(i % 1024, 64);
    lemma_mod_pos_bound(i % 1024, 64);
}

/// The draw record of storage position `i` of chunk `c`, when it holds a
/// visible block.
pub open spec fn render_record(c: ChunkCoordinate, blocks: Seq<Option<BlockProperties>>, i: int) -> Option<Block> {
    let (x, y, z) = (cell_x(i), cell_y(i), cell_z(i));
    match block_at(blocks, x, y, z) {
        Some(p) => if exposed(blocks, x, y, z) {
            Some(
                Block {
                    position: WorldCoordinate {
                        x: (c.x * CHUNK_SIZE + x) as i64,
                        y: (y - HEIGHT_OFFSET) as i64,
                        z: (c.z * CHUNK_SIZE + z) as i64,
                    },
                    block_type: p.block_type,
                },
            )
        } else {
            None
        },
        None => None,
    }
}

/// The draw records of the visible blocks among the first `n` storage
/// positions, in storage order.
pub open spec fn rendered_prefix(c: ChunkCoordinate, blocks: Seq<Option<BlockProperties>>, n: nat) -> Seq<Block>
    decreases n,
{
    if n == 0 {
        Seq::empty()
    } else {
        let prev = rendered_prefix(c, blocks, (n - 1) as nat);
        match render_record(c, blocks, n - 1) {
            Some(b) => prev.push(b),
            None => prev,
        }
    }
}

/// The draw records of all visible blocks of a chunk.
pub open spec fn rendered(v: ChunkView) -> Seq<Block> {
    rendered_prefix(v.coordinates, v.blocks, CHUNK_VOLUME as nat)
}

/// One chunk of the world.
pub struct Chunk {
    coordinates: ChunkCoordinate,
    storage: ChunkStorage,
}

impl View for Chunk {
    type V = ChunkView;

    closed spec fn view(&self) -> ChunkView {
        ChunkView { coordinates: self.coordinates, blocks: self.storage@ }
    }
}

impl Chunk {
    pub closed spec fn wf(&self) -> bool {
        self.coordinates.valid() && self.storage.wf()
    }

    pub proof fn lemma_len(&self)
        requires
            self.wf(),
        ensures
            self@.blocks.len() == CHUNK_VOLUME,
            self@.coordinates.valid(),
    {
        self.storage.lemma_len();
    }

    /// Whether the visibility cache is up to date.
    pub closed spec fn is_fresh(&self) -> bool {
        self.storage.is_fresh()
    }

    /// An empty chunk at `coordinates`.
    pub fn new(coordinates: ChunkCoordinate) -> (r: Chunk)
        requires
            coordinates.valid(),
        ensures
            r.wf(),
            r@.coordinates == coordinates,
            r@.blocks == Seq::new(CHUNK_VOLUME as nat, |i: int| None::<BlockProperties>),
            forall|x: int, y: int, z: int| in_chunk_bounds(x, y, z) ==> #[trigger] block_at(r@.blocks, x, y, z) is None,
    {
        let r = Chunk { coordinates, storage: ChunkStorage::new() };
        proof {
            assert forall|x: int, y: int, z: int| in_chunk_bounds(x, y, z) implies #[trigger] block_at(
                r@.blocks,
                x,
                y,
                z,
            ) is None by {
                crate::storage::lemma_cell_index_injective(x, y, z, 0, 0, 0);
            }
        }
        r
    }

    pub fn coordinates(&self) -> (r: ChunkCoordinate)
        ensures
            r == self@.coordinates,
    {
        self.coordinates
    }

    /// The block at a local coordinate.
    pub fn get(&self, coordinate: &BlockCoordinate) -> (r: Option<BlockProperties>)
        requires
            self.wf(),
            coordinate.in_bounds(),
        ensures
            r == self@.blocks[index_of(*coordinate)],
    {
        self.storage.get(coordinate)
    }

    /// Places a block of kind `block_type` at a local coordinate.
    pub fn add_block(&mut self, coordinate: BlockCoordinate, block_type: BlockType)
        requires
            old(self).wf(),
            coordinate.in_bounds(),
        ensures
            final(self).wf(),
            final(self)@.coordinates == old(self)@.coordinates,
            final(self)@.blocks == old(self)@.blocks.update(
                index_of(coordinate),
                Some(BlockProperties { block_type }),
            ),
    {
        self.storage.set(&coordinate, Some(BlockProperties { block_type }));
    }

    /// The chunk's origin in world space: its coordinate times `CHUNK_SIZE`
    /// on `x` and `z`, and `0` on `y`. A local `y` maps to world `y` by
    /// subtracting `HEIGHT_OFFSET`.
    pub fn world_origin(&self) -> (r: WorldCoordinate)
        requires
            self.wf(),
        ensures
            r.x == self@.coordinates.x * CHUNK_SIZE,
            r.y == 0,
            r.z == self@.coordinates.z * CHUNK_SIZE,
    {
        WorldCoordinate {
            x: self.coordinates.x * CHUNK_SIZE,
            y: 0,
            z: self.coordinates.z * CHUNK_SIZE,
        }
    }

    /// The local coordinate of a world cell, when the cell lies in this chunk.
    pub fn to_chunk_coords(&self, block: &WorldCoordinate) -> (r: Option<BlockCoordinate>)
        requires
            self.wf(),
        ensures
            r.is_some() == chunk_contains(self@.coordinates, block.x as int, block.y as int, block.z as int),
            r matches Some(l) ==> {
                &&& l.in_bounds()
                &&& l.x == block.x - self@.coordinates.x * CHUNK_SIZE
                &&& l.y == block.y + HEIGHT_OFFSET
                &&& l.z == block.z - self@.coordinates.z * CHUNK_SIZE
            },
    {
        let (qx, rx) = floor_div_mod(block.x, CHUNK_SIZE);
        let (qz, rz) = floor_div_mod(block.z, CHUNK_SIZE);
        if qx == self.coordinates.x && qz == self.coordinates.z && block.y >= -HEIGHT_OFFSET && block.y
            < CHUNK_HEIGHT - HEIGHT_OFFSET {
            Some(BlockCoordinate { x: rx as usize, y: (block.y + HEIGHT_OFFSET) as usize, z: rz as usize })
        } else {
            None
        }
    }

    /// Rebuilds the visibility cache when a change has dropped it.
    pub fn update_visible(&mut self)
        requires
            old(self).wf(),
        ensures
            final(self).wf(),
            final(self)@ == old(self)@,
            final(self).is_fresh(),
    {
        self.storage.update_visible();
    }

    /// Whether the block at a local coordinate is visible.
    pub fn is_visible(&mut self, coordinate: &BlockCoordinate) -> (r: bool)
        requires
            old(self).wf(),
            coordinate.in_bounds(),
        ensures
            final(self).wf(),
            final(self)@ == old(self)@,
            r == exposed(old(self)@.blocks, coordinate.x as int, coordinate.y as int, coordinate.z as int),
    {
        self.storage.is_visible(coordinate)
    }

    /// Marches `ray` through this chunk. Each step whose cell lies in the
    /// chunk is taken; the first such cell that holds a block is cleared and
    /// `true` returned. When the next cell lies outside the chunk, `false` is
    /// returned without taking that step, so that the next chunk can go on.
    pub fn remove(&mut self, ray: &mut VoxelMarch) -> (r: bool)
        requires
            old(self).wf(),
            old(ray).wf(),
            old(ray)@.moving(),
            old(ray)@.steps + CHUNK_SPAN <= MAX_MARCH_STEPS,
        ensures
            final(self).wf(),
            final(ray).wf(),
            final(self)@.coordinates == old(self)@.coordinates,
            old(ray)@.steps <= final(ray)@.steps < old(ray)@.steps + CHUNK_SPAN,
            final(ray)@ == old(ray)@.iterate((final(ray)@.steps - old(ray)@.steps) as nat),
            ({
                let c = old(self)@.coordinates;
                let b = old(self)@.blocks;
                let k = final(ray)@.steps - old(ray)@.steps;
                let m = final(ray)@;
                &&& r ==> {
                    &&& k >= 1
                    &&& passes_empty(c, b, old(ray)@, k - 1)
                    &&& march_in(c, m)
                    &&& march_block(c, b, m).is_some()
                    &&& final(self)@.blocks == b.update(local_index(c, m.x.pos, m.y.pos, m.z.pos), None)
                }
                &&& !r ==> {
                    &&& passes_empty(c, b, old(ray)@, k)
                    &&& !march_in(c, m.advanced())
                    &&& final(self)@.blocks == b
                }
            }),
    {
        let ghost m0 = ray@;
        let ghost b0 = self.storage@;
        let ghost c = self.coordinates;
        proof {
            ray.lemma_wf_consistent();
        }
        loop
            invariant
                m0 == old(ray)@,
                b0 == old(self)@.blocks,
                c == old(self)@.coordinates,
                self.wf(),
                self.coordinates == c,
                self.storage@ == b0,
                ray.wf(),
                m0.consistent(),
                m0.moving(),
                m0.steps + CHUNK_SPAN <= MAX_MARCH_STEPS,
                m0.steps <= ray@.steps,
                ray@ == m0.iterate((ray@.steps - m0.steps) as nat),
                ray@.steps > m0.steps ==> march_in(c, ray@) && 1 <= exit_distance(c, ray@) && ray@.steps - m0.steps
                    + exit_distance(c, ray@) <= CHUNK_SPAN,
                passes_empty(c, b0, m0, ray@.steps - m0.steps),
            decreases (if march_in(c, ray@) {
                exit_distance(c, ray@)
            } else {
                CHUNK_SPAN as int
            }),
        {
            let ghost k: nat = (ray@.steps - m0.steps) as nat;
            proof {
                lemma_iterate_keeps_direction(m0, k);
                lemma_step_moves_one_axis(ray@);
                assert(m0.iterate(k + 1) == m0.iterate(k).advanced());
            }
            let mut probe = *ray;
            let (cell, _) = probe.next();
            match self.to_chunk_coords(&cell) {
                None => {
                    return false;
                },
                Some(local) => {
                    *ray = probe;
                    proof {
                        assert(march_in(c, ray@));
                        assert(ray@ == m0.iterate(k + 1));
                    }
                    if self.storage.get(&local).is_some() {
                        self.storage.set(&local, None);
                        return true;
                    }
                    proof {
                        assert forall|j: nat| 1 <= j <= k + 1 implies march_in(c, #[trigger] m0.iterate(j))
                            && march_block(c, b0, m0.iterate(j)).is_none() by {
                            if j <= k {
                                assert(march_in(c, m0.iterate(j)));
                            }
                        }
                    }
                },
            }
        }
    }

    /// Whether the block at a local coordinate is visible; leaves the chunk
    /// as it is.
    pub fn visible_at(&self, coordinate: &BlockCoordinate) -> (r: bool)
        requires
            self.wf(),
            coordinate.in_bounds(),
        ensures
            r == exposed(self@.blocks, coordinate.x as int, coordinate.y as int, coordinate.z as int),
    {
        self.storage.visible_at(coordinate)
    }

    /// The draw records of exactly the visible blocks, in storage order.
    pub fn visible_blocks(&self) -> (r: Vec<Block>)
        requires
            self.wf(),
        ensures
            r@ == rendered(self@),
    {
        let origin = self.world_origin();
        let mut out: Vec<Block> = Vec::new();
        let mut i: usize = 0;
        while i < CHUNK_VOLUME
            invariant
                self.wf(),
                i <= CHUNK_VOLUME,
                origin.x == self@.coordinates.x * CHUNK_SIZE,
                origin.z == self@.coordinates.z * CHUNK_SIZE,
                out@ == rendered_prefix(self@.coordinates, self@.blocks, i as nat),
            decreases CHUNK_VOLUME - i,
        {
            proof {
                lemma_cell_of_index(i as int);
            }
            let rest = i % 1024;
            let c = BlockCoordinate { x: i / 1024, y: rest % 64, z: rest / 64 };
            if self.storage.visible_at(&c) {
                match self.storage.get(&c) {
                    Some(p) => {
                        out.push(
                            Block {
                                position: WorldCoordinate {
                                    x: origin.x + c.x as i64,
                                    y: c.y as i64 - HEIGHT_OFFSET,
                                    z: origin.z + c.z as i64,
                                },
                                block_type: p.block_type,
                            },
                        );
                    },
                    None => {},
                }
            }
            i = i + 1;
        }
        out
    }
}

} // verus!
