//! Dense block storage for one chunk, with a cached visibility array.
use vstd::prelude::*;
use crate::block::{BlockProperties, BlockType};
use crate::coords::{BlockCoordinate, CHUNK_HEIGHT, CHUNK_SIZE};

verus! {

/// Number of cells in a chunk: `CHUNK_SIZE * CHUNK_SIZE * CHUNK_HEIGHT`.
pub const CHUNK_VOLUME: usize = 16384;

/// Position of local cell `(x, y, z)` in the storage arrays: columns are
/// contiguous, `y` varying fastest.
pub open spec fn cell_index(x: int, y: int, z: int) -> int {
    x * (CHUNK_SIZE * CHUNK_HEIGHT) + z * CHUNK_HEIGHT + y
}

pub open spec fn in_chunk_bounds(x: int, y: int, z: int) -> bool {
    0 <= x < CHUNK_SIZE && 0 <= y < CHUNK_HEIGHT && 0 <= z < CHUNK_SIZE
}

/// The block at a local position; outside the chunk there is none.
pub open spec fn block_at(blocks: Seq<Option<BlockProperties>>, x: int, y: int, z: int) -> Option<
    BlockProperties,
> {
    if in_chunk_bounds(x, y, z) {
        blocks[cell_index(x, y, z)]
    } else {
        None
    }
}

/// The visibility rule, a scan of each column from `y = 0` upward that
/// starts in air: a present block is drawn when it is water, when it is
/// entered from air (the cell below holds no block, or it is the bottom
/// cell), or when the column turns to air just above it within the chunk.
/// The top of the chunk is not a turn to air.
pub open spec fn exposed(blocks: Seq<Option<BlockProperties>>, x: int, y: int, z: int) -> bool {
    match block_at(blocks, x, y, z) {
        None => false,
        Some(b) => b.block_type == BlockType::WATER || block_at(blocks, x, y - 1, z).is_none()
            || (y + 1 < CHUNK_HEIGHT && block_at(blocks, x, y + 1, z).is_none()),
    }
}

pub open spec fn index_of(c: BlockCoordinate) -> int {
    cell_index(c.x as int, c.y as int, c.z as int)
}

/// Distinct cells within bounds have distinct storage positions, all below
/// `CHUNK_VOLUME`.
pub proof fn lemma_cell_index_injective(x1: int, y1: int, z1: int, x2: int, y2: int, z2: int)
    requires
        in_chunk_bounds(x1, y1, z1),
        in_chunk_bounds(x2, y2, z2),
    ensures
        0 <= cell_index(x1, y1, z1) < CHUNK_VOLUME,
        cell_index(x1, y1, z1) == cell_index(x2, y2, z2) ==> x1 == x2 && y1 == y2 && z1 == z2,
{
    assert(CHUNK_SIZE * CHUNK_HEIGHT == 1024);
    if cell_index(x1, y1, z1) == cell_index(x2, y2, z2) {
        if x1 < x2 {
            assert(x1 * 1024 + 1024 <= x2 * 1024);
        } else if x2 < x1 {
            assert(x2 * 1024 + 1024 <= x1 * 1024);
        }
        assert(x1 == x2);
        if z1 < z2 {
            assert(z1 * 64 + 64 <= z2 * 64);
        } else if z2 < z1 {
            assert(z2 * 64 + 64 <= z1 * 64);
        }
    }
}

/// The blocks of one chunk, each cell present or absent, and a cache of
/// which present blocks are visible. Writing a cell drops the cache; reading
/// visibility rebuilds it when it is missing.
pub struct ChunkStorage {
    blocks: Vec<Option<BlockProperties>>,
    visible: Option<Vec<bool>>,
}

impl View for ChunkStorage {
    type V = Seq<Option<BlockProperties>>;

    closed spec fn view(&self) -> Seq<Option<BlockProperties>> {
        self.blocks@
    }
}

fn cell_position(c: &BlockCoordinate) -> (r: usize)
    requires
        c.in_bounds(),
    ensures
        r == index_of(*c),
        r < CHUNK_VOLUME,
{
    c.x * 1024 + c.z * 64 + c.y
}

impl ChunkStorage {
    /// The storage has its fixed size, and a cache, when there is one, holds
    /// the visibility rule of every cell.
    pub closed spec fn wf(&self) -> bool {
        &&& self.blocks@.len() == CHUNK_VOLUME
        &&& self.visible matches Some(v) ==> {
            &&& v@.len() == CHUNK_VOLUME
            &&& forall|x: int, y: int, z: int|
                in_chunk_bounds(x, y, z) ==> #[trigger] v@[cell_index(x, y, z)] == exposed(
                    self.blocks@,
                    x,
                    y,
                    z,
                )
        }
    }

    pub proof fn lemma_len(&self)
        requires
            self.wf(),
        ensures
            self@.len() == CHUNK_VOLUME,
    {
    }

    /// Whether the visibility cache is present.
    pub closed spec fn is_fresh(&self) -> bool {
        self.visible.is_some()
    }

    /// The block at an in-bounds coordinate.
    pub open spec fn spec_get(&self, c: BlockCoordinate) -> Option<BlockProperties> {
        self@[index_of(c)]
    }

    /// An empty chunk.
    pub fn new() -> (r: ChunkStorage)
        ensures
            r.wf(),
            r@ == Seq::new(CHUNK_VOLUME as nat, |i: int| None::<BlockProperties>),
            !r.is_fresh(),
    {
        let mut blocks: Vec<Option<BlockProperties>> = Vec::new();
        let mut i: usize = 0;
        while i < CHUNK_VOLUME
            invariant
                i <= CHUNK_VOLUME,
                blocks@ == Seq::new(i as nat, |j: int| None::<BlockProperties>),
            decreases CHUNK_VOLUME - i,
        {
            blocks.push(None);
            i = i + 1;
        }
        ChunkStorage { blocks, visible: None }
    }

    /// The block at `c`, or `None` when the cell is empty.
    pub fn get(&self, c: &BlockCoordinate) -> (r: Option<BlockProperties>)
        requires
            self.wf(),
            c.in_bounds(),
        ensures
            r == self.spec_get(*c),
            r == block_at(self@, c.x as int, c.y as int, c.z as int),
    {
        self.blocks[cell_position(c)]
    }

    /// Overwrites the cell at `c` and drops the visibility cache.
    pub fn set(&mut self, c: &BlockCoordinate, value: Option<BlockProperties>)
        requires
            old(self).wf(),
            c.in_bounds(),
        ensures
            final(self).wf(),
            final(self)@ == old(self)@.update(index_of(*c), value),
            !final(self).is_fresh(),
    {
        let i = cell_position(c);
        self.blocks.set(i, value);
        self.visible = None;
    }

    /// The visibility rule at `c`, computed from the blocks.
    fn compute_cell(&self, c: &BlockCoordinate) -> (r: bool)
        requires
            self.wf(),
            c.in_bounds(),
        ensures
            r == exposed(self@, c.x as int, c.y as int, c.z as int),
    {
        let i = cell_position(c);
        proof {
            lemma_cell_index_injective(c.x as int, c.y as int, c.z as int, 0, 0, 0);
            if c.y + 1 < 64 {
                lemma_cell_index_injective(c.x as int, c.y + 1, c.z as int, 0, 0, 0);
            }
        }
        match self.blocks[i] {
            None => false,
            Some(b) => {
                if b.block_type.is_water() {
                    true
                } else if c.y == 0 || self.blocks[i - 1].is_none() {
                    true
                } else {
                    c.y + 1 < 64 && self.blocks[i + 1].is_none()
                }
            },
        }
    }

    /// The visibility of every cell, in storage order.
    fn compute_all(&self) -> (r: Vec<bool>)
        requires
            self.wf(),
        ensures
            r@.len() == CHUNK_VOLUME,
            forall|x: int, y: int, z: int|
                in_chunk_bounds(x, y, z) ==> #[trigger] r@[cell_index(x, y, z)] == exposed(
                    self@,
                    x,
                    y,
                    z,
                ),
    {
        let mut v: Vec<bool> = Vec::new();
        let mut x: usize = 0;
        while x < 16
            invariant
                self.wf(),
                x <= 16,
                v@.len() == x * 1024,
                forall|a: int, b: int, c: int|
                    in_chunk_bounds(a, b, c) && cell_index(a, b, c) < v@.len() ==> #[trigger] v@[cell_index(a, b, c)]
                        == exposed(self@, a, b, c),
            decreases 16 - x,
        {
            let mut z: usize = 0;
            while z < 16
                invariant
                    self.wf(),
                    x < 16,
                    z <= 16,
                    v@.len() == x * 1024 + z * 64,
                    forall|a: int, b: int, c: int|
                        in_chunk_bounds(a, b, c) && cell_index(a, b, c) < v@.len() ==> #[trigger] v@[cell_index(a, b, c)]
                            == exposed(self@, a, b, c),
                decreases 16 - z,
            {
                let mut y: usize = 0;
                while y < 64
                    invariant
                        self.wf(),
                        x < 16,
                        z < 16,
                        y <= 64,
                        v@.len() == x * 1024 + z * 64 + y,
                        forall|a: int, b: int, c: int|
                            in_chunk_bounds(a, b, c) && cell_index(a, b, c) < v@.len() ==> #[trigger] v@[cell_index(a, b, c)]
                                == exposed(self@, a, b, c),
                    decreases 64 - y,
                {
                    let seen = self.compute_cell(&BlockCoordinate { x, y, z });
                    let ghost before = v@;
                    v.push(seen);
                    assert forall|a: int, b: int, c: int|
                        in_chunk_bounds(a, b, c) && cell_index(a, b, c) < v@.len() implies #[trigger] v@[cell_index(a, b, c)]
                            == exposed(self@, a, b, c) by {
                        lemma_cell_index_injective(a, b, c, x as int, y as int, z as int);
                        if cell_index(a, b, c) < before.len() {
                            assert(v@[cell_index(a, b, c)] == before[cell_index(a, b, c)]);
                        }
                    }
                    y = y + 1;
                }
                z = z + 1;
            }
            x = x + 1;
        }
        v
    }

    /// Rebuilds the visibility cache when it is missing.
    pub fn update_visible(&mut self)
        requires
            old(self).wf(),
        ensures
            final(self).wf(),
            final(self)@ == old(self)@,
            final(self).is_fresh(),
    {
        if self.visible.is_none() {
            let v = self.compute_all();
            self.visible = Some(v);
        }
    }

    /// Whether the block at `c` is visible, rebuilding the cache first when
    /// a write has dropped it.
    pub fn is_visible(&mut self, c: &BlockCoordinate) -> (r: bool)
        requires
            old(self).wf(),
            c.in_bounds(),
        ensures
            final(self).wf(),
            final(self)@ == old(self)@,
            final(self).is_fresh(),
            r == exposed(old(self)@, c.x as int, c.y as int, c.z as int),
    {
        self.update_visible();
        match &self.visible {
            Some(v) => v[cell_position(c)],
            None => false,
        }
    }

    /// Whether the block at `c` is visible, from the cache when it is
    /// present and from the blocks otherwise; the storage is left as it is.
    pub fn visible_at(&self, c: &BlockCoordinate) -> (r: bool)
        requires
            self.wf(),
            c.in_bounds(),
        ensures
            r == exposed(self@, c.x as int, c.y as int, c.z as int),
    {
        match &self.visible {
            Some(v) => v[cell_position(c)],
            None => self.compute_cell(c),
        }
    }
}


/// Visibility in a column: a present block whose six neighbours are all
/// absent is visible; a present block that is not water and whose six
/// neighbours are all present and not water is not visible; a water block
/// is always visible.
pub proof fn lemma_visibility_rule(blocks: Seq<Option<BlockProperties>>, x: int, y: int, z: int)
    requires
        in_chunk_bounds(x, y, z),
    ensures
        ({
            &&& block_at(blocks, x, y, z).is_some()
            &&& block_at(blocks, x - 1, y, z).is_none()
            &&& block_at(blocks, x + 1, y, z).is_none()
            &&& block_at(blocks, x, y - 1, z).is_none()
            &&& block_at(blocks, x, y + 1, z).is_none()
            &&& block_at(blocks, x, y, z - 1).is_none()
            &&& block_at(blocks, x, y, z + 1).is_none()
        }) ==> exposed(blocks, x, y, z),
        ({
            &&& solid(block_at(blocks, x, y, z))
            &&& solid(block_at(blocks, x - 1, y, z))
            &&& solid(block_at(blocks, x + 1, y, z))
            &&& solid(block_at(blocks, x, y - 1, z))
            &&& solid(block_at(blocks, x, y + 1, z))
            &&& solid(block_at(blocks, x, y, z - 1))
            &&& solid(block_at(blocks, x, y, z + 1))
        }) ==> !exposed(blocks, x, y, z),
        block_at(blocks, x, y, z) matches Some(b) && b.block_type == BlockType::WATER ==> exposed(
            blocks,
            x,
            y,
            z,
        ),
{
}

/// A present block that is not water.
pub open spec fn solid(b: Option<BlockProperties>) -> bool {
    b matches Some(p) && p.block_type != BlockType::WATER
}

} // verus!
