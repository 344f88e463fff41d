//! The world: the loaded chunks, the chunks being generated, and the queries
//! that span chunks.
//!
//! Generation itself runs elsewhere. Each `update_chunks` call takes the
//! chunks finished since the last call and hands back the coordinates that
//! should now be generated.
use vstd::prelude::*;
use crate::block::BlockProperties;
use crate::chunk::{Chunk, ChunkView, CHUNK_SPAN, block_in, local_index, march_in, march_block, passes_empty};
use crate::coords::{
    ChunkCoordinate, Fixed3, WorldCoordinate, CHUNK_COORD_MAX, CHUNK_COORD_MIN, CHUNK_HEIGHT, CHUNK_SIZE,
    HEIGHT_OFFSET, RENDER_DISTANCE, floor_div_mod,
};
use crate::march::{MarchModel, VoxelMarch, MAX_MARCH_STEPS, lemma_iterate_keeps_direction, lemma_start_consistent, march_start};

verus! {

/// The world as mathematical values: the blocks of each loaded chunk, by
/// coordinate, and the coordinates whose generation is under way.
pub ghost struct WorldView {
    pub loaded: Map<ChunkCoordinate, Seq<Option<BlockProperties>>>,
    pub in_flight: Set<ChunkCoordinate>,
}

/// The chunk that holds world column `(x, z)`.
pub open spec fn chunk_of(x: int, z: int) -> ChunkCoordinate {
    ChunkCoordinate { x: (x / (CHUNK_SIZE as int)) as i64, z: (z / (CHUNK_SIZE as int)) as i64 }
}

/// Whether chunk `c` is within render distance of chunk `center`.
pub open spec fn in_range(center: ChunkCoordinate, c: ChunkCoordinate) -> bool {
    &&& c.valid()
    &&& center.x - RENDER_DISTANCE <= c.x <= center.x + RENDER_DISTANCE
    &&& center.z - RENDER_DISTANCE <= c.z <= center.z + RENDER_DISTANCE
}

/// The world after a finished chunk is merged: it is loaded, replacing any
/// chunk at its coordinate, and its generation is no longer under way.
pub open spec fn merge_one(v: WorldView, f: ChunkView) -> WorldView {
    WorldView { loaded: v.loaded.insert(f.coordinates, f.blocks), in_flight: v.in_flight.remove(f.coordinates) }
}

/// The world after the first `n` finished chunks are merged, in order.
pub open spec fn merge_all(v: WorldView, fs: Seq<ChunkView>, n: nat) -> WorldView
    decreases n,
{
    if n == 0 {
        v
    } else {
        merge_one(merge_all(v, fs, (n - 1) as nat), fs[n - 1])
    }
}

/// The coordinates that a camera in chunk `center` asks to generate: those
/// in range that are neither loaded nor under way.
pub open spec fn to_dispatch(v: WorldView, center: ChunkCoordinate) -> Set<ChunkCoordinate> {
    Set::new(|c: ChunkCoordinate| in_range(center, c) && !v.loaded.contains_key(c) && !v.in_flight.contains(c))
}

/// The world after the camera in chunk `center` has had the chunks of
/// `to_dispatch` sent out for generation.
pub open spec fn dispatched(v: WorldView, center: ChunkCoordinate) -> WorldView {
    WorldView { loaded: v.loaded, in_flight: v.in_flight.union(to_dispatch(v, center)) }
}

/// The views of a sequence of chunks.
pub open spec fn views(fs: Seq<Chunk>) -> Seq<ChunkView> {
    fs.map_values(|c: Chunk| c@)
}

/// Most stretches of cells that one `intersect` query examines.
pub const INTERSECT_BUDGET: u64 = 200;

/// Whether world height `y` lies within the chunks' vertical extent.
pub open spec fn in_height(y: int) -> bool {
    -HEIGHT_OFFSET <= y < CHUNK_HEIGHT - HEIGHT_OFFSET
}

/// The chunk that holds a march's current cell.
pub open spec fn march_chunk(m: MarchModel) -> ChunkCoordinate {
    chunk_of(m.x.pos, m.z.pos)
}

/// The block of the world at a march's current cell; none where that cell's
/// chunk is not loaded.
pub open spec fn world_block(v: WorldView, m: MarchModel) -> Option<BlockProperties> {
    let c = march_chunk(m);
    if v.loaded.contains_key(c) {
        block_in(c, v.loaded[c], m.x.pos, m.y.pos, m.z.pos)
    } else {
        None
    }
}

/// Whether step `j` of a march from `m0` begins a new stretch: the first
/// step, a step from a cell above or below the chunks' extent, or a step out
/// of the chunk of the previous cell. A query examines its cells stretch by
/// stretch.
pub open spec fn stretch_start(m0: MarchModel, j: int) -> bool {
    j == 1 || !in_height(m0.iterate((j - 1) as nat).y.pos) || !march_in(
        march_chunk(m0.iterate((j - 1) as nat)),
        m0.iterate(j as nat),
    )
}

/// The number of stretches that steps `1..=n` of a march from `m0` span.
pub open spec fn stretches(m0: MarchModel, n: nat) -> nat
    decreases n,
{
    if n == 0 {
        0
    } else {
        stretches(m0, (n - 1) as nat) + if stretch_start(m0, n as int) {
            1nat
        } else {
            0nat
        }
    }
}

/// Whether steps `1..=n` of a march from `m0` all reach loaded chunks and
/// find no block.
pub open spec fn clear_through(v: WorldView, m0: MarchModel, n: int) -> bool {
    forall|j: nat|
        1 <= j <= n ==> v.loaded.contains_key(march_chunk(#[trigger] m0.iterate(j))) && world_block(
            v,
            m0.iterate(j),
        ).is_none()
}

/// Whether a query along the march from `m0` stops at step `n` on a block:
/// the ray moves, the step lies within the stretch budget, every earlier
/// step reached a loaded chunk and found no block, and step `n` finds one.
pub open spec fn hits_at(v: WorldView, m0: MarchModel, n: nat) -> bool {
    &&& n >= 1
    &&& m0.moving()
    &&& stretches(m0, n) <= INTERSECT_BUDGET
    &&& clear_through(v, m0, n - 1)
    &&& world_block(v, m0.iterate(n)).is_some()
}

/// The world without the block at a march's current cell.
pub open spec fn without_block(v: WorldView, m: MarchModel) -> WorldView {
    let c = march_chunk(m);
    WorldView {
        loaded: v.loaded.insert(c, v.loaded[c].update(local_index(c, m.x.pos, m.y.pos, m.z.pos), None)),
        in_flight: v.in_flight,
    }
}

pub proof fn lemma_iterate_add(m: MarchModel, a: nat, b: nat)
    ensures
        m.iterate(a).iterate(b) == m.iterate(a + b),
    decreases b,
{
    if b > 0 {
        lemma_iterate_add(m, a, (b - 1) as nat);
        assert(m.iterate(a + b) == m.iterate((a + b - 1) as nat).advanced());
    }
}

pub proof fn lemma_stretches_monotone(m0: MarchModel, a: nat, b: nat)
    requires
        a <= b,
    ensures
        stretches(m0, a) <= stretches(m0, b),
    decreases b,
{
    if a < b {
        lemma_stretches_monotone(m0, a, (b - 1) as nat);
    }
}

pub proof fn lemma_stretches_flat(m0: MarchModel, a: nat, b: nat)
    requires
        a <= b,
        forall|j: int| a < j <= b ==> !#[trigger] stretch_start(m0, j),
    ensures
        stretches(m0, b) == stretches(m0, a),
    decreases b,
{
    if a < b {
        lemma_stretches_flat(m0, a, (b - 1) as nat);
        assert(!stretch_start(m0, b as int));
    }
}

/// A cell that lies in chunk `c` is held by chunk `c`.
pub proof fn lemma_contained_chunk(c: ChunkCoordinate, m: MarchModel)
    requires
        march_in(c, m),
    ensures
        march_chunk(m) == c,
        in_height(m.y.pos),
{
    vstd::arithmetic::div_mod::lemma_fundamental_div_mod_converse(
        m.x.pos,
        CHUNK_SIZE as int,
        c.x as int,
        m.x.pos - c.x * CHUNK_SIZE,
    );
    vstd::arithmetic::div_mod::lemma_fundamental_div_mod_converse(
        m.z.pos,
        CHUNK_SIZE as int,
        c.z as int,
        m.z.pos - c.z * CHUNK_SIZE,
    );
}

/// All loaded chunks and the chunks under way.
pub struct World {
    seed: u32,
    /// The loaded chunks, at most one per coordinate. A `Vec` searched by
    /// coordinate serves as the map: vstd specifies `HashMap` lookups only for
    /// keys whose hashing it models, which a two-field coordinate is not, and
    /// the render square keeps the number of lookups per call small.
    chunks: Vec<Chunk>,
    generated: Vec<ChunkCoordinate>,
    model: Ghost<WorldView>,
}

impl View for World {
    type V = WorldView;

    closed spec fn view(&self) -> WorldView {
        self.model@
    }
}

impl World {
    /// `chunks` holds exactly the loaded chunks, once each; `generated` holds
    /// exactly the coordinates under way, once each; no coordinate is both
    /// loaded and under way.
    pub closed spec fn wf(&self) -> bool {
        let v = self.model@;
        &&& forall|i: int|
            0 <= i < self.chunks@.len() ==> {
                &&& (#[trigger] self.chunks@[i]).wf()
                &&& v.loaded.contains_key(self.chunks@[i]@.coordinates)
                &&& v.loaded[self.chunks@[i]@.coordinates] == self.chunks@[i]@.blocks
            }
        &&& forall|i: int, j: int|
            0 <= i < j < self.chunks@.len() ==> (#[trigger] self.chunks@[i])@.coordinates != (#[trigger] self.chunks@[j])@.coordinates
        &&& forall|c: ChunkCoordinate|
            #[trigger] v.loaded.contains_key(c) ==> exists|i: int|
                0 <= i < self.chunks@.len() && (#[trigger] self.chunks@[i])@.coordinates == c
        &&& forall|c: ChunkCoordinate| #[trigger] v.in_flight.contains(c) <==> self.generated@.contains(c)
        &&& self.generated@.no_duplicates()
        &&& forall|c: ChunkCoordinate| !(#[trigger] v.in_flight.contains(c) && v.loaded.contains_key(c))
        &&& forall|c: ChunkCoordinate| #[trigger] v.loaded.contains_key(c) ==> c.valid()
        &&& forall|c: ChunkCoordinate| #[trigger] v.in_flight.contains(c) ==> c.valid()
    }

    /// An empty world whose terrain is drawn from `seed`.
    pub fn new(seed: u32) -> (r: World)
        ensures
            r.wf(),
            r.spec_seed() == seed,
            r@.loaded == Map::<ChunkCoordinate, Seq<Option<BlockProperties>>>::empty(),
            r@.in_flight == Set::<ChunkCoordinate>::empty(),
    {
        World {
            seed,
            chunks: Vec::new(),
            generated: Vec::new(),
            model: Ghost(WorldView { loaded: Map::empty(), in_flight: Set::empty() }),
        }
    }

    pub closed spec fn spec_seed(&self) -> u32 {
        self.seed
    }

    /// The seed that the world's terrain generator is built from.
    pub fn seed(&self) -> (r: u32)
        ensures
            r == self.spec_seed(),
    {
        self.seed
    }

    /// The chunk that holds a world position.
    pub fn convert_to_chunk(position: &WorldCoordinate) -> (r: ChunkCoordinate)
        ensures
            r == chunk_of(position.x as int, position.z as int),
            r.valid(),
            r.x * CHUNK_SIZE <= position.x < r.x * CHUNK_SIZE + CHUNK_SIZE,
            r.z * CHUNK_SIZE <= position.z < r.z * CHUNK_SIZE + CHUNK_SIZE,
    {
        let (x, _) = floor_div_mod(position.x, CHUNK_SIZE);
        let (z, _) = floor_div_mod(position.z, CHUNK_SIZE);
        ChunkCoordinate { x, z }
    }

    /// Position in `chunks` of the chunk at `c`, when it is loaded.
    fn find(&self, c: ChunkCoordinate) -> (r: Option<usize>)
        requires
            self.wf(),
        ensures
            r matches Some(i) ==> i < self.chunks@.len() && self.chunks@[i as int]@.coordinates == c,
            r is None ==> !self@.loaded.contains_key(c),
    {
        let mut i: usize = 0;
        while i < self.chunks.len()
            invariant
                self.wf(),
                i <= self.chunks@.len(),
                forall|j: int| 0 <= j < i ==> (#[trigger] self.chunks@[j])@.coordinates != c,
            decreases self.chunks@.len() - i,
        {
            if self.chunks[i].coordinates() == c {
                return Some(i);
            }
            i = i + 1;
        }
        None
    }

    /// Whether the chunk at `c` is loaded.
    pub fn is_loaded(&self, c: ChunkCoordinate) -> (r: bool)
        requires
            self.wf(),
        ensures
            r == self@.loaded.contains_key(c),
    {
        self.find(c).is_some()
    }

    /// Whether the chunk at `c` is being generated.
    pub fn is_generating(&self, c: ChunkCoordinate) -> (r: bool)
        requires
            self.wf(),
        ensures
            r == self@.in_flight.contains(c),
    {
        let mut i: usize = 0;
        while i < self.generated.len()
            invariant
                self.wf(),
                i <= self.generated@.len(),
                forall|j: int| 0 <= j < i ==> self.generated@[j] != c,
            decreases self.generated@.len() - i,
        {
            if self.generated[i] == c {
                return true;
            }
            i = i + 1;
        }
        false
    }

    /// Marks `c` as under way.
    fn dispatch(&mut self, c: ChunkCoordinate)
        requires
            old(self).wf(),
            c.valid(),
            !old(self)@.loaded.contains_key(c),
            !old(self)@.in_flight.contains(c),
        ensures
            final(self).wf(),
            final(self)@ == (WorldView { loaded: old(self)@.loaded, in_flight: old(self)@.in_flight.insert(c) }),
            final(self).spec_seed() == old(self).spec_seed(),
    {
        let ghost v = self.model@;
        let ghost g0 = self.generated@;
        self.generated.push(c);
        self.model = Ghost(WorldView { loaded: v.loaded, in_flight: v.in_flight.insert(c) });
        proof {
            let g = self.generated@;
            assert(g == g0.push(c));
            assert(!g0.contains(c));
            assert forall|a: int, b: int| 0 <= a < b < g.len() implies g[a] != g[b] by {
                if b == g.len() - 1 {
                    assert(g0.contains(g[a]));
                } else {
                    assert(g0[a] != g0[b]);
                }
            }
            assert forall|x: ChunkCoordinate| #[trigger] self.model@.in_flight.contains(x) <==> g.contains(x) by {
                if x == c {
                    assert(g[g.len() - 1] == c);
                } else {
                    if g.contains(x) {
                        let k = choose|k: int| 0 <= k < g.len() && g[k] == x;
                        assert(g0[k] == x);
                        assert(g0.contains(x));
                    }
                    if g0.contains(x) {
                        let k = choose|k: int| 0 <= k < g0.len() && g0[k] == x;
                        assert(g[k] == x);
                    }
                }
            }
            assert(self.model@.loaded == v.loaded);
            assert(self.chunks@ == old(self).chunks@);
            let nv = self.model@;
            assert(forall|i: int|
                0 <= i < self.chunks@.len() ==> {
                    &&& (#[trigger] self.chunks@[i]).wf()
                    &&& nv.loaded.contains_key(self.chunks@[i]@.coordinates)
                    &&& nv.loaded[self.chunks@[i]@.coordinates] == self.chunks@[i]@.blocks
                });
            assert(forall|c: ChunkCoordinate|
                #[trigger] nv.loaded.contains_key(c) ==> exists|i: int|
                    0 <= i < self.chunks@.len() && (#[trigger] self.chunks@[i])@.coordinates == c);
            assert(self.generated@.no_duplicates());
            assert forall|x: ChunkCoordinate| !(#[trigger] self.model@.in_flight.contains(x) && self.model@.loaded.contains_key(x)) by {
                if x != c {
                    assert(!(v.in_flight.contains(x) && v.loaded.contains_key(x)));
                }
            }
            assert forall|x: ChunkCoordinate| #[trigger] self.model@.in_flight.contains(x) implies x.valid() by {
                if x != c {
                    assert(v.in_flight.contains(x));
                }
            }
        }
    }

    /// Rebuilds the visibility cache of the loaded chunk at position `i`.
    fn refresh(&mut self, i: usize)
        requires
            old(self).wf(),
            i < old(self).chunks@.len(),
        ensures
            final(self).wf(),
            final(self)@ == old(self)@,
            final(self).spec_seed() == old(self).spec_seed(),
    {
        let ghost s0 = self.chunks@;
        self.chunks[i].update_visible();
        proof {
            let s1 = self.chunks@;
            assert forall|j: int| 0 <= j < s1.len() && j != i implies s1[j] == s0[j] by {}
            assert(s1[i as int]@ == s0[i as int]@);
            assert forall|x: ChunkCoordinate| #[trigger] self.model@.loaded.contains_key(x) implies exists|k: int|
                0 <= k < s1.len() && (#[trigger] s1[k])@.coordinates == x by {
                let k = choose|k: int| 0 <= k < s0.len() && (#[trigger] s0[k])@.coordinates == x;
                assert(s1[k]@.coordinates == x);
            }
            assert forall|a: int, b: int| 0 <= a < b < s1.len() implies (#[trigger] s1[a])@.coordinates
                != (#[trigger] s1[b])@.coordinates by {
                assert(s0[a]@.coordinates != s0[b]@.coordinates);
            }
        }
    }

    /// Merges the chunks finished since the last call, each at a distinct
    /// coordinate whose generation is under way, then sends
    /// out for generation every chunk within render distance of `position`
    /// that is neither loaded nor under way, and returns their coordinates.
    /// Loaded chunks within range have their visibility brought up to date.
    pub fn update_chunks(&mut self, position: &WorldCoordinate, finished: Vec<Chunk>) -> (r: Vec<ChunkCoordinate>)
        requires
            old(self).wf(),
            forall|i: int| 0 <= i < finished@.len() ==> (#[trigger] finished@[i]).wf(),
            forall|i: int|
                0 <= i < finished@.len() ==> old(self)@.in_flight.contains((#[trigger] finished@[i])@.coordinates),
            forall|i: int, j: int|
                0 <= i < j < finished@.len() ==> (#[trigger] finished@[i])@.coordinates != (#[trigger] finished@[j])@.coordinates,
        ensures
            final(self).wf(),
            final(self).spec_seed() == old(self).spec_seed(),
            forall|c: ChunkCoordinate|
                #[trigger] old(self)@.loaded.contains_key(c) ==> final(self)@.loaded.contains_key(c)
                    && final(self)@.loaded[c] == old(self)@.loaded[c],
            ({
                let merged = merge_all(old(self)@, views(finished@), finished@.len());
                let center = chunk_of(position.x as int, position.z as int);
                &&& final(self)@ == dispatched(merged, center)
                &&& r@.to_set() == to_dispatch(merged, center)
                &&& r@.no_duplicates()
            }),
    {
        let center = Self::convert_to_chunk(position);
        let ghost fs = finished@;
        let ghost v0 = self.model@;
        let mut rest = finished;
        let ghost mut k: nat = 0;
        while rest.len() > 0
            invariant
                self.wf(),
                self.spec_seed() == old(self).spec_seed(),
                v0 == old(self)@,
                k <= fs.len(),
                rest@ == fs.subrange(k as int, fs.len() as int),
                forall|i: int| 0 <= i < fs.len() ==> (#[trigger] fs[i]).wf(),
                self@ == merge_all(v0, views(fs), k),
            decreases rest@.len(),
        {
            let next = rest.remove(0);
            proof {
                assert(next == fs[k as int]);
                assert(views(fs)[k as int] == next@);
            }
            self.merge(next);
            proof {
                k = k + 1;
                assert(rest@ =~= fs.subrange(k as int, fs.len() as int));
            }
        }
        let ghost merged = self.model@;
        proof {
            assert forall|c: ChunkCoordinate| #[trigger] v0.loaded.contains_key(c) implies merged.loaded.contains_key(c)
                && merged.loaded[c] == v0.loaded[c] by {
                assert forall|i: int| 0 <= i < fs.len() implies (#[trigger] views(fs)[i]).coordinates != c by {
                    assert(v0.in_flight.contains(fs[i]@.coordinates));
                }
                lemma_merge_all_keeps_loaded(v0, views(fs), fs.len(), c);
            }
        }
        let ghost todo = to_dispatch(merged, center);
        let mut out: Vec<ChunkCoordinate> = Vec::new();
        let mut dx: i64 = -RENDER_DISTANCE;
        while dx <= RENDER_DISTANCE
            invariant
                self.wf(),
                self.spec_seed() == old(self).spec_seed(),
                center.valid(),
                merged == merge_all(old(self)@, views(finished@), finished@.len()),
                todo == to_dispatch(merged, center),
                -RENDER_DISTANCE <= dx <= RENDER_DISTANCE + 1,
                self@.loaded == merged.loaded,
                forall|c: ChunkCoordinate| #[trigger] self@.in_flight.contains(c) <==> (merged.in_flight.contains(c) || (
                    todo.contains(c) && c.x - center.x < dx)),
                forall|c: ChunkCoordinate| #[trigger] out@.contains(c) <==> (todo.contains(c) && c.x - center.x < dx),
                out@.no_duplicates(),
            decreases RENDER_DISTANCE + 1 - dx,
        {
            let mut dz: i64 = -RENDER_DISTANCE;
            while dz <= RENDER_DISTANCE
                invariant
                    self.wf(),
                    self.spec_seed() == old(self).spec_seed(),
                    center.valid(),
                    merged == merge_all(old(self)@, views(finished@), finished@.len()),
                    todo == to_dispatch(merged, center),
                    -RENDER_DISTANCE <= dx <= RENDER_DISTANCE,
                    -RENDER_DISTANCE <= dz <= RENDER_DISTANCE + 1,
                    self@.loaded == merged.loaded,
                    forall|c: ChunkCoordinate| #[trigger] self@.in_flight.contains(c) <==> (merged.in_flight.contains(c)
                        || (todo.contains(c) && (c.x - center.x < dx || (c.x - center.x == dx && c.z - center.z < dz)))),
                    forall|c: ChunkCoordinate| #[trigger] out@.contains(c) <==> (todo.contains(c) && (c.x - center.x < dx
                        || (c.x - center.x == dx && c.z - center.z < dz))),
                    out@.no_duplicates(),
                decreases RENDER_DISTANCE + 1 - dz,
            {
                let c = ChunkCoordinate { x: center.x + dx, z: center.z + dz };
                if CHUNK_COORD_MIN <= c.x && c.x <= CHUNK_COORD_MAX && CHUNK_COORD_MIN <= c.z && c.z <= CHUNK_COORD_MAX {
                    match self.find(c) {
                        Some(i) => {
                            self.refresh(i);
                        },
                        None => {
                            if !self.is_generating(c) {
                                proof {
                                    assert(todo.contains(c));
                                    assert(!out@.contains(c));
                                }
                                self.dispatch(c);
                                let ghost o0 = out@;
                                out.push(c);
                                proof {
                                    assert(out@ == o0.push(c));
                                    assert forall|a: int, b: int| 0 <= a < b < out@.len() implies out@[a] != out@[b] by {
                                        if b == out@.len() - 1 {
                                            assert(o0.contains(o0[a]));
                                        } else {
                                            assert(o0[a] != o0[b]);
                                        }
                                    }
                                    assert forall|x: ChunkCoordinate| #[trigger] out@.contains(x) <==> (todo.contains(x) && (x.x
                                        - center.x < dx || (x.x - center.x == dx && x.z - center.z < dz + 1))) by {
                                        if x == c {
                                            assert(out@[out@.len() - 1] == c);
                                        } else {
                                            if out@.contains(x) {
                                                let j = choose|j: int| 0 <= j < out@.len() && out@[j] == x;
                                                assert(o0[j] == x);
                                                assert(o0.contains(x));
                                            }
                                            if o0.contains(x) {
                                                let j = choose|j: int| 0 <= j < o0.len() && o0[j] == x;
                                                assert(out@[j] == x);
                                            }
                                        }
                                    }
                                }
                            }
                        },
                    }
                }
                dz = dz + 1;
            }
            dx = dx + 1;
        }
        proof {
            assert(out@.to_set() =~= todo);
            assert(self@.in_flight =~= merged.in_flight.union(todo));
        }
        out
    }

    /// The loaded chunks within render distance of `position`, each once.
    /// Chunks still under way are simply absent.
    pub fn rendered_chunks(&self, position: &WorldCoordinate) -> (r: Vec<&Chunk>)
        requires
            self.wf(),
        ensures
            forall|i: int|
                0 <= i < r@.len() ==> {
                    &&& (#[trigger] r@[i]).wf()
                    &&& in_range(chunk_of(position.x as int, position.z as int), r@[i]@.coordinates)
                    &&& self@.loaded.contains_key(r@[i]@.coordinates)
                    &&& self@.loaded[r@[i]@.coordinates] == r@[i]@.blocks
                },
            forall|c: ChunkCoordinate|
                in_range(chunk_of(position.x as int, position.z as int), c) && #[trigger] self@.loaded.contains_key(c)
                    ==> exists|i: int| 0 <= i < r@.len() && (#[trigger] r@[i])@.coordinates == c,
            forall|i: int, j: int| 0 <= i < j < r@.len() ==> (#[trigger] r@[i])@.coordinates != (#[trigger] r@[j])@.coordinates,
    {
        let center = Self::convert_to_chunk(position);
        let mut out: Vec<&Chunk> = Vec::new();
        let mut dx: i64 = -RENDER_DISTANCE;
        while dx <= RENDER_DISTANCE
            invariant
                self.wf(),
                center == chunk_of(position.x as int, position.z as int),
                center.valid(),
                -RENDER_DISTANCE <= dx <= RENDER_DISTANCE + 1,
                forall|i: int|
                    0 <= i < out@.len() ==> {
                        &&& (#[trigger] out@[i]).wf()
                        &&& in_range(center, out@[i]@.coordinates)
                        &&& out@[i]@.coordinates.x - center.x < dx
                        &&& self@.loaded.contains_key(out@[i]@.coordinates)
                        &&& self@.loaded[out@[i]@.coordinates] == out@[i]@.blocks
                    },
                forall|c: ChunkCoordinate|
                    in_range(center, c) && c.x - center.x < dx && #[trigger] self@.loaded.contains_key(c) ==> exists|i: int|
                        0 <= i < out@.len() && (#[trigger] out@[i])@.coordinates == c,
                forall|i: int, j: int| 0 <= i < j < out@.len() ==> (#[trigger] out@[i])@.coordinates != (#[trigger] out@[j])@.coordinates,
            decreases RENDER_DISTANCE + 1 - dx,
        {
            let mut dz: i64 = -RENDER_DISTANCE;
            while dz <= RENDER_DISTANCE
                invariant
                    self.wf(),
                    center == chunk_of(position.x as int, position.z as int),
                    center.valid(),
                    -RENDER_DISTANCE <= dx <= RENDER_DISTANCE,
                    -RENDER_DISTANCE <= dz <= RENDER_DISTANCE + 1,
                    forall|i: int|
                        0 <= i < out@.len() ==> {
                            &&& (#[trigger] out@[i]).wf()
                            &&& in_range(center, out@[i]@.coordinates)
                            &&& (out@[i]@.coordinates.x - center.x < dx || (out@[i]@.coordinates.x - center.x == dx
                                && out@[i]@.coordinates.z - center.z < dz))
                            &&& self@.loaded.contains_key(out@[i]@.coordinates)
                            &&& self@.loaded[out@[i]@.coordinates] == out@[i]@.blocks
                        },
                    forall|c: ChunkCoordinate|
                        in_range(center, c) && (c.x - center.x < dx || (c.x - center.x == dx && c.z - center.z < dz))
                            && #[trigger] self@.loaded.contains_key(c) ==> exists|i: int|
                            0 <= i < out@.len() && (#[trigger] out@[i])@.coordinates == c,
                    forall|i: int, j: int| 0 <= i < j < out@.len() ==> (#[trigger] out@[i])@.coordinates != (#[trigger] out@[j])@.coordinates,
                decreases RENDER_DISTANCE + 1 - dz,
            {
                let c = ChunkCoordinate { x: center.x + dx, z: center.z + dz };
                if CHUNK_COORD_MIN <= c.x && c.x <= CHUNK_COORD_MAX && CHUNK_COORD_MIN <= c.z && c.z <= CHUNK_COORD_MAX {
                    match self.find(c) {
                        Some(i) => {
                            let ghost o0 = out@;
                            out.push(&self.chunks[i]);
                            proof {
                                assert(out@ == o0.push(&self.chunks@[i as int]));
                                assert forall|x: ChunkCoordinate|
                                    in_range(center, x) && (x.x - center.x < dx || (x.x - center.x == dx && x.z - center.z < dz + 1))
                                        && #[trigger] self@.loaded.contains_key(x) implies exists|k: int|
                                        0 <= k < out@.len() && (#[trigger] out@[k])@.coordinates == x by {
                                    if x == c {
                                        assert(out@[out@.len() - 1]@.coordinates == x);
                                    } else {
                                        let k = choose|k: int| 0 <= k < o0.len() && (#[trigger] o0[k])@.coordinates == x;
                                        assert(out@[k]@.coordinates == x);
                                    }
                                }
                            }
                        },
                        None => {},
                    }
                }
                dz = dz + 1;
            }
            dx = dx + 1;
        }
        out
    }

    /// Marches `ray` through the loaded chunk at position `i` of `chunks`, as
    /// `Chunk::remove` does, keeping the world's view in step.
    fn remove_in(&mut self, i: usize, ray: &mut VoxelMarch) -> (r: bool)
        requires
            old(self).wf(),
            i < old(self).chunks@.len(),
            old(ray).wf(),
            old(ray)@.moving(),
            old(ray)@.steps + CHUNK_SPAN <= MAX_MARCH_STEPS,
        ensures
            final(self).wf(),
            final(self).spec_seed() == old(self).spec_seed(),
            final(ray).wf(),
            old(ray)@.steps <= final(ray)@.steps < old(ray)@.steps + CHUNK_SPAN,
            final(ray)@ == old(ray)@.iterate((final(ray)@.steps - old(ray)@.steps) as nat),
            ({
                let c = old(self).chunks@[i as int]@.coordinates;
                let b = old(self)@.loaded[c];
                let k = final(ray)@.steps - old(ray)@.steps;
                let m = final(ray)@;
                &&& old(self)@.loaded.contains_key(c)
                &&& r ==> {
                    &&& k >= 1
                    &&& passes_empty(c, b, old(ray)@, k - 1)
                    &&& march_in(c, m)
                    &&& march_block(c, b, m).is_some()
                    &&& final(self)@ == (WorldView {
                        loaded: old(self)@.loaded.insert(c, b.update(local_index(c, m.x.pos, m.y.pos, m.z.pos), None)),
                        in_flight: old(self)@.in_flight,
                    })
                }
                &&& !r ==> {
                    &&& passes_empty(c, b, old(ray)@, k)
                    &&& !march_in(c, m.advanced())
                    &&& final(self)@ == old(self)@
                }
            }),
    {
        let ghost s0 = self.chunks@;
        let ghost v = self.model@;
        let r = self.chunks[i].remove(ray);
        let ghost c = s0[i as int]@.coordinates;
        let ghost nb = self.chunks@[i as int]@.blocks;
        let ghost nv = WorldView { loaded: v.loaded.insert(c, nb), in_flight: v.in_flight };
        self.model = Ghost(nv);
        proof {
            let s1 = self.chunks@;
            assert forall|j: int| 0 <= j < s1.len() && j != i implies s1[j] == s0[j] by {}
            assert(s1[i as int]@.coordinates == c);
            assert forall|j: int| 0 <= j < s1.len() && j != i implies (#[trigger] s1[j])@.coordinates != c by {
                if j < i {
                    assert(s0[j]@.coordinates != s0[i as int]@.coordinates);
                } else {
                    assert(s0[i as int]@.coordinates != s0[j]@.coordinates);
                }
            }
            assert forall|j: int|
                0 <= j < s1.len() implies {
                    &&& (#[trigger] s1[j]).wf()
                    &&& nv.loaded.contains_key(s1[j]@.coordinates)
                    &&& nv.loaded[s1[j]@.coordinates] == s1[j]@.blocks
                } by {
                if j != i {
                    assert(s1[j] == s0[j]);
                }
            }
            assert forall|x: ChunkCoordinate| #[trigger] nv.loaded.contains_key(x) implies exists|k: int|
                0 <= k < s1.len() && (#[trigger] s1[k])@.coordinates == x by {
                let k = choose|k: int| 0 <= k < s0.len() && (#[trigger] s0[k])@.coordinates == x;
                assert(s1[k]@.coordinates == x);
            }
            assert forall|a: int, b: int| 0 <= a < b < s1.len() implies (#[trigger] s1[a])@.coordinates
                != (#[trigger] s1[b])@.coordinates by {
                assert(s0[a]@.coordinates != s0[b]@.coordinates);
            }
            assert forall|x: ChunkCoordinate| !(#[trigger] nv.in_flight.contains(x) && nv.loaded.contains_key(x)) by {
                assert(!(v.in_flight.contains(x) && v.loaded.contains_key(x)));
            }
            if !r {
                assert(nv.loaded =~= v.loaded);
            }
        }
        r
    }

    /// Fires a ray from `origin` (fixed point) along `direction` and removes
    /// the first block it meets. The ray is followed stretch by stretch, at
    /// most `INTERSECT_BUDGET` stretches, and stops at the first cell whose
    /// chunk is not loaded. Returns whether a block was removed.
    pub fn intersect(&mut self, origin: &Fixed3, direction: &Fixed3) -> (r: bool)
        requires
            old(self).wf(),
        ensures
            final(self).wf(),
            final(self).spec_seed() == old(self).spec_seed(),
            r == exists|n: nat| hits_at(old(self)@, march_start(*origin, *direction), n),
            r ==> exists|n: nat|
                hits_at(old(self)@, march_start(*origin, *direction), n) && final(self)@ == without_block(
                    old(self)@,
                    march_start(*origin, *direction).iterate(n),
                ),
            !r ==> final(self)@ == old(self)@,
    {
        let mut march = VoxelMarch::new(origin, direction);
        let ghost m0 = march@;
        let ghost v0 = self.model@;
        proof {
            lemma_start_consistent(*origin, *direction);
        }
        if !march.is_moving() {
            return false;
        }
        let mut n: u64 = 0;
        while n < INTERSECT_BUDGET
            invariant
                self.wf(),
                self.spec_seed() == old(self).spec_seed(),
                self@ == v0,
                v0 == old(self)@,
                m0 == march_start(*origin, *direction),
                m0.moving(),
                m0.consistent(),
                m0.steps == 0,
                march.wf(),
                march@ == m0.iterate(march@.steps as nat),
                n <= INTERSECT_BUDGET,
                march@.steps <= n * CHUNK_SPAN,
                stretches(m0, march@.steps as nat) == n,
                stretch_start(m0, march@.steps + 1),
                clear_through(v0, m0, march@.steps as int),
            decreases INTERSECT_BUDGET - n,
        {
            let s = march.steps();
            let ghost ms = march@;
            proof {
                lemma_iterate_keeps_direction(m0, s as nat);
                assert(m0.iterate((s + 1) as nat) == m0.iterate(s as nat).advanced());
            }
            let mut probe = march;
            let (cell, _) = probe.next();
            let cc = Self::convert_to_chunk(&cell);
            match self.find(cc) {
                None => {
                    proof {
                        assert forall|h: nat| !hits_at(v0, m0, h) by {
                            if h >= s + 2 && hits_at(v0, m0, h) {
                                assert(v0.loaded.contains_key(march_chunk(m0.iterate((s + 1) as nat))));
                            }
                        }
                    }
                    return false;
                },
                Some(i) => {
                    if -HEIGHT_OFFSET <= cell.y && cell.y < CHUNK_HEIGHT - HEIGHT_OFFSET {
                        proof {
                            assert(march_in(cc, probe@));
                        }
                        let removed = self.remove_in(i, &mut march);
                        let ghost k = (march@.steps - s) as nat;
                        proof {
                            lemma_iterate_add(m0, s as nat, k);
                            assert forall|j: nat| 1 <= j <= k implies m0.iterate((s + j) as nat) == (#[trigger] ms.iterate(j)) by {
                                lemma_iterate_add(m0, s as nat, j);
                            }
                            if !removed {
                                assert(k >= 1) by {
                                    if k == 0 {
                                        assert(march@ == ms);
                                    }
                                }
                            }
                            let last = if removed { k - 1 } else { k as int };
                            assert forall|j: int| s + 1 < j <= s + last + (if removed { 1int } else { 0int }) implies !#[trigger] stretch_start(m0, j) by {
                                let jj = (j - s) as nat;
                                assert(ms.iterate((jj - 1) as nat) == m0.iterate((j - 1) as nat)) by {
                                    lemma_iterate_add(m0, s as nat, (jj - 1) as nat);
                                }
                                assert(ms.iterate(jj) == m0.iterate(j as nat)) by {
                                    lemma_iterate_add(m0, s as nat, jj);
                                }
                                assert(march_in(cc, ms.iterate((jj - 1) as nat)));
                                lemma_contained_chunk(cc, m0.iterate((j - 1) as nat));
                                if removed && j == s + k {
                                    assert(march_in(cc, march@));
                                } else {
                                    assert(march_in(cc, ms.iterate(jj)));
                                }
                            }
                            lemma_stretches_flat(m0, (s + 1) as nat, (s + last + (if removed { 1int } else { 0int })) as nat);
                            assert forall|j: nat| 1 <= j <= s + last implies v0.loaded.contains_key(march_chunk(#[trigger] m0.iterate(j)))
                                && world_block(v0, m0.iterate(j)).is_none() by {
                                if j > s {
                                    let jj = (j - s) as nat;
                                    assert(ms.iterate(jj) == m0.iterate(j)) by {
                                        lemma_iterate_add(m0, s as nat, jj);
                                    }
                                    assert(march_in(cc, ms.iterate(jj)));
                                    lemma_contained_chunk(cc, m0.iterate(j));
                                }
                            }
                        }
                        if removed {
                            proof {
                                lemma_contained_chunk(cc, march@);
                                assert(hits_at(v0, m0, (s + k) as nat));
                            }
                            return true;
                        }
                        proof {
                            lemma_contained_chunk(cc, march@);
                            assert(march@.advanced() == m0.iterate((s + k + 1) as nat));
                        }
                    } else {
                        march = probe;
                        proof {
                            assert(march_chunk(march@) == cc);
                            assert(stretch_start(m0, march@.steps + 1));
                        }
                    }
                },
            }
            n = n + 1;
        }
        proof {
            march.lemma_wf_consistent();
            let last = march@.steps;
            assert(stretches(m0, (last + 1) as nat) == INTERSECT_BUDGET + 1);
            assert forall|h: nat| !hits_at(v0, m0, h) by {
                if h >= last + 1 {
                    lemma_stretches_monotone(m0, (last + 1) as nat, h);
                } else if h >= 1 {
                    assert(world_block(v0, m0.iterate(h)).is_none());
                }
            }
        }
        false
    }

    /// Loads a finished chunk, replacing any chunk at its coordinate, and
    /// ends the generation under way at that coordinate.
    fn merge(&mut self, chunk: Chunk)
        requires
            old(self).wf(),
            chunk.wf(),
        ensures
            final(self).wf(),
            final(self)@ == merge_one(old(self)@, chunk@),
            final(self).spec_seed() == old(self).spec_seed(),
    {
        let c = chunk.coordinates();
        proof {
            chunk.lemma_len();
        }
        let ghost v = self.model@;
        let ghost nv = merge_one(v, chunk@);
        let ghost s0 = self.chunks@;
        let ghost g0 = self.generated@;
        let ghost cv = chunk@;
        let ghost slot: int;
        match self.find(c) {
            Some(i) => {
                self.chunks.set(i, chunk);
                proof {
                    slot = i as int;
                }
            },
            None => {
                self.chunks.push(chunk);
                proof {
                    slot = s0.len() as int;
                    assert forall|j: int| 0 <= j < s0.len() implies (#[trigger] s0[j])@.coordinates != c by {
                        assert(v.loaded.contains_key(s0[j]@.coordinates));
                    }
                }
            },
        }
        let mut g: usize = 0;
        let mut found = false;
        while g < self.generated.len() && !found
            invariant
                self.generated@ == g0,
                g <= self.generated@.len(),
                found ==> g < self.generated@.len() && self.generated@[g as int] == c,
                !found ==> forall|j: int| 0 <= j < g ==> self.generated@[j] != c,
            decreases self.generated@.len() - g + (if found { 0int } else { 1int }),
        {
            if self.generated[g] == c {
                found = true;
            } else {
                g = g + 1;
            }
        }
        if found {
            self.generated.remove(g);
            proof {
                g0.remove_ensures(g as int);
            }
        }
        proof {
            let s1 = self.chunks@;
            let g1 = self.generated@;
            assert(0 <= slot < s1.len() && s1[slot]@ == cv);
            assert forall|j: int| 0 <= j < s1.len() && j != slot implies s1[j] == s0[j] && (#[trigger] s1[j])@.coordinates
                != c by {
                if slot < s0.len() {
                    if j < slot {
                        assert(s0[j]@.coordinates != s0[slot]@.coordinates);
                    } else {
                        assert(s0[slot]@.coordinates != s0[j]@.coordinates);
                    }
                }
            }
            assert forall|x: ChunkCoordinate| g1.contains(x) <==> g0.contains(x) && x != c by {
                if found {
                    if g1.contains(x) {
                        let k = choose|k: int| 0 <= k < g1.len() && g1[k] == x;
                        if k < g {
                            assert(g0[k] == x);
                            assert(k != g);
                        } else {
                            assert(g0[k + 1] == x);
                            assert(k + 1 != g);
                        }
                    }
                    if g0.contains(x) && x != c {
                        let k = choose|k: int| 0 <= k < g0.len() && g0[k] == x;
                        if k < g {
                            assert(g1[k] == x);
                        } else {
                            assert(k != g);
                            assert(g1[k - 1] == x);
                        }
                    }
                } else {
                    if g0.contains(x) {
                        let k = choose|k: int| 0 <= k < g0.len() && g0[k] == x;
                        assert(g0[k] != c);
                    }
                }
            }
            assert(g1.no_duplicates()) by {
                if found {
                    assert forall|a: int, b: int| 0 <= a < b < g1.len() implies g1[a] != g1[b] by {
                        let a0 = if a < g { a } else { a + 1 };
                        let b0 = if b < g { b } else { b + 1 };
                        assert(g1[a] == g0[a0] && g1[b] == g0[b0]);
                    }
                }
            }
            assert forall|x: ChunkCoordinate| #[trigger] nv.loaded.contains_key(x) implies exists|i: int|
                0 <= i < s1.len() && (#[trigger] s1[i])@.coordinates == x by {
                if x == c {
                    assert(s1[slot]@.coordinates == x);
                } else {
                    let i = choose|i: int| 0 <= i < s0.len() && (#[trigger] s0[i])@.coordinates == x;
                    assert(s1[i]@.coordinates == x);
                }
            }
        }
        self.model = Ghost(nv);
        proof {
            let s1 = self.chunks@;
            assert forall|i: int| 0 <= i < s1.len() implies {
                &&& (#[trigger] s1[i]).wf()
                &&& nv.loaded.contains_key(s1[i]@.coordinates)
                &&& nv.loaded[s1[i]@.coordinates] == s1[i]@.blocks
            } by {
                if i != slot {
                    assert(s1[i] == s0[i]);
                }
            }
            assert forall|i: int, j: int| 0 <= i < j < s1.len() implies (#[trigger] s1[i])@.coordinates
                != (#[trigger] s1[j])@.coordinates by {
                if i != slot && j != slot {
                    assert(s1[i] == s0[i] && s1[j] == s0[j]);
                }
            }
            assert forall|x: ChunkCoordinate| !(#[trigger] nv.in_flight.contains(x) && nv.loaded.contains_key(x)) by {
            }
            assert forall|x: ChunkCoordinate| #[trigger] nv.in_flight.contains(x) <==> self.generated@.contains(x) by {
            }
        }
    }
}

/// Whether no coordinate is both loaded and under way.
pub open spec fn exclusive(v: WorldView) -> bool {
    forall|c: ChunkCoordinate| !(#[trigger] v.in_flight.contains(c) && v.loaded.contains_key(c))
}

/// Whether coordinate `c` is loaded or under way.
pub open spec fn known(v: WorldView, c: ChunkCoordinate) -> bool {
    v.loaded.contains_key(c) || v.in_flight.contains(c)
}

impl World {
    /// No coordinate of a world is both loaded and under way.
    pub proof fn lemma_exclusive(&self)
        requires
            self.wf(),
        ensures
            exclusive(self@),
    {
    }
}

proof fn lemma_merge_all_keeps(v: WorldView, fs: Seq<ChunkView>, n: nat, c: ChunkCoordinate)
    requires
        n <= fs.len(),
        exclusive(v),
    ensures
        exclusive(merge_all(v, fs, n)),
        known(v, c) ==> known(merge_all(v, fs, n), c),
    decreases n,
{
    if n > 0 {
        lemma_merge_all_keeps(v, fs, (n - 1) as nat, c);
        let w = merge_all(v, fs, (n - 1) as nat);
        assert forall|x: ChunkCoordinate| !(#[trigger] merge_one(w, fs[n - 1]).in_flight.contains(x) && merge_one(
            w,
            fs[n - 1],
        ).loaded.contains_key(x)) by {
            assert(!(w.in_flight.contains(x) && w.loaded.contains_key(x)));
        }
    }
}

/// Through an update (chunks merged, then chunks in range sent out), a
/// coordinate that was loaded or under way stays loaded or under way, and no
/// coordinate is ever both.
pub proof fn lemma_update_keeps_each_chunk_in_one_state(
    v: WorldView,
    finished: Seq<ChunkView>,
    center: ChunkCoordinate,
    c: ChunkCoordinate,
)
    requires
        exclusive(v),
    ensures
        exclusive(dispatched(merge_all(v, finished, finished.len()), center)),
        known(v, c) ==> known(dispatched(merge_all(v, finished, finished.len()), center), c),
{
    lemma_merge_all_keeps(v, finished, finished.len(), c);
    let m = merge_all(v, finished, finished.len());
    assert forall|x: ChunkCoordinate| !(#[trigger] dispatched(m, center).in_flight.contains(x) && dispatched(
        m,
        center,
    ).loaded.contains_key(x)) by {
        assert(!(m.in_flight.contains(x) && m.loaded.contains_key(x)));
    }
}

/// The chunks within render distance of `center`.
pub open spec fn range_of(center: ChunkCoordinate) -> Set<ChunkCoordinate> {
    Set::new(|c: ChunkCoordinate| in_range(center, c))
}

/// An empty world.
pub open spec fn empty_world() -> WorldView {
    WorldView { loaded: Map::empty(), in_flight: Set::empty() }
}

proof fn lemma_merge_covering(v: WorldView, fs: Seq<ChunkView>, n: nat)
    requires
        n <= fs.len(),
        v.loaded.dom() == Set::<ChunkCoordinate>::empty(),
    ensures
        forall|c: ChunkCoordinate|
            #[trigger] merge_all(v, fs, n).loaded.contains_key(c) <==> exists|i: int| 0 <= i < n && fs[i].coordinates == c,
        forall|c: ChunkCoordinate|
            #[trigger] merge_all(v, fs, n).in_flight.contains(c) <==> (v.in_flight.contains(c) && !exists|i: int|
                0 <= i < n && fs[i].coordinates == c),
    decreases n,
{
    if n > 0 {
        lemma_merge_covering(v, fs, (n - 1) as nat);
        let w = merge_all(v, fs, (n - 1) as nat);
        assert forall|c: ChunkCoordinate| #[trigger] merge_all(v, fs, n).loaded.contains_key(c) <==> exists|i: int|
            0 <= i < n && fs[i].coordinates == c by {
            if exists|i: int| 0 <= i < n && fs[i].coordinates == c {
                let i = choose|i: int| 0 <= i < n && fs[i].coordinates == c;
                if i < n - 1 {
                    assert(w.loaded.contains_key(c));
                }
            }
            if w.loaded.contains_key(c) {
                let i = choose|i: int| 0 <= i < n - 1 && fs[i].coordinates == c;
                assert(0 <= i < n && fs[i].coordinates == c);
            }
            if c == fs[n - 1].coordinates {
                assert(0 <= n - 1 < n && fs[n - 1].coordinates == c);
            }
        }
        assert forall|c: ChunkCoordinate| #[trigger] merge_all(v, fs, n).in_flight.contains(c) <==> (v.in_flight.contains(
            c,
        ) && !exists|i: int| 0 <= i < n && fs[i].coordinates == c) by {
            if exists|i: int| 0 <= i < n && fs[i].coordinates == c {
                let i = choose|i: int| 0 <= i < n && fs[i].coordinates == c;
                if i < n - 1 {
                    assert(exists|i: int| 0 <= i < n - 1 && fs[i].coordinates == c);
                }
            }
            if exists|i: int| 0 <= i < n - 1 && fs[i].coordinates == c {
                let i = choose|i: int| 0 <= i < n - 1 && fs[i].coordinates == c;
                assert(0 <= i < n && fs[i].coordinates == c);
            }
        }
    }
}

/// With the camera staying in chunk `center` of an empty world: the first
/// update sends out exactly the chunks in range and loads none; once every
/// chunk sent out has been generated, the next update merges them, after
/// which exactly the chunks in range are loaded and none is under way.
pub proof fn lemma_stationary_camera_loads_range(center: ChunkCoordinate, generated: Seq<ChunkView>)
    requires
        center.valid(),
        forall|c: ChunkCoordinate|
            in_range(center, c) <==> exists|i: int| 0 <= i < generated.len() && (#[trigger] generated[i]).coordinates == c,
    ensures
        ({
            let first = dispatched(merge_all(empty_world(), Seq::empty(), 0), center);
            let second = dispatched(merge_all(first, generated, generated.len()), center);
            &&& first.in_flight == range_of(center)
            &&& first.loaded.dom() == Set::<ChunkCoordinate>::empty()
            &&& second.loaded.dom() == range_of(center)
            &&& second.in_flight == Set::<ChunkCoordinate>::empty()
        }),
{
    let first = dispatched(merge_all(empty_world(), Seq::empty(), 0), center);
    assert(first.in_flight =~= range_of(center));
    assert(first.loaded.dom() =~= Set::<ChunkCoordinate>::empty());
    let m = merge_all(first, generated, generated.len());
    lemma_merge_covering(first, generated, generated.len());
    assert forall|c: ChunkCoordinate| m.loaded.contains_key(c) <==> in_range(center, c) by {
        if in_range(center, c) {
            let i = choose|i: int| 0 <= i < generated.len() && (#[trigger] generated[i]).coordinates == c;
            assert(exists|i: int| 0 <= i < generated.len() && generated[i].coordinates == c);
        }
        if m.loaded.contains_key(c) {
            let i = choose|i: int| 0 <= i < generated.len() && generated[i].coordinates == c;
            assert(exists|i: int| 0 <= i < generated.len() && (#[trigger] generated[i]).coordinates == c);
        }
    }
    assert forall|c: ChunkCoordinate| !m.in_flight.contains(c) by {
        if in_range(center, c) {
            let i = choose|i: int| 0 <= i < generated.len() && (#[trigger] generated[i]).coordinates == c;
            assert(exists|i: int| 0 <= i < generated.len() && generated[i].coordinates == c);
        }
    }
    let second = dispatched(m, center);
    assert(second.loaded.dom() =~= range_of(center));
    assert(second.in_flight =~= Set::<ChunkCoordinate>::empty());
}

/// A ray's query stops on at most one step: the first block along the ray
/// that comes within the stretch budget and before any unloaded chunk. So the
/// block that `intersect` removes is exactly that block.
pub proof fn lemma_intersect_hits_first_block(v: WorldView, origin: Fixed3, direction: Fixed3, n: nat)
    requires
        hits_at(v, march_start(origin, direction), n),
    ensures
        forall|h: nat| #[trigger] hits_at(v, march_start(origin, direction), h) ==> h == n,
{
    let m = march_start(origin, direction);
    assert forall|h: nat| #[trigger] hits_at(v, m, h) implies h == n by {
        if h < n {
            assert(world_block(v, m.iterate(h)).is_none());
        } else if h > n {
            assert(world_block(v, m.iterate(n)).is_none());
        }
    }
}

/// A ray that meets no block on any step within the stretch budget hits
/// nothing, so `intersect` removes nothing.
pub proof fn lemma_intersect_misses_empty_space(v: WorldView, origin: Fixed3, direction: Fixed3)
    requires
        forall|j: nat|
            j >= 1 && stretches(march_start(origin, direction), j) <= INTERSECT_BUDGET ==> world_block(
                v,
                #[trigger] march_start(origin, direction).iterate(j),
            ).is_none(),
    ensures
        forall|h: nat| !#[trigger] hits_at(v, march_start(origin, direction), h),
{
}

/// Merging chunks at other coordinates leaves a loaded chunk as it is.
proof fn lemma_merge_all_keeps_loaded(v: WorldView, fs: Seq<ChunkView>, n: nat, c: ChunkCoordinate)
    requires
        n <= fs.len(),
        v.loaded.contains_key(c),
        forall|i: int| 0 <= i < fs.len() ==> (#[trigger] fs[i]).coordinates != c,
    ensures
        merge_all(v, fs, n).loaded.contains_key(c),
        merge_all(v, fs, n).loaded[c] == v.loaded[c],
    decreases n,
{
    if n > 0 {
        lemma_merge_all_keeps_loaded(v, fs, (n - 1) as nat, c);
        assert(fs[n - 1].coordinates != c);
    }
}

} // verus!
