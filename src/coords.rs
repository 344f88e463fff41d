//! Coordinates, the world's fixed dimensions, and integer helpers.
use vstd::prelude::*;
use vstd::arithmetic::div_mod::{lemma_fundamental_div_mod, lemma_fundamental_div_mod_converse, lemma_mod_pos_bound};

verus! {

/// Horizontal extent of a chunk, in blocks, along x and along z.
pub const CHUNK_SIZE: i64 = 16;

/// Vertical extent of a chunk, in blocks.
pub const CHUNK_HEIGHT: i64 = 64;

/// A chunk's local `y` is its world `y` plus this bias: world heights
/// range over `[-HEIGHT_OFFSET, CHUNK_HEIGHT - HEIGHT_OFFSET)`.
pub const HEIGHT_OFFSET: i64 = 32;

/// Radius, in chunks, of the square of chunks kept loaded around the camera.
pub const RENDER_DISTANCE: i64 = 2;

/// Fixed-point resolution of ray origins: one block is this many units.
pub const SUBCELL: i64 = 65536;

/// Smallest chunk coordinate component: `floor(i64::MIN / CHUNK_SIZE)`.
pub const CHUNK_COORD_MIN: i64 = -0x0800_0000_0000_0000;

/// Largest chunk coordinate component: `floor(i64::MAX / CHUNK_SIZE)`.
pub const CHUNK_COORD_MAX: i64 = 0x07ff_ffff_ffff_ffff;

/// An absolute block position in world space.
#[derive(Clone, Copy, Debug, PartialEq, Eq, Structural)]
pub struct WorldCoordinate {
    pub x: i64,
    pub y: i64,
    pub z: i64,
}

/// The horizontal slot of a chunk: the chunk covers world `x` in
/// `[x * CHUNK_SIZE, (x + 1) * CHUNK_SIZE)` and likewise for `z`.
#[derive(Clone, Copy, Debug, PartialEq, Eq, Structural)]
pub struct ChunkCoordinate {
    pub x: i64,
    pub z: i64,
}

/// A position local to a chunk; within bounds when `x` and `z` are below
/// `CHUNK_SIZE` and `y` is below `CHUNK_HEIGHT`.
#[derive(Clone, Copy, Debug, PartialEq, Eq, Structural)]
pub struct BlockCoordinate {
    pub x: usize,
    pub y: usize,
    pub z: usize,
}

/// A point or a direction in fixed point: `SUBCELL` units make one block.
#[derive(Clone, Copy, Debug, PartialEq, Eq, Structural)]
pub struct Fixed3 {
    pub x: i64,
    pub y: i64,
    pub z: i64,
}

impl ChunkCoordinate {
    /// The component range whose chunk origins fit in an `i64`; it is exactly
    /// the range of `floor(w / CHUNK_SIZE)` over every `i64` world position.
    pub open spec fn valid(self) -> bool {
        CHUNK_COORD_MIN <= self.x <= CHUNK_COORD_MAX && CHUNK_COORD_MIN <= self.z <= CHUNK_COORD_MAX
    }

    pub fn new(x: i64, z: i64) -> (r: ChunkCoordinate)
        ensures
            r.x == x,
            r.z == z,
    {
        ChunkCoordinate { x, z }
    }
}

impl BlockCoordinate {
    pub open spec fn in_bounds(self) -> bool {
        self.x < CHUNK_SIZE && self.y < CHUNK_HEIGHT && self.z < CHUNK_SIZE
    }

    pub fn new(x: usize, y: usize, z: usize) -> (r: BlockCoordinate)
        ensures
            r.x == x,
            r.y == y,
            r.z == z,
    {
        BlockCoordinate { x, y, z }
    }
}

impl WorldCoordinate {
    pub fn new(x: i64, y: i64, z: i64) -> (r: WorldCoordinate)
        ensures
            r.x == x,
            r.y == y,
            r.z == z,
    {
        WorldCoordinate { x, y, z }
    }
}

impl Fixed3 {
    pub fn new(x: i64, y: i64, z: i64) -> (r: Fixed3)
        ensures
            r.x == x,
            r.y == y,
            r.z == z,
    {
        Fixed3 { x, y, z }
    }
}

/// Floor division and the matching non-negative remainder.
pub fn floor_div_mod(a: i64, b: i64) -> (r: (i64, i64))
    requires
        b > 0,
    ensures
        r.0 == a / b,
        r.1 == a % b,
        0 <= r.1 < b,
        a == b * r.0 + r.1,
{
    if a >= 0 {
        let q = a / b;
        let m = a % b;
        proof {
            lemma_fundamental_div_mod(a as int, b as int);
            lemma_mod_pos_bound(a as int, b as int);
        }
        (q, m)
    } else {
        let n: i64 = -(a + 1);
        let q = n / b;
        let m = n % b;
        proof {
            lemma_fundamental_div_mod(n as int, b as int);
            lemma_mod_pos_bound(n as int, b as int);
            assert(a == (-q - 1) * b + (b - 1 - m)) by (nonlinear_arith)
                requires n == b * q + m, n == -(a + 1);
            lemma_fundamental_div_mod_converse(a as int, b as int, -q - 1, b - 1 - m);
            assert(0 <= q * b) by (nonlinear_arith) requires q >= 0, b > 0;
            assert(a == b * (-q - 1) + (b - 1 - m)) by (nonlinear_arith)
                requires a == (-q - 1) * b + (b - 1 - m);
        }
        (-q - 1, b - 1 - m)
    }
}

} // verus!
