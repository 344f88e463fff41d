use boxel::block::{Block, BlockProperties, BlockType};
use boxel::chunk::Chunk;
use boxel::coords::{BlockCoordinate, ChunkCoordinate, Fixed3, WorldCoordinate, SUBCELL};
use boxel::generator::{column_block, get_block, terrain_chunk, PlanarGenerator, WorldGenerator};
use boxel::march::VoxelMarch;
use boxel::storage::ChunkStorage;
use noise::{NoiseFn, Perlin, Seedable};

fn at(x: usize, y: usize, z: usize) -> BlockCoordinate {
    BlockCoordinate::new(x, y, z)
}

fn props(t: BlockType) -> Option<BlockProperties> {
    Some(BlockProperties::new(t))
}

fn fixed(x: f64, y: f64, z: f64) -> Fixed3 {
    Fixed3::new(
        (x * SUBCELL as f64).round() as i64,
        (y * SUBCELL as f64).round() as i64,
        (z * SUBCELL as f64).round() as i64,
    )
}

#[test]
fn isolated_block_is_visible() {
    let mut s = ChunkStorage::new();
    s.set(&at(5, 10, 5), props(BlockType::STONE));
    assert!(s.is_visible(&at(5, 10, 5)));
    assert!(!s.is_visible(&at(5, 11, 5)));
}

#[test]
fn surrounded_block_is_hidden() {
    let mut s = ChunkStorage::new();
    for (x, y, z) in [(5, 10, 5), (4, 10, 5), (6, 10, 5), (5, 9, 5), (5, 11, 5), (5, 10, 4), (5, 10, 6)] {
        s.set(&at(x, y, z), props(BlockType::DIRT));
    }
    assert!(!s.is_visible(&at(5, 10, 5)));
    assert!(s.is_visible(&at(5, 11, 5)));
    assert!(s.is_visible(&at(5, 9, 5)));
}

#[test]
fn water_is_always_visible() {
    let mut s = ChunkStorage::new();
    for y in 8..13 {
        s.set(&at(2, y, 3), props(BlockType::STONE));
    }
    s.set(&at(2, 10, 3), props(BlockType::WATER));
    assert!(s.is_visible(&at(2, 10, 3)));
    assert!(!s.is_visible(&at(2, 9, 3)));
}

#[test]
fn requery_after_mutation_is_fresh() {
    let mut s = ChunkStorage::new();
    for y in 0..3 {
        s.set(&at(0, y, 0), props(BlockType::STONE));
    }
    assert!(!s.is_visible(&at(0, 1, 0)));
    s.set(&at(0, 2, 0), None);
    assert!(s.is_visible(&at(0, 1, 0)));
    s.set(&at(0, 2, 0), props(BlockType::SAND));
    assert!(!s.is_visible(&at(0, 1, 0)));
    assert!(s.visible_at(&at(0, 2, 0)));
}

#[test]
fn column_scan_starts_in_air() {
    let mut s = ChunkStorage::new();
    for y in 0..64 {
        s.set(&at(7, y, 7), props(BlockType::STONE));
    }
    assert!(s.is_visible(&at(7, 0, 7)));
    assert!(!s.is_visible(&at(7, 63, 7)));
    s.set(&at(7, 62, 7), None);
    assert!(s.is_visible(&at(7, 63, 7)));
    assert!(s.is_visible(&at(7, 61, 7)));
    assert!(!s.is_visible(&at(7, 30, 7)));
    assert_eq!(s.get(&at(7, 30, 7)), props(BlockType::STONE));
    assert_eq!(s.get(&at(8, 30, 7)), None);
}

#[test]
fn chunk_origin_and_local_coordinates() {
    let c = Chunk::new(ChunkCoordinate::new(-2, 3));
    assert_eq!(c.world_origin(), WorldCoordinate::new(-32, 0, 48));
    assert_eq!(c.to_chunk_coords(&WorldCoordinate::new(-17, 0, 63)), Some(at(15, 32, 15)));
    assert_eq!(c.to_chunk_coords(&WorldCoordinate::new(-32, -32, 48)), Some(at(0, 0, 0)));
    assert_eq!(c.to_chunk_coords(&WorldCoordinate::new(-33, 0, 50)), None);
    assert_eq!(c.to_chunk_coords(&WorldCoordinate::new(-20, 32, 50)), None);
    assert_eq!(c.to_chunk_coords(&WorldCoordinate::new(-20, -33, 50)), None);
}

#[test]
fn visible_blocks_lists_exposed_blocks_in_world_space() {
    let mut c = Chunk::new(ChunkCoordinate::new(1, -1));
    c.add_block(at(0, 32, 0), BlockType::GRASS);
    c.add_block(at(0, 31, 0), BlockType::STONE);
    c.add_block(at(0, 30, 0), BlockType::STONE);
    c.add_block(at(3, 5, 9), BlockType::WATER);
    let blocks = c.visible_blocks();
    assert_eq!(
        blocks,
        vec![
            Block { position: WorldCoordinate::new(16, -2, -16), block_type: BlockType::STONE },
            Block { position: WorldCoordinate::new(16, 0, -16), block_type: BlockType::GRASS },
            Block { position: WorldCoordinate::new(19, -27, -7), block_type: BlockType::WATER },
        ]
    );
    c.update_visible();
    assert_eq!(c.visible_blocks().len(), 3);
    assert!(!c.is_visible(&at(0, 31, 0)));
}

#[test]
fn remove_clears_first_block_on_ray() {
    let mut c = Chunk::new(ChunkCoordinate::new(0, 0));
    c.add_block(at(4, 20, 4), BlockType::STONE);
    c.add_block(at(4, 10, 4), BlockType::STONE);
    let mut ray = VoxelMarch::new(&fixed(4.5, -17.5, 4.5), &fixed(0., -1., 0.));
    assert!(c.remove(&mut ray));
    assert_eq!(c.get(&at(4, 10, 4)), None);
    assert_eq!(c.get(&at(4, 20, 4)), props(BlockType::STONE));
    assert_eq!(ray.position(), WorldCoordinate::new(4, -22, 4));
}

#[test]
fn remove_stops_before_leaving_chunk() {
    let mut c = Chunk::new(ChunkCoordinate::new(0, 0));
    c.add_block(at(4, 10, 4), BlockType::STONE);
    let mut ray = VoxelMarch::new(&fixed(4.5, 0.5, 4.5), &fixed(1., 0., 0.));
    assert!(!c.remove(&mut ray));
    assert_eq!(ray.position(), WorldCoordinate::new(15, 0, 4));
    assert_eq!(c.get(&at(4, 10, 4)), props(BlockType::STONE));
    let (next, _) = ray.next();
    assert_eq!(next, WorldCoordinate::new(16, 0, 4));
}

#[test]
fn planar_generator_pattern() {
    let g = PlanarGenerator::new();
    let c = g.generate(ChunkCoordinate::new(0, 0));
    assert_eq!(c.coordinates(), ChunkCoordinate::new(0, 0));
    for x in 0..16 {
        for z in 0..16 {
            let expected = match (x + z) % 4 {
                0 => BlockType::DIRT,
                1 => BlockType::SAND,
                2 => BlockType::STONE,
                _ => BlockType::GRASS,
            };
            assert_eq!(c.get(&at(x, 0, z)), props(expected));
            assert_eq!(c.get(&at(x, 1, z)), None);
        }
    }
    assert_eq!(c.get(&at(0, 0, 0)), props(BlockType::DIRT));
    assert_eq!(c.get(&at(1, 0, 2)), props(BlockType::GRASS));
    assert_eq!(c.get(&at(15, 0, 15)), props(BlockType::STONE));
}

#[test]
fn surface_block_thresholds() {
    assert_eq!(get_block(-5), BlockType::SAND);
    assert_eq!(get_block(0), BlockType::SAND);
    assert_eq!(get_block(1), BlockType::GRASS);
    assert_eq!(get_block(12), BlockType::GRASS);
    assert_eq!(get_block(13), BlockType::STONE);
}

#[test]
fn column_layers() {
    assert_eq!(column_block(-4, -4), props(BlockType::SAND));
    assert_eq!(column_block(-4, -3), props(BlockType::WATER));
    assert_eq!(column_block(-4, -1), props(BlockType::WATER));
    assert_eq!(column_block(-4, 0), None);
    assert_eq!(column_block(-4, -5), props(BlockType::STONE));
    assert_eq!(column_block(-4, -31), props(BlockType::STONE));
    assert_eq!(column_block(-4, -32), None);
    assert_eq!(column_block(5, 5), props(BlockType::GRASS));
    assert_eq!(column_block(5, 6), None);
    assert_eq!(column_block(20, 20), props(BlockType::STONE));
}

#[test]
fn terrain_chunk_follows_heights() {
    let mut heights = vec![0i64; 256];
    heights[0] = 3;
    heights[1 * 16 + 2] = -2;
    heights[255] = 40;
    let c = terrain_chunk(ChunkCoordinate::new(0, 0), &heights);
    assert_eq!(c.get(&at(0, 35, 0)), props(BlockType::GRASS));
    assert_eq!(c.get(&at(0, 36, 0)), None);
    assert_eq!(c.get(&at(0, 34, 0)), props(BlockType::STONE));
    assert_eq!(c.get(&at(0, 1, 0)), props(BlockType::STONE));
    assert_eq!(c.get(&at(0, 0, 0)), None);
    assert_eq!(c.get(&at(1, 30, 2)), props(BlockType::SAND));
    assert_eq!(c.get(&at(1, 31, 2)), props(BlockType::WATER));
    assert_eq!(c.get(&at(1, 32, 2)), None);
    assert_eq!(c.get(&at(15, 63, 15)), props(BlockType::STONE));
    assert_eq!(c.get(&at(5, 32, 5)), props(BlockType::SAND));
}

fn noise_heights(seed: u32, chunk: ChunkCoordinate) -> Vec<i64> {
    let perlin = Perlin::new().set_seed(seed);
    let mut heights = Vec::new();
    for x in 0..16i64 {
        for z in 0..16i64 {
            let wx = (chunk.x * 16 + x) as f64 * 0.015;
            let wz = (chunk.z * 16 + z) as f64 * 0.015;
            heights.push((perlin.get([wx, wz]).powi(3) * 16.) as i64);
        }
    }
    heights
}

#[test]
fn same_seed_gives_same_terrain() {
    let coord = ChunkCoordinate::new(3, -7);
    let a = terrain_chunk(coord, &noise_heights(148714812, coord));
    let b = terrain_chunk(coord, &noise_heights(148714812, coord));
    for x in 0..16 {
        for y in 0..64 {
            for z in 0..16 {
                assert_eq!(a.get(&at(x, y, z)), b.get(&at(x, y, z)));
            }
        }
    }
    assert_eq!(a.visible_blocks(), b.visible_blocks());
}

#[test]
fn planar_layer_is_the_same_for_every_chunk() {
    let g = PlanarGenerator::new();
    let origin = g.generate(ChunkCoordinate::new(0, 0));
    let other = g.generate(ChunkCoordinate::new(5, -3));
    assert_eq!(other.coordinates(), ChunkCoordinate::new(5, -3));
    for x in 0..16 {
        for y in 0..64 {
            for z in 0..16 {
                assert_eq!(other.get(&at(x, y, z)), origin.get(&at(x, y, z)));
            }
        }
    }
    let blocks = other.visible_blocks();
    assert_eq!(blocks.len(), 256);
    assert_eq!(blocks[0], Block { position: WorldCoordinate::new(80, -32, -48), block_type: BlockType::DIRT });
}
