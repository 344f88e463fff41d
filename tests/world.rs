use boxel::block::{BlockProperties, BlockType};
use boxel::chunk::Chunk;
use boxel::coords::{BlockCoordinate, ChunkCoordinate, Fixed3, WorldCoordinate, SUBCELL};
use boxel::generator::{PlanarGenerator, WorldGenerator};
use boxel::world::World;

fn fixed(x: f64, y: f64, z: f64) -> Fixed3 {
    Fixed3::new(
        (x * SUBCELL as f64).round() as i64,
        (y * SUBCELL as f64).round() as i64,
        (z * SUBCELL as f64).round() as i64,
    )
}

fn sorted(mut v: Vec<ChunkCoordinate>) -> Vec<ChunkCoordinate> {
    v.sort_by_key(|c| (c.x, c.z));
    v
}

fn square(cx: i64, cz: i64, r: i64) -> Vec<ChunkCoordinate> {
    let mut v = Vec::new();
    for x in cx - r..=cx + r {
        for z in cz - r..=cz + r {
            v.push(ChunkCoordinate::new(x, z));
        }
    }
    sorted(v)
}

#[test]
fn camera_chunk_uses_floor() {
    assert_eq!(World::convert_to_chunk(&WorldCoordinate::new(15, 0, 16)), ChunkCoordinate::new(0, 1));
    assert_eq!(World::convert_to_chunk(&WorldCoordinate::new(-1, 0, -16)), ChunkCoordinate::new(-1, -1));
    assert_eq!(World::convert_to_chunk(&WorldCoordinate::new(-17, 0, i64::MIN)), ChunkCoordinate::new(-2, i64::MIN / 16));
}

#[test]
fn stationary_camera_loads_render_square() {
    let mut world = World::new(7);
    assert_eq!(world.seed(), 7);
    let camera = WorldCoordinate::new(8, 10, 8);
    let sent = world.update_chunks(&camera, Vec::new());
    assert_eq!(sorted(sent.clone()), square(0, 0, 2));
    assert_eq!(sent.len(), 25);
    for c in &sent {
        assert!(world.is_generating(*c));
        assert!(!world.is_loaded(*c));
    }
    assert!(world.rendered_chunks(&camera).is_empty());

    let again = world.update_chunks(&camera, Vec::new());
    assert!(again.is_empty());

    let g = PlanarGenerator::new();
    let finished: Vec<Chunk> = sent.iter().map(|c| g.generate(*c)).collect();
    let third = world.update_chunks(&camera, finished);
    assert!(third.is_empty());
    for c in &sent {
        assert!(world.is_loaded(*c));
        assert!(!world.is_generating(*c));
    }
    let rendered: Vec<ChunkCoordinate> = world.rendered_chunks(&camera).iter().map(|c| c.coordinates()).collect();
    assert_eq!(sorted(rendered), square(0, 0, 2));
    assert!(!world.is_loaded(ChunkCoordinate::new(3, 0)));
    assert!(!world.is_generating(ChunkCoordinate::new(3, 0)));
}

#[test]
fn moving_camera_dispatches_only_new_chunks() {
    let mut world = World::new(1);
    world.update_chunks(&WorldCoordinate::new(0, 0, 0), Vec::new());
    let sent = world.update_chunks(&WorldCoordinate::new(16, 0, 0), Vec::new());
    let expected: Vec<ChunkCoordinate> = (-2..=2).map(|z| ChunkCoordinate::new(3, z)).collect();
    assert_eq!(sorted(sent), sorted(expected));
}

#[test]
fn chunk_is_never_both_loaded_and_generating() {
    let mut world = World::new(3);
    let camera = WorldCoordinate::new(-40, 0, 100);
    let sent = world.update_chunks(&camera, Vec::new());
    let g = PlanarGenerator::new();
    let half: Vec<Chunk> = sent.iter().take(10).map(|c| g.generate(*c)).collect();
    world.update_chunks(&camera, half);
    for c in square(-3, 6, 3) {
        assert!(!(world.is_loaded(c) && world.is_generating(c)));
    }
    for (i, c) in sent.iter().enumerate() {
        assert_eq!(world.is_loaded(*c), i < 10);
        assert_eq!(world.is_generating(*c), i >= 10);
    }
    assert_eq!(world.rendered_chunks(&camera).len(), 10);
}

fn world_with_block(at: BlockCoordinate) -> World {
    let mut world = World::new(5);
    let camera = WorldCoordinate::new(8, 0, 8);
    let sent = world.update_chunks(&camera, Vec::new());
    let finished: Vec<Chunk> = sent
        .iter()
        .map(|c| {
            let mut chunk = Chunk::new(*c);
            if *c == ChunkCoordinate::new(0, 0) {
                chunk.add_block(at, BlockType::STONE);
            }
            chunk
        })
        .collect();
    world.update_chunks(&camera, finished);
    world
}

fn block_of(world: &World, c: ChunkCoordinate, at: BlockCoordinate) -> Option<BlockProperties> {
    world.rendered_chunks(&WorldCoordinate::new(8, 0, 8)).iter().find(|ch| ch.coordinates() == c).unwrap().get(&at)
}

#[test]
fn intersect_removes_block_in_front() {
    let target = BlockCoordinate::new(5, 40, 9);
    let mut world = world_with_block(target);
    assert!(block_of(&world, ChunkCoordinate::new(0, 0), target).is_some());
    assert!(world.intersect(&fixed(5.5, 8.5, 30.5), &fixed(0., 0., -1.)));
    assert_eq!(block_of(&world, ChunkCoordinate::new(0, 0), target), None);
    assert!(!world.intersect(&fixed(5.5, 8.5, 30.5), &fixed(0., 0., -1.)));
}

#[test]
fn intersect_across_chunks_from_above() {
    let target = BlockCoordinate::new(2, 10, 2);
    let mut world = world_with_block(target);
    assert!(world.intersect(&fixed(-20.5, 25.5, 2.5), &fixed(23.0, -47.0, 0.0)));
    assert_eq!(block_of(&world, ChunkCoordinate::new(0, 0), target), None);
}

#[test]
fn intersect_misses_empty_space() {
    let target = BlockCoordinate::new(5, 40, 9);
    let mut world = world_with_block(target);
    assert!(!world.intersect(&fixed(5.5, 8.5, 30.5), &fixed(0., 0., 1.)));
    assert!(!world.intersect(&fixed(0.5, 0.5, 0.5), &fixed(0., 1., 0.)));
    assert!(!world.intersect(&fixed(0.5, 0.5, 0.5), &fixed(0., 0., 0.)));
    assert!(block_of(&world, ChunkCoordinate::new(0, 0), target).is_some());
}

#[test]
fn intersect_stops_at_unloaded_chunk() {
    let mut world = World::new(5);
    let camera = WorldCoordinate::new(8, 0, 8);
    world.update_chunks(&camera, Vec::new());
    let near = Chunk::new(ChunkCoordinate::new(0, 0));
    let mut far = Chunk::new(ChunkCoordinate::new(2, 0));
    far.add_block(BlockCoordinate::new(3, 40, 8), BlockType::STONE);
    world.update_chunks(&camera, vec![near, far]);
    assert!(world.is_generating(ChunkCoordinate::new(1, 0)));
    assert!(!world.intersect(&fixed(8.5, 8.5, 8.5), &fixed(1., 0., 0.)));
    assert!(block_of(&world, ChunkCoordinate::new(2, 0), BlockCoordinate::new(3, 40, 8)).is_some());
    assert!(world.intersect(&fixed(33.5, 8.5, 8.5), &fixed(1., 0., 0.)));
    assert_eq!(block_of(&world, ChunkCoordinate::new(2, 0), BlockCoordinate::new(3, 40, 8)), None);
}
