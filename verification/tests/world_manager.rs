use noise::Seedable;
use rustaria::block::{BlockId, BlockRegistry};
use rustaria::chunk::ChunkData;
use rustaria::world::TerrainSamples;
use rustaria::world_manager::WorldManager;

fn samples(height: i32) -> TerrainSamples {
    TerrainSamples { heights: vec![height; 256], caves: vec![false; 4096] }
}

#[test]
fn new_world_is_empty() {
    let w = WorldManager::new(3);
    assert_eq!(w.chunk_count(), 0);
    assert!(!w.has_chunk(0, 0, 0));
    assert!(w.get_chunk(0, 0, 0).is_none());
    assert!(w.loaded_positions().is_empty());
    assert!(w.get_dirty_chunks().is_empty());
}

#[test]
fn generate_stores_chunk_and_marks_loaded_neighbours() {
    let mut w = WorldManager::new(3);
    assert!(w.generate_chunk(0, 0, 0, &samples(25)).is_empty());
    assert!(w.has_chunk(0, 0, 0));
    let c = w.get_chunk(0, 0, 0).unwrap();
    assert_eq!(c.position, (0, 0, 0));
    assert!(c.dirty);
    assert_eq!(c.get(0, 0, 0), BlockId::stone());
    w.clear_dirty((0, 0, 0));
    assert!(!w.get_chunk(0, 0, 0).unwrap().dirty);

    w.generate_chunk(0, 0, 2, &samples(25));
    w.clear_dirty((0, 0, 2));
    // (0,0,1) touches both (0,0,0) [its -Z side] and (0,0,2) [its +Z side]
    let dirty = w.generate_chunk(0, 0, 1, &samples(25));
    assert_eq!(dirty, vec![(0, 0, 2), (0, 0, 0)]);
    assert!(w.get_chunk(0, 0, 0).unwrap().dirty);
    assert!(w.get_chunk(0, 0, 2).unwrap().dirty);
    assert_eq!(w.chunk_count(), 3);
}

#[test]
fn regenerating_a_position_keeps_count() {
    let mut w = WorldManager::new(3);
    w.generate_chunk(4, 1, 4, &samples(25));
    w.generate_chunk(4, 1, 4, &samples(5));
    assert_eq!(w.chunk_count(), 1);
    assert_eq!(w.get_chunk(4, 1, 4).unwrap().get(0, 0, 0), BlockId::water());
}

#[test]
fn dirty_chunks_and_positions() {
    let mut w = WorldManager::new(3);
    w.generate_chunk(0, 0, 0, &samples(25));
    w.generate_chunk(5, 0, 0, &samples(25));
    w.clear_dirty((5, 0, 0));
    let mut pos = w.loaded_positions();
    pos.sort();
    assert_eq!(pos, vec![(0, 0, 0), (5, 0, 0)]);
    assert_eq!(w.get_dirty_chunks(), vec![(0, 0, 0)]);
    // clearing an unloaded position changes nothing
    w.clear_dirty((9, 9, 9));
    assert_eq!(w.chunk_count(), 2);
}

#[test]
fn unload_removes_and_marks_neighbours() {
    let mut w = WorldManager::new(3);
    w.generate_chunk(0, 0, 0, &samples(25));
    w.generate_chunk(1, 0, 0, &samples(25));
    w.clear_dirty((0, 0, 0));
    w.clear_dirty((1, 0, 0));
    w.unload_chunk(1, 0, 0);
    assert!(!w.has_chunk(1, 0, 0));
    assert!(w.get_chunk(0, 0, 0).unwrap().dirty);
    assert_eq!(w.chunk_count(), 1);
    // unloading a missing chunk is harmless
    w.unload_chunk(7, 7, 7);
    assert_eq!(w.chunk_count(), 1);
}

#[test]
fn parallel_generation_inserts_in_order() {
    let mut w = WorldManager::new(3);
    w.generate_chunk(0, 0, 0, &samples(25));
    w.clear_dirty((0, 0, 0));
    let gen = w.generator();
    let a = gen.generate_chunk(1, 0, 0, &samples(25));
    let b = gen.generate_chunk(2, 0, 0, &samples(25));
    let dirty = w.generate_chunks_parallel(vec![a, b]);
    // inserting (1,0,0) marks (0,0,0); inserting (2,0,0) marks (1,0,0)
    assert_eq!(dirty, vec![(0, 0, 0), (1, 0, 0)]);
    assert_eq!(w.chunk_count(), 3);
    assert!(w.get_chunk(0, 0, 0).unwrap().dirty);
}

#[test]
fn neighbours_and_meshing_across_chunks() {
    let mut w = WorldManager::new(3);
    w.generate_chunk(0, 0, 0, &samples(40));
    let r = BlockRegistry::new();
    // chunk (0,0,0) is solid stone below y=36: only its six sides show
    let (v, _) = w.mesh_chunk_at((0, 0, 0), &r).unwrap();
    assert_eq!(v.len(), 6 * 256 * 4);
    w.generate_chunk(1, 0, 0, &samples(40));
    let n = w.neighbors((0, 0, 0));
    assert!(n.pos_x.is_some());
    assert!(n.neg_x.is_none());
    let (v2, _) = w.mesh_chunk_at((0, 0, 0), &r).unwrap();
    assert_eq!(v2.len(), 5 * 256 * 4);
    assert!(w.mesh_chunk_at((3, 3, 3), &r).is_none());
    // a chunk of air meshes to nothing
    w.generate_chunk(0, 5, 0, &samples(0));
    assert!(w.mesh_chunk_at((0, 5, 0), &r).is_none());
}

#[test]
fn stored_chunk_keeps_its_position() {
    let mut w = WorldManager::new(3);
    let c = ChunkData::generate_flat_test();
    w.generate_chunks_parallel(vec![c]);
    assert!(w.has_chunk(0, 0, 0));
    assert_eq!(w.get_chunk(0, 0, 0).unwrap().get(0, 4, 0), BlockId::grass());
    assert_eq!(w.get_chunk(-1, 0, 0).map(|c| c.position), None);
    assert_eq!(w.get_chunk(i32::MIN + 1, -5, i32::MAX - 1).map(|c| c.position), None);
}

#[test]
fn world_noise_comes_from_its_seed() {
    assert_eq!(WorldManager::new(7).generator().noise().seed(), 7);
    assert_eq!(WorldManager::new(123_456).generator().noise().seed(), 123_456);
}

#[test]
fn clear_dirty_all_clears_listed_loaded_chunks_only() {
    let mut w = WorldManager::new(3);
    w.generate_chunk(0, 0, 0, &samples(25));
    w.generate_chunk(4, 0, 0, &samples(25));
    w.generate_chunk(8, 0, 0, &samples(25));
    // (9,9,9) is not loaded: listing it changes nothing
    w.clear_dirty_all(&vec![(0, 0, 0), (9, 9, 9), (8, 0, 0), (0, 0, 0)]);
    assert!(!w.get_chunk(0, 0, 0).unwrap().dirty);
    assert!(w.get_chunk(4, 0, 0).unwrap().dirty);
    assert!(!w.get_chunk(8, 0, 0).unwrap().dirty);
    assert_eq!(w.chunk_count(), 3);
    assert_eq!(w.get_dirty_chunks(), vec![(4, 0, 0)]);
    w.clear_dirty_all(&vec![]);
    assert_eq!(w.get_dirty_chunks(), vec![(4, 0, 0)]);
}

#[test]
fn batch_matches_one_by_one_generation() {
    let mut batched = WorldManager::new(3);
    let mut single = WorldManager::new(3);
    for w in [&mut batched, &mut single] {
        w.generate_chunk(0, 0, 0, &samples(25));
        w.clear_dirty((0, 0, 0));
    }
    let gen = batched.generator();
    let chunks = vec![
        gen.generate_chunk(1, 0, 0, &samples(25)),
        gen.generate_chunk(0, 0, 1, &samples(10)),
        gen.generate_chunk(1, 0, 1, &samples(30)),
    ];
    let dirty_batch = batched.generate_chunks_parallel(chunks);
    let mut dirty_single = single.generate_chunk(1, 0, 0, &samples(25));
    dirty_single.extend(single.generate_chunk(0, 0, 1, &samples(10)));
    dirty_single.extend(single.generate_chunk(1, 0, 1, &samples(30)));
    assert_eq!(dirty_batch, dirty_single);
    let mut a = batched.loaded_positions();
    let mut b = single.loaded_positions();
    a.sort();
    b.sort();
    assert_eq!(a, b);
    for p in a {
        let ca = batched.get_chunk(p.0, p.1, p.2).unwrap();
        let cb = single.get_chunk(p.0, p.1, p.2).unwrap();
        assert_eq!(ca.dirty, cb.dirty);
        assert_eq!(ca.get(3, 5, 7), cb.get(3, 5, 7));
        assert_eq!(ca.get(0, 0, 0), cb.get(0, 0, 0));
    }
}
