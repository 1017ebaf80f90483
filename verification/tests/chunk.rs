use rustaria::block::BlockId;
use rustaria::chunk::{ChunkData, StorageMode, CHUNK_SIZE, CHUNK_VOLUME};

#[test]
fn sizes() {
    assert_eq!(CHUNK_SIZE, 16);
    assert_eq!(CHUNK_VOLUME, 4096);
}

#[test]
fn new_chunk_is_all_air_and_clean() {
    let c = ChunkData::new((3, -2, 7));
    assert_eq!(c.position, (3, -2, 7));
    assert!(!c.dirty);
    assert!(matches!(c.storage, StorageMode::Dense(_)));
    for z in 0..16 {
        for y in 0..16 {
            for x in 0..16 {
                assert_eq!(c.get(x, y, z), BlockId::air());
            }
        }
    }
}

#[test]
fn set_then_get_and_dirty() {
    let mut c = ChunkData::new((0, 0, 0));
    c.set(1, 2, 3, BlockId::dirt());
    assert!(c.dirty);
    assert_eq!(c.get(1, 2, 3), BlockId::dirt());
    assert_eq!(c.get(3, 2, 1), BlockId::air());
    assert_eq!(c.get(15, 15, 15), BlockId::air());
    c.set(15, 15, 15, BlockId::stone());
    assert_eq!(c.get(15, 15, 15), BlockId::stone());
}

#[test]
fn index_formula_is_x_plus_16y_plus_256z() {
    let mut c = ChunkData::new((0, 0, 0));
    // x = 17 is outside the chunk edge but indexes the same cell as (1, 1, 0)
    c.set(17, 0, 0, BlockId::grass());
    assert_eq!(c.get(1, 1, 0), BlockId::grass());
    c.set(0, 16, 0, BlockId::stone());
    assert_eq!(c.get(0, 0, 1), BlockId::stone());
}

#[test]
fn single_block_test_chunk() {
    let c = ChunkData::generate_single_block_test();
    assert_eq!(c.position, (0, 0, 0));
    assert!(!c.dirty);
    assert_eq!(c.get(0, 0, 0), BlockId::stone());
    let mut solid = 0;
    for z in 0..16 {
        for y in 0..16 {
            for x in 0..16 {
                if !c.get(x, y, z).is_air() {
                    solid += 1;
                }
            }
        }
    }
    assert_eq!(solid, 1);
}

#[test]
fn flat_test_chunk_layers() {
    let c = ChunkData::generate_flat_test();
    assert!(!c.dirty);
    for z in 0..16 {
        for x in 0..16 {
            assert_eq!(c.get(x, 0, z), BlockId::stone());
            assert_eq!(c.get(x, 1, z), BlockId::dirt());
            assert_eq!(c.get(x, 2, z), BlockId::dirt());
            assert_eq!(c.get(x, 3, z), BlockId::dirt());
            assert_eq!(c.get(x, 4, z), BlockId::grass());
            for y in 5..16 {
                assert_eq!(c.get(x, y, z), BlockId::air());
            }
        }
    }
}
