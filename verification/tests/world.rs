use rustaria::block::BlockId;
use rustaria::world::{column_block, TerrainGenerator, TerrainSamples, BEDROCK_HEIGHT, SEA_LEVEL};

#[test]
fn column_block_table() {
    // above the surface: water up to sea level, air above
    assert_eq!(column_block(11, 10, false), BlockId::water());
    assert_eq!(column_block(SEA_LEVEL as i64, 10, false), BlockId::water());
    assert_eq!(column_block(SEA_LEVEL as i64 + 1, 10, false), BlockId::air());
    // surface: grass above sea level, dirt at or below it
    assert_eq!(column_block(30, 30, false), BlockId::grass());
    assert_eq!(column_block(SEA_LEVEL as i64, SEA_LEVEL, false), BlockId::dirt());
    // dirt down to four blocks below the surface
    assert_eq!(column_block(27, 30, false), BlockId::dirt());
    assert_eq!(column_block(26, 30, false), BlockId::stone());
    // stone down to bedrock
    assert_eq!(column_block(BEDROCK_HEIGHT as i64 + 1, 30, false), BlockId::stone());
    assert_eq!(column_block(BEDROCK_HEIGHT as i64, 30, false), BlockId::bedrock());
    // caves carve dirt and stone but not the surface or bedrock
    assert_eq!(column_block(27, 30, true), BlockId::air());
    assert_eq!(column_block(0, 30, true), BlockId::air());
    assert_eq!(column_block(30, 30, true), BlockId::grass());
    assert_eq!(column_block(BEDROCK_HEIGHT as i64, 30, true), BlockId::bedrock());
}

fn flat_samples(height: i32) -> TerrainSamples {
    TerrainSamples { heights: vec![height; 256], caves: vec![false; 4096] }
}

#[test]
fn generate_chunk_places_blocks_by_height() {
    let g = TerrainGenerator::new(7);
    let c = g.generate_chunk(1, 0, -2, &flat_samples(25));
    assert_eq!(c.position, (1, 0, -2));
    assert!(c.dirty);
    for z in 0..16 {
        for x in 0..16 {
            for y in 0..16 {
                assert_eq!(c.get(x, y, z), column_block(y as i64, 25, false));
            }
        }
    }
    assert_eq!(c.get(0, 15, 0), BlockId::stone());
}

#[test]
fn generate_chunk_uses_world_height_of_chunk() {
    let g = TerrainGenerator::new(1);
    let c = g.generate_chunk(0, 1, 0, &flat_samples(25));
    // world y = 16 + local y
    assert_eq!(c.get(0, 6, 0), BlockId::dirt());
    assert_eq!(c.get(0, 5, 0), BlockId::stone());
    assert_eq!(c.get(0, 9, 0), BlockId::grass());
    assert_eq!(c.get(0, 10, 0), BlockId::air());
    assert_eq!(c.get(0, 0, 0), BlockId::stone());
}

#[test]
fn generate_chunk_reads_each_column_and_cave() {
    let g = TerrainGenerator::new(1);
    let mut s = flat_samples(5);
    s.heights[3 + 4 * 16] = 12;
    s.caves[2 + 1 * 16 + 0 * 256] = true;
    let c = g.generate_chunk(0, 0, 0, &s);
    assert_eq!(c.get(3, 12, 4), BlockId::dirt());
    assert_eq!(c.get(3, 6, 4), BlockId::stone());
    assert_eq!(c.get(0, 6, 0), BlockId::water());
    assert_eq!(c.get(2, 1, 0), BlockId::air());
    assert_eq!(c.get(3, 1, 0), BlockId::stone());
}
