use vstd::prelude::*;

use noise::Perlin;

use crate::block::BlockId;
use crate::chunk::{in_chunk, local_index, lemma_local_index_injective, ChunkData, CHUNK_SIZE};

verus! {

broadcast use vstd::array::group_array_axioms;

/// Highest world height that is flooded with water above the terrain.
pub const SEA_LEVEL: i32 = 20;
/// World heights at or below this are bedrock.
pub const BEDROCK_HEIGHT: i32 = -50;
/// Number of columns sampled per chunk (one per local `(x, z)`).
pub const CHUNK_AREA: usize = CHUNK_SIZE * CHUNK_SIZE;

#[verifier::external_type_specification]
#[verifier::external_body]
pub struct ExPerlin(noise::Perlin);

/// The Perlin noise source that the `noise` crate's `Perlin::new` builds from `seed`.
pub uninterp spec fn perlin_of(seed: u32) -> Perlin;

/// Builds the Perlin noise source of the `noise` crate (`Perlin::new`) for a seed.
/// `Perlin::new` fills its permutation table from the seed alone, so the result is
/// stated to be `perlin_of(seed)`; what the table holds is left unsaid.
#[verifier::external_body]
fn perlin_new(seed: u32) -> (p: Perlin)
    ensures
        p == perlin_of(seed),
{
    Perlin::new(seed)
}

/// Noise samples of one chunk: the terrain height of each column, indexed by
/// `x + z * CHUNK_SIZE`, and whether cave noise carves out each block, indexed by the
/// block's linear index.
pub struct TerrainSamples {
    pub heights: Vec<i32>,
    pub caves: Vec<bool>,
}

impl TerrainSamples {
    pub open spec fn wf(&self) -> bool {
        self.heights@.len() == 256 && self.caves@.len() == 4096
    }

    /// Height of local column `(x, z)`.
    pub open spec fn height(&self, x: int, z: int) -> int {
        self.heights@[x + z * 16] as int
    }

    /// Whether the cave noise carves the block at local `(x, y, z)`.
    pub open spec fn carved(&self, x: int, y: int, z: int) -> bool {
        self.caves@[local_index(x, y, z)]
    }
}

/// The block placed at world height `world_y` in a column of terrain height `height`:
/// water fills the air up to sea level; the surface is grass above sea level and dirt
/// at or below it; dirt lies down to four blocks under the surface; stone follows down
/// to the bedrock layer; caves remove dirt and stone below the surface.
pub open spec fn terrain_block(world_y: int, height: int, carved: bool) -> BlockId {
    if world_y > height {
        if world_y <= SEA_LEVEL {
            BlockId::water()
        } else {
            BlockId::air()
        }
    } else if world_y == height {
        if height > SEA_LEVEL {
            BlockId::grass()
        } else {
            BlockId::dirt()
        }
    } else if world_y > height - 4 {
        if carved {
            BlockId::air()
        } else {
            BlockId::dirt()
        }
    } else if world_y > BEDROCK_HEIGHT {
        if carved {
            BlockId::air()
        } else {
            BlockId::stone()
        }
    } else {
        BlockId::bedrock()
    }
}

/// The block placed at world height `world_y` in a column of terrain height `height`.
pub fn column_block(world_y: i64, height: i32, carved: bool) -> (b: BlockId)
    ensures
        b == terrain_block(world_y as int, height as int, carved),
{
    let h = height as i64;
    if world_y > h {
        if world_y <= SEA_LEVEL as i64 {
            BlockId::water()
        } else {
            BlockId::air()
        }
    } else if world_y == h {
        if height > SEA_LEVEL {
            BlockId::grass()
        } else {
            BlockId::dirt()
        }
    } else if world_y > h - 4 {
        if carved {
            BlockId::air()
        } else {
            BlockId::dirt()
        }
    } else if world_y > BEDROCK_HEIGHT as i64 {
        if carved {
            BlockId::air()
        } else {
            BlockId::stone()
        }
    } else {
        BlockId::bedrock()
    }
}

/// `c` is the chunk generated at `(cx, cy, cz)` from `samples`.
pub open spec fn generated_from(c: ChunkData, cx: i32, cy: i32, cz: i32, samples: &TerrainSamples) -> bool {
    &&& c.wf()
    &&& c.position == (cx, cy, cz)
    &&& c.dirty
    &&& c.blocks().len() == 4096
    &&& forall|x: int, y: int, z: int|
        in_chunk(x, y, z) ==> #[trigger] c.block_at(x, y, z) == terrain_block(
            cy * 16 + y,
            samples.height(x, z),
            samples.carved(x, y, z),
        )
}

/// Procedural terrain generator: the Perlin noise source from which callers sample heights
/// and caves, and the placement of blocks from those samples.
pub struct TerrainGenerator {
    perlin: Perlin,
}

impl TerrainGenerator {
    /// A generator seeded with `seed`.
    pub fn new(seed: u32) -> (g: Self)
        ensures
            g.noise_source() == perlin_of(seed),
    {
        Self { perlin: perlin_new(seed) }
    }

    /// The Perlin noise source this generator holds.
    pub closed spec fn noise_source(&self) -> Perlin {
        self.perlin
    }

    /// The noise source, for sampling column heights and caves.
    pub fn noise(&self) -> (n: &Perlin)
        ensures
            *n == self.noise_source(),
    {
        &self.perlin
    }

    /// Generates the chunk at chunk coordinates `(cx, cy, cz)` from its noise samples,
    /// placing each block by `terrain_block`; the new chunk is marked dirty.
    pub fn generate_chunk(&self, cx: i32, cy: i32, cz: i32, samples: &TerrainSamples) -> (c: ChunkData)
        requires
            samples.wf(),
        ensures
            generated_from(c, cx, cy, cz, samples),
    {
        let mut chunk = ChunkData::new((cx, cy, cz));
        let mut lz: usize = 0;
        while lz < CHUNK_SIZE
            invariant
                samples.wf(),
                0 <= lz <= 16,
                chunk.wf(),
                chunk.position == (cx, cy, cz),
                chunk.blocks().len() == 4096,
                forall|x: int, y: int, z: int|
                    in_chunk(x, y, z) ==> #[trigger] chunk.block_at(x, y, z) == (if z < lz {
                        terrain_block(cy * 16 + y, samples.height(x, z), samples.carved(x, y, z))
                    } else {
                        BlockId::air()
                    }),
            decreases 16 - lz,
        {
            let mut lx: usize = 0;
            while lx < CHUNK_SIZE
                invariant
                    samples.wf(),
                    0 <= lz < 16,
                    0 <= lx <= 16,
                    chunk.wf(),
                    chunk.position == (cx, cy, cz),
                    chunk.blocks().len() == 4096,
                    forall|x: int, y: int, z: int|
                        in_chunk(x, y, z) ==> #[trigger] chunk.block_at(x, y, z) == (if z < lz || (z
                            == lz && x < lx) {
                            terrain_block(cy * 16 + y, samples.height(x, z), samples.carved(x, y, z))
                        } else {
                            BlockId::air()
                        }),
                decreases 16 - lx,
            {
                let height = samples.heights[lx + lz * CHUNK_SIZE];
                let mut ly: usize = 0;
                while ly < CHUNK_SIZE
                    invariant
                        samples.wf(),
                        0 <= lz < 16,
                        0 <= lx < 16,
                        0 <= ly <= 16,
                        height == samples.height(lx as int, lz as int),
                        chunk.wf(),
                        chunk.position == (cx, cy, cz),
                        chunk.blocks().len() == 4096,
                        forall|x: int, y: int, z: int|
                            in_chunk(x, y, z) ==> #[trigger] chunk.block_at(x, y, z) == (if z < lz
                                || (z == lz && x < lx) || (z == lz && x == lx && y < ly) {
                                terrain_block(cy * 16 + y, samples.height(x, z), samples.carved(x, y, z))
                            } else {
                                BlockId::air()
                            }),
                    decreases 16 - ly,
                {
                    proof {
                        lemma_local_index_injective(lx as int, ly as int, lz as int, 0, 0, 0);
                    }
                    let world_y = cy as i64 * 16 + ly as i64;
                    let carved = samples.caves[lx + ly * CHUNK_SIZE + lz * CHUNK_SIZE * CHUNK_SIZE];
                    let block = column_block(world_y, height, carved);
                    let ghost before = chunk;
                    if !block.is_air() {
                        chunk.set(lx, ly, lz, block);
                    }
                    assert forall|x: int, y: int, z: int| in_chunk(x, y, z) implies #[trigger] chunk.block_at(x, y, z) == (if z < lz
                        || (z == lz && x < lx) || (z == lz && x == lx && y < ly + 1) {
                        terrain_block(cy * 16 + y, samples.height(x, z), samples.carved(x, y, z))
                    } else {
                        BlockId::air()
                    }) by {
                        lemma_local_index_injective(x, y, z, lx as int, ly as int, lz as int);
                        assert(before.block_at(x, y, z) == (if z < lz || (z == lz && x < lx) || (z == lz && x == lx && y < ly) {
                            terrain_block(cy * 16 + y, samples.height(x, z), samples.carved(x, y, z))
                        } else {
                            BlockId::air()
                        }));
                    }
                    ly = ly + 1;
                }
                lx = lx + 1;
            }
            lz = lz + 1;
        }
        let ghost filled = chunk;
        chunk.dirty = true;
        assert forall|x: int, y: int, z: int| in_chunk(x, y, z) implies #[trigger] chunk.block_at(x, y, z)
            == terrain_block(cy * 16 + y, samples.height(x, z), samples.carved(x, y, z)) by {
            assert(filled.block_at(x, y, z) == terrain_block(cy * 16 + y, samples.height(x, z), samples.carved(x, y, z)));
        }
        chunk
    }
}


/// The layers of a terrain column, from the top: above both the surface and sea level
/// there is air; above the surface up to sea level, water; the surface block is grass
/// above sea level and dirt at or below it; the four blocks under it are dirt, then stone
/// down to the bedrock height; caves hollow out dirt and stone but never the surface,
/// water or bedrock; at and below the bedrock height (under the dirt) every block is
/// bedrock.
pub proof fn lemma_terrain_layers(world_y: int, height: int, carved: bool)
    ensures
        world_y > height && world_y > SEA_LEVEL ==> terrain_block(world_y, height, carved) == BlockId::air(),
        height < world_y <= SEA_LEVEL ==> terrain_block(world_y, height, carved) == BlockId::water(),
        world_y == height && height > SEA_LEVEL ==> terrain_block(world_y, height, carved) == BlockId::grass(),
        world_y == height && height <= SEA_LEVEL ==> terrain_block(world_y, height, carved) == BlockId::dirt(),
        height - 4 < world_y < height ==> terrain_block(world_y, height, carved) == (if carved {
            BlockId::air()
        } else {
            BlockId::dirt()
        }),
        BEDROCK_HEIGHT < world_y <= height - 4 ==> terrain_block(world_y, height, carved) == (if carved {
            BlockId::air()
        } else {
            BlockId::stone()
        }),
        world_y <= BEDROCK_HEIGHT && world_y <= height - 4 ==> terrain_block(world_y, height, carved) == BlockId::bedrock(),
{
}

/// A generated chunk has a bedrock floor: every block at or below the bedrock height that
/// lies under the dirt of its column is bedrock, whatever the cave noise says.
pub proof fn lemma_generated_bedrock_floor(c: ChunkData, cx: i32, cy: i32, cz: i32, samples: &TerrainSamples, x: int, y: int, z: int)
    requires
        generated_from(c, cx, cy, cz, samples),
        in_chunk(x, y, z),
        cy * 16 + y <= BEDROCK_HEIGHT,
        cy * 16 + y <= samples.height(x, z) - 4,
    ensures
        c.block_at(x, y, z) == BlockId::bedrock(),
{
    lemma_terrain_layers(cy * 16 + y, samples.height(x, z), samples.carved(x, y, z));
}

} // verus!
