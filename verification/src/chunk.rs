use vstd::prelude::*;

use crate::block::BlockId;

verus! {

broadcast use vstd::array::group_array_axioms;

/// Edge length of a chunk, in blocks.
pub const CHUNK_SIZE: usize = 16;
/// Number of blocks in a chunk.
pub const CHUNK_VOLUME: usize = CHUNK_SIZE * CHUNK_SIZE * CHUNK_SIZE;

/// Linear index of local coordinates: `x + y * CHUNK_SIZE + z * CHUNK_SIZE²`.
pub open spec fn local_index(x: int, y: int, z: int) -> int {
    x + y * 16 + z * 256
}

/// True when each coordinate lies in `[0, CHUNK_SIZE)`.
pub open spec fn in_chunk(x: int, y: int, z: int) -> bool {
    0 <= x < 16 && 0 <= y < 16 && 0 <= z < 16
}

/// The block of the flat test chunk at height `y`.
pub open spec fn flat_layer(y: int) -> BlockId {
    if y == 0 {
        BlockId::stone()
    } else if 1 <= y <= 3 {
        BlockId::dirt()
    } else if y == 4 {
        BlockId::grass()
    } else {
        BlockId::air()
    }
}

/// Distinct in-chunk coordinates have distinct linear indices, all below `CHUNK_VOLUME`.
pub proof fn lemma_local_index_injective(x1: int, y1: int, z1: int, x2: int, y2: int, z2: int)
    requires
        in_chunk(x1, y1, z1),
        in_chunk(x2, y2, z2),
    ensures
        0 <= local_index(x1, y1, z1) < CHUNK_VOLUME,
        local_index(x1, y1, z1) == local_index(x2, y2, z2) ==> (x1 == x2 && y1 == y2 && z1 == z2),
{
    if local_index(x1, y1, z1) == local_index(x2, y2, z2) {
        assert(z1 == z2) by (nonlinear_arith)
            requires
                in_chunk(x1, y1, z1),
                in_chunk(x2, y2, z2),
                x1 + y1 * 16 + z1 * 256 == x2 + y2 * 16 + z2 * 256,
        ;
        assert(y1 == y2) by (nonlinear_arith)
            requires
                in_chunk(x1, y1, z1),
                in_chunk(x2, y2, z2),
                x1 + y1 * 16 == x2 + y2 * 16,
        ;
    }
}

/// Every in-chunk coordinate has a linear index below `CHUNK_VOLUME`, and no other in-chunk
/// coordinate shares it: the linear layout is a one-to-one map of the chunk into its storage.
pub proof fn lemma_index_layout(x: int, y: int, z: int)
    requires
        in_chunk(x, y, z),
    ensures
        0 <= local_index(x, y, z) < CHUNK_VOLUME,
        forall|x2: int, y2: int, z2: int|
            in_chunk(x2, y2, z2) && #[trigger] local_index(x2, y2, z2) == local_index(x, y, z) ==> (x2, y2, z2) == (x, y, z),
{
    lemma_local_index_injective(x, y, z, x, y, z);
    assert forall|x2: int, y2: int, z2: int|
        in_chunk(x2, y2, z2) && #[trigger] local_index(x2, y2, z2) == local_index(x, y, z) implies (x2, y2, z2) == (x, y, z) by {
        lemma_local_index_injective(x2, y2, z2, x, y, z);
    }
}

pub enum StorageMode {
    Dense(Box<[BlockId; CHUNK_VOLUME]>),
    Compressed,
}

pub struct ChunkData {
    pub storage: StorageMode,
    /// Chunk coordinates (not world coordinates).
    pub position: (i32, i32, i32),
    /// Set whenever a block changes; cleared once the chunk has been re-meshed.
    pub dirty: bool,
}

impl ChunkData {
    /// A chunk can be read and written only with dense storage.
    pub open spec fn wf(&self) -> bool {
        self.storage is Dense
    }

    /// The blocks of a dense chunk, in linear-index order.
    pub open spec fn blocks(&self) -> Seq<BlockId> {
        match self.storage {
            StorageMode::Dense(b) => b@,
            StorageMode::Compressed => Seq::empty(),
        }
    }

    /// The block at local coordinates `(x, y, z)`.
    pub open spec fn block_at(&self, x: int, y: int, z: int) -> BlockId {
        self.blocks()[local_index(x, y, z)]
    }

    /// An all-air dense chunk at the given chunk coordinates.
    pub fn new(position: (i32, i32, i32)) -> (c: Self)
        ensures
            c.wf(),
            c.position == position,
            !c.dirty,
            c.blocks().len() == CHUNK_VOLUME,
            forall|i: int| 0 <= i < CHUNK_VOLUME ==> #[trigger] c.blocks()[i] == BlockId::air(),
    {
        Self {
            storage: StorageMode::Dense(Box::new([BlockId(0); CHUNK_VOLUME])),
            position,
            dirty: false,
        }
    }

    fn index(x: usize, y: usize, z: usize) -> (i: usize)
        requires
            local_index(x as int, y as int, z as int) < CHUNK_VOLUME,
        ensures
            i == local_index(x as int, y as int, z as int),
    {
        x + y * CHUNK_SIZE + z * CHUNK_SIZE * CHUNK_SIZE
    }

    /// The block at local coordinates `(x, y, z)`.
    pub fn get(&self, x: usize, y: usize, z: usize) -> (b: BlockId)
        requires
            self.wf(),
            local_index(x as int, y as int, z as int) < CHUNK_VOLUME,
        ensures
            b == self.block_at(x as int, y as int, z as int),
    {
        match &self.storage {
            StorageMode::Dense(blocks) => blocks[Self::index(x, y, z)],
            StorageMode::Compressed => BlockId(0),
        }
    }

    /// Writes a block and marks the chunk dirty.
    pub fn set(&mut self, x: usize, y: usize, z: usize, block: BlockId)
        requires
            old(self).wf(),
            local_index(x as int, y as int, z as int) < CHUNK_VOLUME,
        ensures
            final(self).wf(),
            final(self).blocks() == old(self).blocks().update(
                local_index(x as int, y as int, z as int),
                block,
            ),
            final(self).position == old(self).position,
            final(self).dirty,
    {
        let i = Self::index(x, y, z);
        match &mut self.storage {
            StorageMode::Dense(blocks) => {
                blocks[i] = block;
                self.dirty = true;
            },
            StorageMode::Compressed => {},
        }
    }

    /// A chunk at the origin holding a single stone block at `(0, 0, 0)`.
    pub fn generate_single_block_test() -> (c: Self)
        ensures
            c.wf(),
            c.position == (0i32, 0i32, 0i32),
            !c.dirty,
            c.blocks().len() == CHUNK_VOLUME,
            c.blocks()[0] == BlockId::stone(),
            forall|i: int| 0 < i < CHUNK_VOLUME ==> #[trigger] c.blocks()[i] == BlockId::air(),
    {
        let mut chunk = Self::new((0, 0, 0));
        chunk.set(0, 0, 0, BlockId::stone());
        chunk.dirty = false;
        chunk
    }

    /// A chunk at the origin with flat layers: stone at `y = 0`, dirt at `y = 1..=3`,
    /// grass at `y = 4` and air above.
    pub fn generate_flat_test() -> (c: Self)
        ensures
            c.wf(),
            c.position == (0i32, 0i32, 0i32),
            !c.dirty,
            c.blocks().len() == CHUNK_VOLUME,
            forall|x: int, y: int, z: int|
                in_chunk(x, y, z) ==> #[trigger] c.block_at(x, y, z) == flat_layer(y),
    {
        let mut chunk = Self::new((0, 0, 0));
        let mut z: usize = 0;
        while z < CHUNK_SIZE
            invariant
                0 <= z <= 16,
                chunk.wf(),
                chunk.position == (0i32, 0i32, 0i32),
                chunk.blocks().len() == CHUNK_VOLUME,
                forall|x2: int, y2: int, z2: int|
                    in_chunk(x2, y2, z2) ==> #[trigger] chunk.block_at(x2, y2, z2) == (if z2 < z {
                        flat_layer(y2)
                    } else {
                        BlockId::air()
                    }),
            decreases 16 - z,
        {
            let mut x: usize = 0;
            while x < CHUNK_SIZE
                invariant
                    0 <= z < 16,
                    0 <= x <= 16,
                    chunk.wf(),
                    chunk.position == (0i32, 0i32, 0i32),
                    chunk.blocks().len() == CHUNK_VOLUME,
                    forall|x2: int, y2: int, z2: int|
                        in_chunk(x2, y2, z2) ==> #[trigger] chunk.block_at(x2, y2, z2) == (if z2
                            < z || (z2 == z && x2 < x) {
                            flat_layer(y2)
                        } else {
                            BlockId::air()
                        }),
                decreases 16 - x,
            {
                let ghost before = chunk;
                chunk.set(x, 0, z, BlockId::stone());
                chunk.set(x, 1, z, BlockId::dirt());
                chunk.set(x, 2, z, BlockId::dirt());
                chunk.set(x, 3, z, BlockId::dirt());
                chunk.set(x, 4, z, BlockId::grass());
                assert forall|x2: int, y2: int, z2: int| in_chunk(x2, y2, z2) implies #[trigger] chunk.block_at(x2, y2, z2) == (if z2 < z || (z2 == z && x2 < x + 1) {
                    flat_layer(y2)
                } else {
                    BlockId::air()
                }) by {
                    lemma_local_index_injective(x2, y2, z2, x as int, 0, z as int);
                    lemma_local_index_injective(x2, y2, z2, x as int, 1, z as int);
                    lemma_local_index_injective(x2, y2, z2, x as int, 2, z as int);
                    lemma_local_index_injective(x2, y2, z2, x as int, 3, z as int);
                    lemma_local_index_injective(x2, y2, z2, x as int, 4, z as int);
                    assert(before.block_at(x2, y2, z2) == (if z2 < z || (z2 == z && x2 < x) {
                        flat_layer(y2)
                    } else {
                        BlockId::air()
                    }));
                }
                x = x + 1;
            }
            z = z + 1;
        }
        let ghost filled = chunk;
        chunk.dirty = false;
        assert forall|x: int, y: int, z: int| in_chunk(x, y, z) implies #[trigger] chunk.block_at(
            x,
            y,
            z,
        ) == flat_layer(y) by {
            assert(filled.block_at(x, y, z) == flat_layer(y));
        }
        chunk
    }
}


/// Reading back a written block: after a write at `(x, y, z)`, that coordinate holds the
/// written block and every other in-chunk coordinate holds what it held before.
pub proof fn lemma_read_after_write(
    before: ChunkData,
    after: ChunkData,
    x: int,
    y: int,
    z: int,
    b: BlockId,
    x2: int,
    y2: int,
    z2: int,
)
    requires
        before.blocks().len() == CHUNK_VOLUME,
        in_chunk(x, y, z),
        in_chunk(x2, y2, z2),
        after.blocks() == before.blocks().update(local_index(x, y, z), b),
    ensures
        after.block_at(x2, y2, z2) == (if x2 == x && y2 == y && z2 == z {
            b
        } else {
            before.block_at(x2, y2, z2)
        }),
{
    lemma_local_index_injective(x, y, z, x2, y2, z2);
    lemma_local_index_injective(x2, y2, z2, x, y, z);
}

} // verus!
