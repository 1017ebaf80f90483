use vstd::prelude::*;

verus! {

/// Identifier of a block type; `0` is air.
#[derive(Debug, Clone, Copy, PartialEq, Eq, Hash, Structural)]
pub struct BlockId(pub u16);

impl BlockId {
    #[verifier::allow_in_spec]
    pub fn air() -> BlockId
        returns
            BlockId(0),
    {
        BlockId(0)
    }

    #[verifier::allow_in_spec]
    pub fn stone() -> BlockId
        returns
            BlockId(1),
    {
        BlockId(1)
    }

    #[verifier::allow_in_spec]
    pub fn dirt() -> BlockId
        returns
            BlockId(2),
    {
        BlockId(2)
    }

    #[verifier::allow_in_spec]
    pub fn grass() -> BlockId
        returns
            BlockId(3),
    {
        BlockId(3)
    }

    #[verifier::allow_in_spec]
    pub fn water() -> BlockId
        returns
            BlockId(4),
    {
        BlockId(4)
    }

    #[verifier::allow_in_spec]
    pub fn bedrock() -> BlockId
        returns
            BlockId(5),
    {
        BlockId(5)
    }

    pub open spec fn spec_is_air(self) -> bool {
        self.0 == 0
    }

    /// True exactly for the air block (id 0).
    pub fn is_air(self) -> (r: bool)
        ensures
            r == self.spec_is_air(),
            r <==> self == BlockId::air(),
    {
        self == BlockId::air()
    }
}


/// RGB colour of a block, each channel in hundredths of full intensity (`0..=100`).
#[derive(Debug, Clone, Copy, PartialEq, Eq, Structural)]
pub struct BlockColor {
    pub r: u8,
    pub g: u8,
    pub b: u8,
}

/// The interface a block type exposes.
pub trait Block {
    fn id(&self) -> BlockId;

    fn is_solid(&self) -> bool;

    fn color(&self) -> BlockColor;
}

/// A concrete block type.
#[derive(Debug, Clone, Copy)]
pub struct BlockType {
    pub id: BlockId,
    pub name: &'static str,
    pub color: BlockColor,
    pub solid: bool,
}

impl Block for BlockType {
    fn id(&self) -> (r: BlockId)
        ensures
            r == self.id,
    {
        self.id
    }

    fn is_solid(&self) -> (r: bool)
        ensures
            r == self.solid,
    {
        self.solid
    }

    fn color(&self) -> (r: BlockColor)
        ensures
            r == self.color,
    {
        self.color
    }
}

/// A flat registry of block types; a well-built registry holds the block with id `i` at index `i`.
pub struct BlockRegistry {
    blocks: Vec<BlockType>,
}

impl View for BlockRegistry {
    type V = Seq<BlockType>;

    closed spec fn view(&self) -> Seq<BlockType> {
        self.blocks@
    }
}

/// Every block sits at the index equal to its id.
pub open spec fn indexed_by_id(blocks: Seq<BlockType>) -> bool {
    forall|i: int| 0 <= i < blocks.len() ==> (#[trigger] blocks[i]).id.0 == i
}

/// The default block types, in registration order: air, stone, dirt, grass, water, bedrock.
pub open spec fn default_block(i: int) -> (BlockId, BlockColor, bool) {
    if i == 0 {
        (BlockId(0), BlockColor { r: 0, g: 0, b: 0 }, false)
    } else if i == 1 {
        (BlockId(1), BlockColor { r: 50, g: 50, b: 50 }, true)
    } else if i == 2 {
        (BlockId(2), BlockColor { r: 60, g: 40, b: 20 }, true)
    } else if i == 3 {
        (BlockId(3), BlockColor { r: 20, g: 70, b: 20 }, true)
    } else if i == 4 {
        (BlockId(4), BlockColor { r: 20, g: 40, b: 80 }, true)
    } else {
        (BlockId(5), BlockColor { r: 15, g: 15, b: 15 }, true)
    }
}

/// Number of default block types.
pub const DEFAULT_BLOCK_COUNT: usize = 6;

/// `blocks` holds, from index `start` on, exactly the default block types.
pub open spec fn holds_defaults_from(blocks: Seq<BlockType>, start: int) -> bool {
    &&& blocks.len() == start + 6
    &&& forall|k: int|
        0 <= k < 6 ==> {
            let b = #[trigger] blocks[start + k];
            (b.id, b.color, b.solid) == default_block(k)
        }
}

/// Registers the default block types in order; air comes first.
pub fn register_defaults(r: &mut BlockRegistry)
    ensures
        final(r)@.subrange(0, old(r)@.len() as int) == old(r)@,
        holds_defaults_from(final(r)@, old(r)@.len() as int),
        final(r)@[old(r)@.len() + 0int].name@ == "Air"@,
        final(r)@[old(r)@.len() + 1int].name@ == "Stone"@,
        final(r)@[old(r)@.len() + 2int].name@ == "Dirt"@,
        final(r)@[old(r)@.len() + 3int].name@ == "Grass"@,
        final(r)@[old(r)@.len() + 4int].name@ == "Water"@,
        final(r)@[old(r)@.len() + 5int].name@ == "Bedrock"@,
{
    r.register(
        BlockType {
            id: BlockId::air(),
            name: "Air",
            color: BlockColor { r: 0, g: 0, b: 0 },
            solid: false,
        },
    );
    r.register(
        BlockType {
            id: BlockId::stone(),
            name: "Stone",
            color: BlockColor { r: 50, g: 50, b: 50 },
            solid: true,
        },
    );
    r.register(
        BlockType {
            id: BlockId::dirt(),
            name: "Dirt",
            color: BlockColor { r: 60, g: 40, b: 20 },
            solid: true,
        },
    );
    r.register(
        BlockType {
            id: BlockId::grass(),
            name: "Grass",
            color: BlockColor { r: 20, g: 70, b: 20 },
            solid: true,
        },
    );
    r.register(
        BlockType {
            id: BlockId::water(),
            name: "Water",
            color: BlockColor { r: 20, g: 40, b: 80 },
            solid: true,
        },
    );
    r.register(
        BlockType {
            id: BlockId::bedrock(),
            name: "Bedrock",
            color: BlockColor { r: 15, g: 15, b: 15 },
            solid: true,
        },
    );
}

impl BlockRegistry {
    /// A registry holding the default block types, air at index 0.
    pub fn new() -> (r: Self)
        ensures
            holds_defaults_from(r@, 0),
            indexed_by_id(r@),
            r@[0].name@ == "Air"@,
            r@[1].name@ == "Stone"@,
            r@[2].name@ == "Dirt"@,
            r@[3].name@ == "Grass"@,
            r@[4].name@ == "Water"@,
            r@[5].name@ == "Bedrock"@,
    {
        let mut r = Self { blocks: Vec::new() };
        register_defaults(&mut r);
        r
    }

    /// Appends a block type and returns its id.
    pub fn register(&mut self, block: BlockType) -> (id: BlockId)
        ensures
            final(self)@ == old(self)@.push(block),
            id == block.id,
    {
        let id = block.id;
        self.blocks.push(block);
        id
    }

    /// The block type stored at index `id.0`, if any.
    pub fn get(&self, id: BlockId) -> (r: Option<&BlockType>)
        ensures
            r is Some <==> (id.0 as int) < self@.len(),
            r matches Some(b) ==> *b == self@[id.0 as int],
    {
        let i = id.0 as usize;
        if i < self.blocks.len() {
            Some(&self.blocks[i])
        } else {
            None
        }
    }
}

/// In a registry whose blocks sit at their ids, looking up a registered id finds that very block.
pub proof fn lemma_lookup_finds_id(blocks: Seq<BlockType>, id: BlockId)
    requires
        indexed_by_id(blocks),
        (id.0 as int) < blocks.len(),
    ensures
        blocks[id.0 as int].id == id,
{
}

/// Registering a block whose id is the registry's length keeps blocks at their ids.
pub proof fn lemma_register_keeps_indexing(blocks: Seq<BlockType>, block: BlockType)
    requires
        indexed_by_id(blocks),
        block.id.0 == blocks.len(),
    ensures
        indexed_by_id(blocks.push(block)),
{
    assert forall|i: int| 0 <= i < blocks.push(block).len() implies (#[trigger] blocks.push(
        block,
    )[i]).id.0 == i by {
        if i < blocks.len() {
            assert(blocks.push(block)[i] == blocks[i]);
        }
    }
}

} // verus!
