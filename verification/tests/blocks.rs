use rustaria::block::{register_defaults, Block, BlockColor, BlockId, BlockRegistry, BlockType};

#[test]
fn air_is_only_id_zero() {
    assert!(BlockId(0).is_air());
    assert!(BlockId::air().is_air());
    assert!(!BlockId::stone().is_air());
    assert!(!BlockId(7).is_air());
}

#[test]
fn block_id_constants() {
    assert_eq!(BlockId::air(), BlockId(0));
    assert_eq!(BlockId::stone(), BlockId(1));
    assert_eq!(BlockId::dirt(), BlockId(2));
    assert_eq!(BlockId::grass(), BlockId(3));
    assert_eq!(BlockId::water(), BlockId(4));
    assert_eq!(BlockId::bedrock(), BlockId(5));
}

#[test]
fn default_registry_holds_six_blocks_at_their_ids() {
    let r = BlockRegistry::new();
    let expected = [
        (0u16, "Air", (0u8, 0u8, 0u8), false),
        (1, "Stone", (50, 50, 50), true),
        (2, "Dirt", (60, 40, 20), true),
        (3, "Grass", (20, 70, 20), true),
        (4, "Water", (20, 40, 80), true),
        (5, "Bedrock", (15, 15, 15), true),
    ];
    for (id, name, (cr, cg, cb), solid) in expected {
        let b = r.get(BlockId(id)).expect("default block registered");
        assert_eq!(b.id, BlockId(id));
        assert_eq!(b.name, name);
        assert_eq!(b.color, BlockColor { r: cr, g: cg, b: cb });
        assert_eq!(b.solid, solid);
    }
    assert!(r.get(BlockId(6)).is_none());
}

#[test]
fn register_appends_and_returns_id() {
    let mut r = BlockRegistry::new();
    let id = r.register(BlockType { id: BlockId(6), name: "Sand", color: BlockColor { r: 90, g: 85, b: 50 }, solid: true });
    assert_eq!(id, BlockId(6));
    let b = r.get(BlockId(6)).unwrap();
    assert_eq!(b.name, "Sand");
}

#[test]
fn register_returns_the_block_id_not_the_index() {
    let mut r = BlockRegistry::new();
    let id = r.register(BlockType { id: BlockId(42), name: "Odd", color: BlockColor { r: 1, g: 2, b: 3 }, solid: false });
    assert_eq!(id, BlockId(42));
    // the block sits at index 6, so looking up 6 finds it and 42 finds nothing
    assert_eq!(r.get(BlockId(6)).unwrap().id, BlockId(42));
    assert!(r.get(BlockId(42)).is_none());
}

#[test]
fn register_defaults_appends_after_existing_blocks() {
    let mut r = BlockRegistry::new();
    register_defaults(&mut r);
    assert_eq!(r.get(BlockId(6)).unwrap().name, "Air");
    assert_eq!(r.get(BlockId(11)).unwrap().name, "Bedrock");
    assert!(r.get(BlockId(12)).is_none());
}

#[test]
fn block_trait_reads_fields() {
    let b = BlockType { id: BlockId(3), name: "Grass", color: BlockColor { r: 20, g: 70, b: 20 }, solid: true };
    assert_eq!(b.id(), BlockId(3));
    assert!(b.is_solid());
    assert_eq!(b.color(), BlockColor { r: 20, g: 70, b: 20 });
}
