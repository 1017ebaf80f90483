use rustaria::block::{BlockColor, BlockId, BlockRegistry};
use rustaria::chunk::ChunkData;
use rustaria::mesh::{mesh_chunk, ChunkNeighbors};

#[test]
fn air_chunk_has_empty_mesh() {
    let c = ChunkData::new((0, 0, 0));
    let r = BlockRegistry::new();
    let (v, i) = mesh_chunk(&c, &r, &ChunkNeighbors::empty());
    assert!(v.is_empty());
    assert!(i.is_empty());
}

#[test]
fn single_block_has_six_faces() {
    let c = ChunkData::generate_single_block_test();
    let r = BlockRegistry::new();
    let (v, i) = mesh_chunk(&c, &r, &ChunkNeighbors::empty());
    assert_eq!(v.len(), 24);
    assert_eq!(i.len(), 36);
    // first face is +X: corners (1,0,0) (1,1,0) (1,1,1) (1,0,1)
    assert_eq!(v[0].position, (1, 0, 0));
    assert_eq!(v[1].position, (1, 1, 0));
    assert_eq!(v[2].position, (1, 1, 1));
    assert_eq!(v[3].position, (1, 0, 1));
    assert_eq!(v[0].normal, (1, 0, 0));
    assert_eq!(v[0].color, BlockColor { r: 50, g: 50, b: 50 });
    // last face is -Z
    assert_eq!(v[20].normal, (0, 0, -1));
    assert_eq!(v[21].position, (0, 0, 0));
    assert_eq!(&i[0..6], &[0, 1, 2, 0, 2, 3]);
    assert_eq!(&i[30..36], &[20, 21, 22, 20, 22, 23]);
    for idx in &i {
        assert!((*idx as usize) < v.len());
    }
}

#[test]
fn positions_are_in_world_space() {
    let mut c = ChunkData::new((2, -1, 3));
    c.set(5, 6, 7, BlockId::stone());
    let r = BlockRegistry::new();
    let (v, _) = mesh_chunk(&c, &r, &ChunkNeighbors::empty());
    assert_eq!(v[0].position, (2 * 16 + 5 + 1, -16 + 6, 3 * 16 + 7));
}

#[test]
fn hidden_faces_inside_chunk_are_culled() {
    let mut c = ChunkData::new((0, 0, 0));
    c.set(4, 4, 4, BlockId::stone());
    c.set(5, 4, 4, BlockId::stone());
    let r = BlockRegistry::new();
    let (v, i) = mesh_chunk(&c, &r, &ChunkNeighbors::empty());
    // two touching cubes: 12 faces minus the 2 shared ones
    assert_eq!(v.len(), 10 * 4);
    assert_eq!(i.len(), 10 * 6);
}

#[test]
fn flat_chunk_without_neighbours() {
    let c = ChunkData::generate_flat_test();
    let r = BlockRegistry::new();
    let (v, i) = mesh_chunk(&c, &r, &ChunkNeighbors::empty());
    // top 256 + bottom 256 + four sides of 16 columns x 5 layers
    assert_eq!(v.len(), (256 + 256 + 4 * 16 * 5) * 4);
    assert_eq!(i.len(), (256 + 256 + 4 * 16 * 5) * 6);
}

#[test]
fn loaded_neighbour_culls_border_faces() {
    let c = ChunkData::generate_flat_test();
    let mut east = ChunkData::generate_flat_test();
    east.position = (1, 0, 0);
    let r = BlockRegistry::new();
    let mut n = ChunkNeighbors::empty();
    n.pos_x = Some(&east);
    let (v, _) = mesh_chunk(&c, &r, &n);
    assert_eq!(v.len(), (256 + 256 + 3 * 16 * 5) * 4);
    // an air neighbour does not cull
    let air = ChunkData::new((1, 0, 0));
    n.pos_x = Some(&air);
    let (v2, _) = mesh_chunk(&c, &r, &n);
    assert_eq!(v2.len(), (256 + 256 + 4 * 16 * 5) * 4);
}

#[test]
fn unknown_block_is_magenta() {
    let mut c = ChunkData::new((0, 0, 0));
    c.set(0, 0, 0, BlockId(99));
    let r = BlockRegistry::new();
    let (v, _) = mesh_chunk(&c, &r, &ChunkNeighbors::empty());
    assert_eq!(v.len(), 24);
    assert_eq!(v[0].color, BlockColor { r: 100, g: 0, b: 100 });
}
