use vstd::prelude::*;

use crate::block::{indexed_by_id, BlockColor, BlockId, BlockRegistry, BlockType};
use crate::chunk::{in_chunk, local_index, lemma_local_index_injective, ChunkData, CHUNK_SIZE};

verus! {

broadcast use vstd::array::group_array_axioms;

/// A mesh vertex in world space: integer corner position, block colour and face normal.
/// The GPU vertex format adds an ambient-occlusion factor of 1.
#[derive(Debug, Clone, Copy)]
pub struct MeshVertex {
    pub position: (i64, i64, i64),
    pub color: BlockColor,
    pub normal: (i8, i8, i8),
}

/// Colour given to blocks that the registry does not know (magenta).
pub open spec fn unknown_block_color() -> BlockColor {
    BlockColor { r: 100, g: 0, b: 100 }
}

/// The six loaded neighbours of a chunk; `None` where the neighbour is not loaded.
pub struct ChunkNeighbors<'a> {
    pub pos_x: Option<&'a ChunkData>,
    pub neg_x: Option<&'a ChunkData>,
    pub pos_y: Option<&'a ChunkData>,
    pub neg_y: Option<&'a ChunkData>,
    pub pos_z: Option<&'a ChunkData>,
    pub neg_z: Option<&'a ChunkData>,
}

/// Face directions, in meshing order: +X, -X, +Y, -Y, +Z, -Z.
pub open spec fn face_offset(d: int) -> (int, int, int) {
    if d == 0 {
        (1, 0, 0)
    } else if d == 1 {
        (-1, 0, 0)
    } else if d == 2 {
        (0, 1, 0)
    } else if d == 3 {
        (0, -1, 0)
    } else if d == 4 {
        (0, 0, 1)
    } else {
        (0, 0, -1)
    }
}

/// Corner `c` (0..4) of the unit-cube face in direction `d`, in quad order.
pub open spec fn face_corner(d: int, c: int) -> (int, int, int) {
    if d == 0 {
        if c == 0 { (1, 0, 0) } else if c == 1 { (1, 1, 0) } else if c == 2 { (1, 1, 1) } else { (1, 0, 1) }
    } else if d == 1 {
        if c == 0 { (0, 0, 1) } else if c == 1 { (0, 1, 1) } else if c == 2 { (0, 1, 0) } else { (0, 0, 0) }
    } else if d == 2 {
        if c == 0 { (0, 1, 0) } else if c == 1 { (0, 1, 1) } else if c == 2 { (1, 1, 1) } else { (1, 1, 0) }
    } else if d == 3 {
        if c == 0 { (0, 0, 1) } else if c == 1 { (0, 0, 0) } else if c == 2 { (1, 0, 0) } else { (1, 0, 1) }
    } else if d == 4 {
        if c == 0 { (0, 0, 1) } else if c == 1 { (1, 0, 1) } else if c == 2 { (1, 1, 1) } else { (0, 1, 1) }
    } else {
        if c == 0 { (1, 0, 0) } else if c == 1 { (0, 0, 0) } else if c == 2 { (0, 1, 0) } else { (1, 1, 0) }
    }
}

/// Vertex offsets, within a face's quad, of its two counter-clockwise triangles.
pub open spec fn quad_index(j: int) -> int {
    if j == 0 {
        0
    } else if j == 1 {
        1
    } else if j == 2 {
        2
    } else if j == 3 {
        0
    } else if j == 4 {
        2
    } else {
        3
    }
}

/// Local coordinates of linear index `i` (the inverse of `local_index`).
pub open spec fn coords_of(i: int) -> (int, int, int) {
    (i % 16, (i / 16) % 16, i / 256)
}

impl<'a> ChunkNeighbors<'a> {
    /// No neighbour loaded.
    pub fn empty() -> (n: Self)
        ensures
            forall|d: int| 0 <= d < 6 ==> n.side(d) is None,
    {
        ChunkNeighbors { pos_x: None, neg_x: None, pos_y: None, neg_y: None, pos_z: None, neg_z: None }
    }

    /// The neighbour across face direction `d`.
    pub open spec fn side(&self, d: int) -> Option<&'a ChunkData> {
        if d == 0 {
            self.pos_x
        } else if d == 1 {
            self.neg_x
        } else if d == 2 {
            self.pos_y
        } else if d == 3 {
            self.neg_y
        } else if d == 4 {
            self.pos_z
        } else {
            self.neg_z
        }
    }

    /// Every loaded neighbour has dense storage.
    pub open spec fn wf(&self) -> bool {
        forall|d: int| 0 <= d < 6 ==> (#[trigger] self.side(d) matches Some(c) ==> c.wf())
    }

    fn side_of(&self, d: usize) -> (r: Option<&'a ChunkData>)
        requires
            d < 6,
        ensures
            r == self.side(d as int),
    {
        if d == 0 {
            self.pos_x
        } else if d == 1 {
            self.neg_x
        } else if d == 2 {
            self.pos_y
        } else if d == 3 {
            self.neg_y
        } else if d == 4 {
            self.pos_z
        } else {
            self.neg_z
        }
    }
}

/// Whether the block next to `(x, y, z)` across face `d` counts as air: inside the chunk it
/// is looked up there; across the border it is looked up in the loaded neighbour at the
/// wrapped coordinate; an unloaded neighbour counts as air.
pub open spec fn neighbor_is_air(
    chunk: &ChunkData,
    neighbors: &ChunkNeighbors,
    x: int,
    y: int,
    z: int,
    d: int,
) -> bool {
    let o = face_offset(d);
    let (nx, ny, nz) = (x + o.0, y + o.1, z + o.2);
    if in_chunk(nx, ny, nz) {
        chunk.block_at(nx, ny, nz).spec_is_air()
    } else {
        match neighbors.side(d) {
            Some(c) => c.block_at(nx % 16, ny % 16, nz % 16).spec_is_air(),
            None => true,
        }
    }
}

/// A face is emitted when its block is not air and the block across it counts as air.
pub open spec fn face_visible(
    chunk: &ChunkData,
    neighbors: &ChunkNeighbors,
    x: int,
    y: int,
    z: int,
    d: int,
) -> bool {
    !chunk.block_at(x, y, z).spec_is_air() && neighbor_is_air(chunk, neighbors, x, y, z, d)
}

/// The visible faces `(x, y, z, d)` of one block among directions `0..nd`, in direction order.
pub open spec fn block_faces(
    chunk: &ChunkData,
    neighbors: &ChunkNeighbors,
    x: int,
    y: int,
    z: int,
    nd: int,
) -> Seq<(int, int, int, int)>
    decreases nd,
{
    if nd <= 0 {
        Seq::empty()
    } else {
        let prev = block_faces(chunk, neighbors, x, y, z, nd - 1);
        if face_visible(chunk, neighbors, x, y, z, nd - 1) {
            prev.push((x, y, z, nd - 1))
        } else {
            prev
        }
    }
}

/// The visible faces of the first `n` blocks in linear-index order (x fastest, then y, then z).
pub open spec fn faces_upto(chunk: &ChunkData, neighbors: &ChunkNeighbors, n: int) -> Seq<
    (int, int, int, int),
>
    decreases n,
{
    if n <= 0 {
        Seq::empty()
    } else {
        let c = coords_of(n - 1);
        faces_upto(chunk, neighbors, n - 1) + block_faces(chunk, neighbors, c.0, c.1, c.2, 6)
    }
}

/// All visible faces of the chunk, in meshing order.
pub open spec fn chunk_faces(chunk: &ChunkData, neighbors: &ChunkNeighbors) -> Seq<
    (int, int, int, int),
> {
    faces_upto(chunk, neighbors, 4096)
}

/// Colour of a block as the registry gives it, magenta when unknown.
pub open spec fn block_color(registry: Seq<BlockType>, id: BlockId) -> BlockColor {
    if (id.0 as int) < registry.len() {
        registry[id.0 as int].color
    } else {
        unknown_block_color()
    }
}

/// Corner `c` of face `f` as a world-space vertex.
pub open spec fn face_vertex(
    chunk: &ChunkData,
    registry: Seq<BlockType>,
    f: (int, int, int, int),
    c: int,
) -> MeshVertex {
    let k = face_corner(f.3, c);
    let n = face_offset(f.3);
    MeshVertex {
        position: (
            (chunk.position.0 * 16 + f.0 + k.0) as i64,
            (chunk.position.1 * 16 + f.1 + k.1) as i64,
            (chunk.position.2 * 16 + f.2 + k.2) as i64,
        ),
        color: block_color(registry, chunk.block_at(f.0, f.1, f.2)),
        normal: (n.0 as i8, n.1 as i8, n.2 as i8),
    }
}

/// `vertices` holds four corners per face and `indices` two triangles per face, face by face.
pub open spec fn mesh_of_faces(
    chunk: &ChunkData,
    registry: Seq<BlockType>,
    faces: Seq<(int, int, int, int)>,
    vertices: Seq<MeshVertex>,
    indices: Seq<u32>,
) -> bool {
    &&& vertices.len() == 4 * faces.len()
    &&& indices.len() == 6 * faces.len()
    &&& forall|v: int|
        0 <= v < vertices.len() ==> #[trigger] vertices[v] == face_vertex(
            chunk,
            registry,
            faces[v / 4],
            v % 4,
        )
    &&& forall|t: int|
        0 <= t < indices.len() ==> #[trigger] indices[t] == 4 * (t / 6) + quad_index(t % 6)
}


/// The four vertices of face `f`.
pub open spec fn face_vertices(chunk: &ChunkData, registry: Seq<BlockType>, f: (int, int, int, int)) -> Seq<MeshVertex> {
    Seq::new(4, |c: int| face_vertex(chunk, registry, f, c))
}

/// The six indices of the two triangles of the quad whose first vertex is `base`.
pub open spec fn quad_indices(base: int) -> Seq<u32> {
    Seq::new(6, |j: int| (base + quad_index(j)) as u32)
}

proof fn lemma_coords(x: int, y: int, z: int)
    requires
        in_chunk(x, y, z),
    ensures
        coords_of(local_index(x, y, z)) == (x, y, z),
{
    let i = local_index(x, y, z);
    assert(i % 16 == x && (i / 16) % 16 == y && i / 256 == z) by (nonlinear_arith)
        requires
            i == x + y * 16 + z * 256,
            0 <= x < 16,
            0 <= y < 16,
            0 <= z < 16,
    ;
}

proof fn lemma_block_faces_len(chunk: &ChunkData, neighbors: &ChunkNeighbors, x: int, y: int, z: int, nd: int)
    requires
        0 <= nd,
    ensures
        block_faces(chunk, neighbors, x, y, z, nd).len() <= nd,
    decreases nd,
{
    if nd > 0 {
        lemma_block_faces_len(chunk, neighbors, x, y, z, nd - 1);
    }
}

proof fn lemma_air_block_faces(chunk: &ChunkData, neighbors: &ChunkNeighbors, x: int, y: int, z: int, nd: int)
    requires
        chunk.block_at(x, y, z).spec_is_air(),
    ensures
        block_faces(chunk, neighbors, x, y, z, nd) == Seq::<(int, int, int, int)>::empty(),
    decreases nd,
{
    if nd > 0 {
        lemma_air_block_faces(chunk, neighbors, x, y, z, nd - 1);
    }
}

proof fn lemma_faces_upto_len(chunk: &ChunkData, neighbors: &ChunkNeighbors, n: int)
    requires
        0 <= n,
    ensures
        faces_upto(chunk, neighbors, n).len() <= 6 * n,
    decreases n,
{
    if n > 0 {
        let c = coords_of(n - 1);
        lemma_faces_upto_len(chunk, neighbors, n - 1);
        lemma_block_faces_len(chunk, neighbors, c.0, c.1, c.2, 6);
    }
}

proof fn lemma_push_face(
    chunk: &ChunkData,
    registry: Seq<BlockType>,
    faces: Seq<(int, int, int, int)>,
    vertices: Seq<MeshVertex>,
    indices: Seq<u32>,
    f: (int, int, int, int),
)
    requires
        mesh_of_faces(chunk, registry, faces, vertices, indices),
        4 * faces.len() + 4 <= u32::MAX,
    ensures
        mesh_of_faces(
            chunk,
            registry,
            faces.push(f),
            vertices + face_vertices(chunk, registry, f),
            indices + quad_indices(4 * faces.len() as int),
        ),
{
    let nf = faces.push(f);
    let nv = vertices + face_vertices(chunk, registry, f);
    let ni = indices + quad_indices(4 * faces.len() as int);
    let k = faces.len() as int;
    assert forall|v: int| 0 <= v < nv.len() implies #[trigger] nv[v] == face_vertex(
        chunk,
        registry,
        nf[v / 4],
        v % 4,
    ) by {
        if v < vertices.len() {
            assert(v / 4 < k) by (nonlinear_arith)
                requires
                    0 <= v < 4 * k,
            ;
            assert(nf[v / 4] == faces[v / 4]);
        } else {
            assert(v / 4 == k && v % 4 == v - 4 * k) by (nonlinear_arith)
                requires
                    4 * k <= v < 4 * k + 4,
            ;
        }
    }
    assert forall|t: int| 0 <= t < ni.len() implies #[trigger] ni[t] == 4 * (t / 6) + quad_index(
        t % 6,
    ) by {
        if t >= indices.len() {
            assert(t / 6 == k && t % 6 == t - 6 * k) by (nonlinear_arith)
                requires
                    6 * k <= t < 6 * k + 6,
            ;
        }
    }
}

pub(crate) fn face_offset_of(d: usize) -> (o: (i32, i32, i32))
    requires
        d < 6,
    ensures
        o.0 == face_offset(d as int).0,
        o.1 == face_offset(d as int).1,
        o.2 == face_offset(d as int).2,
{
    if d == 0 {
        (1, 0, 0)
    } else if d == 1 {
        (-1, 0, 0)
    } else if d == 2 {
        (0, 1, 0)
    } else if d == 3 {
        (0, -1, 0)
    } else if d == 4 {
        (0, 0, 1)
    } else {
        (0, 0, -1)
    }
}

fn face_corner_of(d: usize, c: usize) -> (k: (i64, i64, i64))
    requires
        d < 6,
        c < 4,
    ensures
        k.0 == face_corner(d as int, c as int).0,
        k.1 == face_corner(d as int, c as int).1,
        k.2 == face_corner(d as int, c as int).2,
{
    if d == 0 {
        if c == 0 { (1, 0, 0) } else if c == 1 { (1, 1, 0) } else if c == 2 { (1, 1, 1) } else { (1, 0, 1) }
    } else if d == 1 {
        if c == 0 { (0, 0, 1) } else if c == 1 { (0, 1, 1) } else if c == 2 { (0, 1, 0) } else { (0, 0, 0) }
    } else if d == 2 {
        if c == 0 { (0, 1, 0) } else if c == 1 { (0, 1, 1) } else if c == 2 { (1, 1, 1) } else { (1, 1, 0) }
    } else if d == 3 {
        if c == 0 { (0, 0, 1) } else if c == 1 { (0, 0, 0) } else if c == 2 { (1, 0, 0) } else { (1, 0, 1) }
    } else if d == 4 {
        if c == 0 { (0, 0, 1) } else if c == 1 { (1, 0, 1) } else if c == 2 { (1, 1, 1) } else { (0, 1, 1) }
    } else {
        if c == 0 { (1, 0, 0) } else if c == 1 { (0, 0, 0) } else if c == 2 { (0, 1, 0) } else { (1, 1, 0) }
    }
}

fn wrap_local(v: i32) -> (r: usize)
    requires
        -1 <= v <= 16,
    ensures
        r as int == v % 16,
        r < 16,
{
    if v < 0 {
        15
    } else if v >= 16 {
        0
    } else {
        v as usize
    }
}

/// Whether the block across face `d` of `(x, y, z)` counts as air.
fn neighbor_air(chunk: &ChunkData, neighbors: &ChunkNeighbors, x: usize, y: usize, z: usize, d: usize) -> (r: bool)
    requires
        chunk.wf(),
        neighbors.wf(),
        in_chunk(x as int, y as int, z as int),
        d < 6,
    ensures
        r == neighbor_is_air(chunk, neighbors, x as int, y as int, z as int, d as int),
{
    let o = face_offset_of(d);
    let nx = x as i32 + o.0;
    let ny = y as i32 + o.1;
    let nz = z as i32 + o.2;
    if nx >= 0 && ny >= 0 && nz >= 0 && nx < 16 && ny < 16 && nz < 16 {
        chunk.get(nx as usize, ny as usize, nz as usize).is_air()
    } else {
        match neighbors.side_of(d) {
            Some(c) => {
                assert(neighbors.side(d as int) matches Some(c) ==> c.wf());
                let (wx, wy, wz) = (wrap_local(nx), wrap_local(ny), wrap_local(nz));
                proof {
                    lemma_local_index_injective(wx as int, wy as int, wz as int, 0, 0, 0);
                }
                c.get(wx, wy, wz).is_air()
            },
            None => true,
        }
    }
}

/// Culled meshing: for every non-air block, in linear-index order, each face whose
/// neighbour counts as air becomes a quad of four vertices and two counter-clockwise
/// triangles; vertex positions are in world space (chunk offset applied).
pub fn mesh_chunk(chunk: &ChunkData, registry: &BlockRegistry, neighbors: &ChunkNeighbors) -> (r: (
    Vec<MeshVertex>,
    Vec<u32>,
))
    requires
        chunk.wf(),
        neighbors.wf(),
    ensures
        mesh_of_faces(chunk, registry@, chunk_faces(chunk, neighbors), r.0@, r.1@),
{
    let mut vertices: Vec<MeshVertex> = Vec::new();
    let mut indices: Vec<u32> = Vec::new();
    let ghost reg = registry@;
    let mut z: usize = 0;
    while z < CHUNK_SIZE
        invariant
            chunk.wf(),
            neighbors.wf(),
            reg == registry@,
            0 <= z <= 16,
            mesh_of_faces(chunk, reg, faces_upto(chunk, neighbors, z * 256), vertices@, indices@),
        decreases 16 - z,
    {
        let mut y: usize = 0;
        while y < CHUNK_SIZE
            invariant
                chunk.wf(),
                neighbors.wf(),
                reg == registry@,
                0 <= z < 16,
                0 <= y <= 16,
                mesh_of_faces(chunk, reg, faces_upto(chunk, neighbors, z * 256 + y * 16), vertices@, indices@),
            decreases 16 - y,
        {
            let mut x: usize = 0;
            while x < CHUNK_SIZE
                invariant
                    chunk.wf(),
                    neighbors.wf(),
                    reg == registry@,
                    0 <= z < 16,
                    0 <= y < 16,
                    0 <= x <= 16,
                    mesh_of_faces(
                        chunk,
                        reg,
                        faces_upto(chunk, neighbors, z * 256 + y * 16 + x),
                        vertices@,
                        indices@,
                    ),
                decreases 16 - x,
            {
                let ghost lin = z * 256 + y * 16 + x;
                proof {
                    lemma_coords(x as int, y as int, z as int);
                    lemma_faces_upto_len(chunk, neighbors, lin);
                    lemma_local_index_injective(x as int, y as int, z as int, 0, 0, 0);
                }
                let ghost before = faces_upto(chunk, neighbors, lin);
                let block_id = chunk.get(x, y, z);
                if block_id.is_air() {
                    proof {
                        lemma_air_block_faces(chunk, neighbors, x as int, y as int, z as int, 6);
                        assert(faces_upto(chunk, neighbors, lin + 1) =~= before);
                    }
                } else {
                    let color = match registry.get(block_id) {
                        Some(bt) => bt.color,
                        None => BlockColor { r: 100, g: 0, b: 100 },
                    };
                    let mut d: usize = 0;
                    while d < 6
                        invariant
                            chunk.wf(),
                            neighbors.wf(),
                            reg == registry@,
                            in_chunk(x as int, y as int, z as int),
                            0 <= d <= 6,
                            lin == z * 256 + y * 16 + x,
                            before == faces_upto(chunk, neighbors, lin),
                            before.len() <= 6 * lin,
                            color == block_color(reg, chunk.block_at(x as int, y as int, z as int)),
                            !chunk.block_at(x as int, y as int, z as int).spec_is_air(),
                            mesh_of_faces(
                                chunk,
                                reg,
                                before + block_faces(chunk, neighbors, x as int, y as int, z as int, d as int),
                                vertices@,
                                indices@,
                            ),
                        decreases 6 - d,
                    {
                        proof {
                            lemma_block_faces_len(chunk, neighbors, x as int, y as int, z as int, d as int);
                        }
                        let ghost cur = before + block_faces(chunk, neighbors, x as int, y as int, z as int, d as int);
                        if neighbor_air(chunk, neighbors, x, y, z, d) {
                            let ghost f = (x as int, y as int, z as int, d as int);
                            let ghost old_v = vertices@;
                            let ghost old_i = indices@;
                            let base = vertices.len() as u32;
                            let n = face_offset_of(d);
                            let normal = (n.0 as i8, n.1 as i8, n.2 as i8);
                            let mut c: usize = 0;
                            while c < 4
                                invariant
                                    0 <= c <= 4,
                                    d < 6,
                                    in_chunk(x as int, y as int, z as int),
                                    old_v.len() == base,
                                    color == block_color(reg, chunk.block_at(x as int, y as int, z as int)),
                                    normal.0 == face_offset(d as int).0,
                                    normal.1 == face_offset(d as int).1,
                                    normal.2 == face_offset(d as int).2,
                                    f == (x as int, y as int, z as int, d as int),
                                    vertices@ == old_v + face_vertices(chunk, reg, f).subrange(0, c as int),
                                decreases 4 - c,
                            {
                                let k = face_corner_of(d, c);
                                let position = (
                                    chunk.position.0 as i64 * 16 + x as i64 + k.0,
                                    chunk.position.1 as i64 * 16 + y as i64 + k.1,
                                    chunk.position.2 as i64 * 16 + z as i64 + k.2,
                                );
                                vertices.push(MeshVertex { position, color, normal });
                                assert(vertices@ =~= old_v + face_vertices(chunk, reg, f).subrange(0, c + 1));
                                c = c + 1;
                            }
                            indices.push(base);
                            indices.push(base + 1);
                            indices.push(base + 2);
                            indices.push(base);
                            indices.push(base + 2);
                            indices.push(base + 3);
                            proof {
                                assert(vertices@ =~= old_v + face_vertices(chunk, reg, f));
                                assert(indices@ =~= old_i + quad_indices(4 * cur.len() as int));
                                lemma_push_face(chunk, reg, cur, old_v, old_i, f);
                                assert(cur.push(f) =~= before + block_faces(chunk, neighbors, x as int, y as int, z as int, d + 1));
                            }
                        } else {
                            assert(cur =~= before + block_faces(chunk, neighbors, x as int, y as int, z as int, d + 1));
                        }
                        d = d + 1;
                    }
                }
                x = x + 1;
            }
            y = y + 1;
        }
        z = z + 1;
    }
    (vertices, indices)
}


proof fn lemma_block_faces_sound(chunk: &ChunkData, neighbors: &ChunkNeighbors, x: int, y: int, z: int, nd: int)
    requires
        0 <= nd <= 6,
    ensures
        forall|k: int|
            0 <= k < block_faces(chunk, neighbors, x, y, z, nd).len() ==> {
                let f = #[trigger] block_faces(chunk, neighbors, x, y, z, nd)[k];
                &&& f.0 == x && f.1 == y && f.2 == z
                &&& 0 <= f.3 < nd
                &&& face_visible(chunk, neighbors, x, y, z, f.3)
            },
    decreases nd,
{
    if nd > 0 {
        lemma_block_faces_sound(chunk, neighbors, x, y, z, nd - 1);
        let prev = block_faces(chunk, neighbors, x, y, z, nd - 1);
        if face_visible(chunk, neighbors, x, y, z, nd - 1) {
            assert forall|k: int| 0 <= k < prev.len() implies #[trigger] prev.push((x, y, z, nd - 1))[k] == prev[k] by {}
        }
    }
}

proof fn lemma_block_faces_complete(chunk: &ChunkData, neighbors: &ChunkNeighbors, x: int, y: int, z: int, nd: int, d: int)
    requires
        0 <= d < nd,
        face_visible(chunk, neighbors, x, y, z, d),
    ensures
        block_faces(chunk, neighbors, x, y, z, nd).contains((x, y, z, d)),
    decreases nd,
{
    let prev = block_faces(chunk, neighbors, x, y, z, nd - 1);
    if d < nd - 1 {
        lemma_block_faces_complete(chunk, neighbors, x, y, z, nd - 1, d);
        let k = choose|k: int| 0 <= k < prev.len() && prev[k] == (x, y, z, d);
        if face_visible(chunk, neighbors, x, y, z, nd - 1) {
            assert(prev.push((x, y, z, nd - 1))[k] == (x, y, z, d));
        }
    } else {
        assert(prev.push((x, y, z, d))[prev.len() as int] == (x, y, z, d));
    }
}

proof fn lemma_faces_upto_sound(chunk: &ChunkData, neighbors: &ChunkNeighbors, n: int)
    requires
        0 <= n <= 4096,
    ensures
        forall|k: int|
            0 <= k < faces_upto(chunk, neighbors, n).len() ==> {
                let f = #[trigger] faces_upto(chunk, neighbors, n)[k];
                &&& in_chunk(f.0, f.1, f.2)
                &&& 0 <= f.3 < 6
                &&& face_visible(chunk, neighbors, f.0, f.1, f.2, f.3)
            },
    decreases n,
{
    if n > 0 {
        let c = coords_of(n - 1);
        lemma_faces_upto_sound(chunk, neighbors, n - 1);
        lemma_block_faces_sound(chunk, neighbors, c.0, c.1, c.2, 6);
        assert(in_chunk(c.0, c.1, c.2)) by (nonlinear_arith)
            requires
                c == coords_of(n - 1),
                0 <= n - 1 < 4096,
        ;
        let prev = faces_upto(chunk, neighbors, n - 1);
        let bf = block_faces(chunk, neighbors, c.0, c.1, c.2, 6);
        assert forall|k: int| 0 <= k < (prev + bf).len() implies {
            let f = #[trigger] (prev + bf)[k];
            &&& in_chunk(f.0, f.1, f.2)
            &&& 0 <= f.3 < 6
            &&& face_visible(chunk, neighbors, f.0, f.1, f.2, f.3)
        } by {
            if k < prev.len() {
                assert((prev + bf)[k] == prev[k]);
            } else {
                assert((prev + bf)[k] == bf[k - prev.len()]);
            }
        }
    }
}

proof fn lemma_faces_upto_complete(chunk: &ChunkData, neighbors: &ChunkNeighbors, n: int, x: int, y: int, z: int, d: int)
    requires
        0 <= n <= 4096,
        in_chunk(x, y, z),
        0 <= d < 6,
        local_index(x, y, z) < n,
        face_visible(chunk, neighbors, x, y, z, d),
    ensures
        faces_upto(chunk, neighbors, n).contains((x, y, z, d)),
    decreases n,
{
    let c = coords_of(n - 1);
    let prev = faces_upto(chunk, neighbors, n - 1);
    let bf = block_faces(chunk, neighbors, c.0, c.1, c.2, 6);
    if local_index(x, y, z) < n - 1 {
        lemma_faces_upto_complete(chunk, neighbors, n - 1, x, y, z, d);
        let k = choose|k: int| 0 <= k < prev.len() && prev[k] == (x, y, z, d);
        assert((prev + bf)[k] == (x, y, z, d));
    } else {
        lemma_coords(x, y, z);
        lemma_block_faces_complete(chunk, neighbors, x, y, z, 6, d);
        let k = choose|k: int| 0 <= k < bf.len() && bf[k] == (x, y, z, d);
        assert((prev + bf)[prev.len() + k] == (x, y, z, d));
    }
}

/// Every emitted face belongs to a non-air block inside the chunk and looks onto a block
/// that counts as air (or onto an unloaded neighbour): hidden faces are culled.
pub proof fn lemma_emitted_faces_are_exposed(chunk: &ChunkData, neighbors: &ChunkNeighbors)
    ensures
        forall|k: int|
            0 <= k < chunk_faces(chunk, neighbors).len() ==> {
                let f = #[trigger] chunk_faces(chunk, neighbors)[k];
                &&& in_chunk(f.0, f.1, f.2)
                &&& 0 <= f.3 < 6
                &&& !chunk.block_at(f.0, f.1, f.2).spec_is_air()
                &&& neighbor_is_air(chunk, neighbors, f.0, f.1, f.2, f.3)
            },
{
    lemma_faces_upto_sound(chunk, neighbors, 4096);
}

/// Every face of a non-air block that looks onto air (or onto an unloaded neighbour) is emitted.
pub proof fn lemma_exposed_faces_are_emitted(
    chunk: &ChunkData,
    neighbors: &ChunkNeighbors,
    x: int,
    y: int,
    z: int,
    d: int,
)
    requires
        in_chunk(x, y, z),
        0 <= d < 6,
        !chunk.block_at(x, y, z).spec_is_air(),
        neighbor_is_air(chunk, neighbors, x, y, z, d),
    ensures
        chunk_faces(chunk, neighbors).contains((x, y, z, d)),
{
    lemma_local_index_injective(x, y, z, 0, 0, 0);
    lemma_faces_upto_complete(chunk, neighbors, 4096, x, y, z, d);
}

/// A chunk made only of air produces no faces.
pub proof fn lemma_air_chunk_has_no_faces(chunk: &ChunkData, neighbors: &ChunkNeighbors)
    requires
        forall|x: int, y: int, z: int| in_chunk(x, y, z) ==> (#[trigger] chunk.block_at(x, y, z)).spec_is_air(),
    ensures
        chunk_faces(chunk, neighbors).len() == 0,
{
    lemma_emitted_faces_are_exposed(chunk, neighbors);
    if chunk_faces(chunk, neighbors).len() > 0 {
        let f = chunk_faces(chunk, neighbors)[0];
        assert(chunk.block_at(f.0, f.1, f.2).spec_is_air());
    }
}

/// Every index of a mesh addresses one of its vertices, and each triangle stays within
/// the quad of its own face.
pub proof fn lemma_mesh_indices_in_range(
    chunk: &ChunkData,
    registry: Seq<BlockType>,
    faces: Seq<(int, int, int, int)>,
    vertices: Seq<MeshVertex>,
    indices: Seq<u32>,
)
    requires
        mesh_of_faces(chunk, registry, faces, vertices, indices),
    ensures
        forall|t: int|
            0 <= t < indices.len() ==> 4 * (t / 6) <= #[trigger] indices[t] < 4 * (t / 6) + 4
                && indices[t] < vertices.len(),
{
    assert forall|t: int| 0 <= t < indices.len() implies 4 * (t / 6) <= #[trigger] indices[t] < 4
        * (t / 6) + 4 && indices[t] < vertices.len() by {
        assert(t / 6 < faces.len()) by (nonlinear_arith)
            requires
                0 <= t < 6 * faces.len(),
        ;
        assert(0 <= t % 6 < 6);
    }
}


/// At a chunk border facing a neighbour that is not loaded, every face of a non-air block
/// is emitted (the safe default).
pub proof fn lemma_unloaded_neighbor_shows_border(
    chunk: &ChunkData,
    neighbors: &ChunkNeighbors,
    x: int,
    y: int,
    z: int,
    d: int,
)
    requires
        in_chunk(x, y, z),
        0 <= d < 6,
        !chunk.block_at(x, y, z).spec_is_air(),
        !in_chunk(x + face_offset(d).0, y + face_offset(d).1, z + face_offset(d).2),
        neighbors.side(d) is None,
    ensures
        chunk_faces(chunk, neighbors).contains((x, y, z, d)),
{
    lemma_exposed_faces_are_emitted(chunk, neighbors, x, y, z, d);
}


/// The face of block `(x, y, z)` in direction `d` is emitted exactly when the block is not
/// air and the block on the other side of that face is air. Inside the chunk the other side
/// is the adjacent block; at the border it is the facing block of the loaded neighbour chunk
/// (local coordinate 0 on the low side of a +X/+Y/+Z neighbour, 15 on the high side of a
/// -X/-Y/-Z one); a neighbour that is not loaded counts as air.
pub proof fn lemma_face_emission_rule(chunk: &ChunkData, neighbors: &ChunkNeighbors, x: int, y: int, z: int)
    requires
        in_chunk(x, y, z),
    ensures
        chunk_faces(chunk, neighbors).contains((x, y, z, 0)) <==> !chunk.block_at(x, y, z).spec_is_air() && (
        if x < 15 {
            chunk.block_at(x + 1, y, z).spec_is_air()
        } else {
            match neighbors.pos_x {
                Some(c) => c.block_at(0, y, z).spec_is_air(),
                None => true,
            }
        }),
        chunk_faces(chunk, neighbors).contains((x, y, z, 1)) <==> !chunk.block_at(x, y, z).spec_is_air() && (
        if x > 0 {
            chunk.block_at(x - 1, y, z).spec_is_air()
        } else {
            match neighbors.neg_x {
                Some(c) => c.block_at(15, y, z).spec_is_air(),
                None => true,
            }
        }),
        chunk_faces(chunk, neighbors).contains((x, y, z, 2)) <==> !chunk.block_at(x, y, z).spec_is_air() && (
        if y < 15 {
            chunk.block_at(x, y + 1, z).spec_is_air()
        } else {
            match neighbors.pos_y {
                Some(c) => c.block_at(x, 0, z).spec_is_air(),
                None => true,
            }
        }),
        chunk_faces(chunk, neighbors).contains((x, y, z, 3)) <==> !chunk.block_at(x, y, z).spec_is_air() && (
        if y > 0 {
            chunk.block_at(x, y - 1, z).spec_is_air()
        } else {
            match neighbors.neg_y {
                Some(c) => c.block_at(x, 15, z).spec_is_air(),
                None => true,
            }
        }),
        chunk_faces(chunk, neighbors).contains((x, y, z, 4)) <==> !chunk.block_at(x, y, z).spec_is_air() && (
        if z < 15 {
            chunk.block_at(x, y, z + 1).spec_is_air()
        } else {
            match neighbors.pos_z {
                Some(c) => c.block_at(x, y, 0).spec_is_air(),
                None => true,
            }
        }),
        chunk_faces(chunk, neighbors).contains((x, y, z, 5)) <==> !chunk.block_at(x, y, z).spec_is_air() && (
        if z > 0 {
            chunk.block_at(x, y, z - 1).spec_is_air()
        } else {
            match neighbors.neg_z {
                Some(c) => c.block_at(x, y, 15).spec_is_air(),
                None => true,
            }
        }),
{
    assert(x % 16 == x && y % 16 == y && z % 16 == z) by {
        vstd::arithmetic::div_mod::lemma_small_mod(x as nat, 16);
        vstd::arithmetic::div_mod::lemma_small_mod(y as nat, 16);
        vstd::arithmetic::div_mod::lemma_small_mod(z as nat, 16);
    }
    assert((-1int) % 16 == 15 && 16int % 16 == 0);
    lemma_emitted_faces_are_exposed(chunk, neighbors);
    let faces = chunk_faces(chunk, neighbors);
    assert forall|d: int| 0 <= d < 6 implies faces.contains((x, y, z, d)) <==> face_visible(chunk, neighbors, x, y, z, d) by {
        if faces.contains((x, y, z, d)) {
            let k = choose|k: int| 0 <= k < faces.len() && faces[k] == (x, y, z, d);
            assert(faces[k] == (x, y, z, d));
        }
        if face_visible(chunk, neighbors, x, y, z, d) {
            lemma_exposed_faces_are_emitted(chunk, neighbors, x, y, z, d);
        }
    }
    assert(faces.contains((x, y, z, 0)) <==> face_visible(chunk, neighbors, x, y, z, 0));
    assert(faces.contains((x, y, z, 1)) <==> face_visible(chunk, neighbors, x, y, z, 1));
    assert(faces.contains((x, y, z, 2)) <==> face_visible(chunk, neighbors, x, y, z, 2));
    assert(faces.contains((x, y, z, 3)) <==> face_visible(chunk, neighbors, x, y, z, 3));
    assert(faces.contains((x, y, z, 4)) <==> face_visible(chunk, neighbors, x, y, z, 4));
    assert(faces.contains((x, y, z, 5)) <==> face_visible(chunk, neighbors, x, y, z, 5));
}

/// Normal of the triangle `(a, b, c)`: the cross product of its edges `b - a` and `c - a`,
/// pointing towards a viewer who sees the corners in counter-clockwise order.
pub open spec fn triangle_normal(a: (int, int, int), b: (int, int, int), c: (int, int, int)) -> (int, int, int) {
    let e1 = (b.0 - a.0, b.1 - a.1, b.2 - a.2);
    let e2 = (c.0 - a.0, c.1 - a.1, c.2 - a.2);
    (e1.1 * e2.2 - e1.2 * e2.1, e1.2 * e2.0 - e1.0 * e2.2, e1.0 * e2.1 - e1.1 * e2.0)
}

/// Each corner of a face lies on the unit cube of its block and on the plane of that face:
/// its coordinate along the face normal is 1 for the +X, +Y, +Z faces and 0 for the -X,
/// -Y, -Z faces. The four corners of a face are distinct, and both triangles of the quad
/// (corners 0, 1, 2 and 0, 2, 3) wind counter-clockwise seen from outside: their edge
/// cross product is the outward normal.
pub proof fn lemma_face_corners_on_face(d: int)
    requires
        0 <= d < 6,
    ensures
        forall|c: int|
            0 <= c < 4 ==> {
                let k = #[trigger] face_corner(d, c);
                let o = face_offset(d);
                &&& 0 <= k.0 <= 1 && 0 <= k.1 <= 1 && 0 <= k.2 <= 1
                &&& (o.0 == 1 ==> k.0 == 1) && (o.0 == -1 ==> k.0 == 0)
                &&& (o.1 == 1 ==> k.1 == 1) && (o.1 == -1 ==> k.1 == 0)
                &&& (o.2 == 1 ==> k.2 == 1) && (o.2 == -1 ==> k.2 == 0)
            },
        forall|a: int, b: int| 0 <= a < b < 4 ==> #[trigger] face_corner(d, a) != #[trigger] face_corner(d, b),
        triangle_normal(face_corner(d, 0), face_corner(d, 1), face_corner(d, 2)) == face_offset(d),
        triangle_normal(face_corner(d, 0), face_corner(d, 2), face_corner(d, 3)) == face_offset(d),
{
    assert(triangle_normal(face_corner(0, 0), face_corner(0, 1), face_corner(0, 2)) == (1int, 0int, 0int)) by (nonlinear_arith);
    assert(triangle_normal(face_corner(0, 0), face_corner(0, 2), face_corner(0, 3)) == (1int, 0int, 0int)) by (nonlinear_arith);
    assert(triangle_normal(face_corner(1, 0), face_corner(1, 1), face_corner(1, 2)) == (-1int, 0int, 0int)) by (nonlinear_arith);
    assert(triangle_normal(face_corner(1, 0), face_corner(1, 2), face_corner(1, 3)) == (-1int, 0int, 0int)) by (nonlinear_arith);
    assert(triangle_normal(face_corner(2, 0), face_corner(2, 1), face_corner(2, 2)) == (0int, 1int, 0int)) by (nonlinear_arith);
    assert(triangle_normal(face_corner(2, 0), face_corner(2, 2), face_corner(2, 3)) == (0int, 1int, 0int)) by (nonlinear_arith);
    assert(triangle_normal(face_corner(3, 0), face_corner(3, 1), face_corner(3, 2)) == (0int, -1int, 0int)) by (nonlinear_arith);
    assert(triangle_normal(face_corner(3, 0), face_corner(3, 2), face_corner(3, 3)) == (0int, -1int, 0int)) by (nonlinear_arith);
    assert(triangle_normal(face_corner(4, 0), face_corner(4, 1), face_corner(4, 2)) == (0int, 0int, 1int)) by (nonlinear_arith);
    assert(triangle_normal(face_corner(4, 0), face_corner(4, 2), face_corner(4, 3)) == (0int, 0int, 1int)) by (nonlinear_arith);
    assert(triangle_normal(face_corner(5, 0), face_corner(5, 1), face_corner(5, 2)) == (0int, 0int, -1int)) by (nonlinear_arith);
    assert(triangle_normal(face_corner(5, 0), face_corner(5, 2), face_corner(5, 3)) == (0int, 0int, -1int)) by (nonlinear_arith);
}

/// Every vertex of a mesh lies on its face: offset from the origin of the face's block it
/// is a corner of the unit cube, its normal is a unit axis vector, and along that axis
/// the offset is 1 when the normal points up the axis and 0 when it points down.
pub proof fn lemma_mesh_vertices_on_faces(
    chunk: &ChunkData,
    registry: Seq<BlockType>,
    faces: Seq<(int, int, int, int)>,
    vertices: Seq<MeshVertex>,
    indices: Seq<u32>,
)
    requires
        mesh_of_faces(chunk, registry, faces, vertices, indices),
        forall|i: int| #![trigger faces[i]] 0 <= i < faces.len() ==> in_chunk(faces[i].0, faces[i].1, faces[i].2) && 0 <= faces[i].3 < 6,
    ensures
        forall|v: int|
            0 <= v < vertices.len() ==> {
                let f = faces[v / 4];
                let p = #[trigger] vertices[v].position;
                let n = vertices[v].normal;
                let r = (p.0 - (chunk.position.0 * 16 + f.0), p.1 - (chunk.position.1 * 16 + f.1), p.2 - (chunk.position.2 * 16 + f.2));
                &&& 0 <= r.0 <= 1 && 0 <= r.1 <= 1 && 0 <= r.2 <= 1
                &&& (n.0 == 0 && n.1 == 0 && (n.2 == 1 || n.2 == -1)) || (n.0 == 0 && n.2 == 0 && (n.1 == 1 || n.1 == -1)) || (n.1 == 0 && n.2 == 0 && (n.0 == 1 || n.0 == -1))
                &&& (n.0 == 1 ==> r.0 == 1) && (n.0 == -1 ==> r.0 == 0)
                &&& (n.1 == 1 ==> r.1 == 1) && (n.1 == -1 ==> r.1 == 0)
                &&& (n.2 == 1 ==> r.2 == 1) && (n.2 == -1 ==> r.2 == 0)
            },
{
    assert forall|v: int| 0 <= v < vertices.len() implies {
        let f = faces[v / 4];
        let p = #[trigger] vertices[v].position;
        let n = vertices[v].normal;
        let r = (p.0 - (chunk.position.0 * 16 + f.0), p.1 - (chunk.position.1 * 16 + f.1), p.2 - (chunk.position.2 * 16 + f.2));
        &&& 0 <= r.0 <= 1 && 0 <= r.1 <= 1 && 0 <= r.2 <= 1
        &&& (n.0 == 0 && n.1 == 0 && (n.2 == 1 || n.2 == -1)) || (n.0 == 0 && n.2 == 0 && (n.1 == 1 || n.1 == -1)) || (n.1 == 0 && n.2 == 0 && (n.0 == 1 || n.0 == -1))
        &&& (n.0 == 1 ==> r.0 == 1) && (n.0 == -1 ==> r.0 == 0)
        &&& (n.1 == 1 ==> r.1 == 1) && (n.1 == -1 ==> r.1 == 0)
        &&& (n.2 == 1 ==> r.2 == 1) && (n.2 == -1 ==> r.2 == 0)
    } by {
        assert(0 <= v / 4 < faces.len()) by (nonlinear_arith)
            requires
                0 <= v < 4 * faces.len(),
        ;
        let f = faces[v / 4];
        assert(0 <= v % 4 < 4);
        assert(in_chunk(f.0, f.1, f.2) && 0 <= f.3 < 6);
        lemma_face_corners_on_face(f.3);
        assert(vertices[v] == face_vertex(chunk, registry, f, v % 4));
    }
}


/// The corner position of a mesh vertex, as integers.
pub open spec fn vertex_point(v: MeshVertex) -> (int, int, int) {
    (v.position.0 as int, v.position.1 as int, v.position.2 as int)
}

/// Triangle `t` of a mesh: the vertices named by its three indices.
pub open spec fn mesh_triangle(vertices: Seq<MeshVertex>, indices: Seq<u32>, t: int) -> (MeshVertex, MeshVertex, MeshVertex) {
    (vertices[indices[3 * t] as int], vertices[indices[3 * t + 1] as int], vertices[indices[3 * t + 2] as int])
}

proof fn lemma_triangle_normal_translate(o: (int, int, int), a: (int, int, int), b: (int, int, int), c: (int, int, int))
    ensures
        triangle_normal((a.0 + o.0, a.1 + o.1, a.2 + o.2), (b.0 + o.0, b.1 + o.1, b.2 + o.2), (c.0 + o.0, c.1 + o.1, c.2 + o.2))
            == triangle_normal(a, b, c),
{
    let a2 = (a.0 + o.0, a.1 + o.1, a.2 + o.2);
    let b2 = (b.0 + o.0, b.1 + o.1, b.2 + o.2);
    let c2 = (c.0 + o.0, c.1 + o.1, c.2 + o.2);
    assert((b2.0 - a2.0, b2.1 - a2.1, b2.2 - a2.2) == (b.0 - a.0, b.1 - a.1, b.2 - a.2));
    assert((c2.0 - a2.0, c2.1 - a2.1, c2.2 - a2.2) == (c.0 - a.0, c.1 - a.1, c.2 - a.2));
}

/// Every triangle of a mesh faces outward: its three vertices share one normal, and in
/// index order they wind counter-clockwise seen from that side (the cross product of the
/// triangle's edges is the normal).
pub proof fn lemma_mesh_triangles_face_outward(
    chunk: &ChunkData,
    registry: Seq<BlockType>,
    faces: Seq<(int, int, int, int)>,
    vertices: Seq<MeshVertex>,
    indices: Seq<u32>,
)
    requires
        mesh_of_faces(chunk, registry, faces, vertices, indices),
        forall|i: int| #![trigger faces[i]] 0 <= i < faces.len() ==> in_chunk(faces[i].0, faces[i].1, faces[i].2) && 0 <= faces[i].3 < 6,
    ensures
        forall|t: int|
            #![trigger mesh_triangle(vertices, indices, t)]
            0 <= t < 2 * faces.len() ==> {
                let (a, b, c) = mesh_triangle(vertices, indices, t);
                &&& 3 * t + 2 < indices.len()
                &&& indices[3 * t] < vertices.len() && indices[3 * t + 1] < vertices.len() && indices[3 * t + 2] < vertices.len()
                &&& b.normal == a.normal && c.normal == a.normal
                &&& triangle_normal(vertex_point(a), vertex_point(b), vertex_point(c)) == (a.normal.0 as int, a.normal.1 as int, a.normal.2 as int)
            },
{
    assert forall|t: int|
        #![trigger mesh_triangle(vertices, indices, t)]
        0 <= t < 2 * faces.len() implies {
        let (a, b, c) = mesh_triangle(vertices, indices, t);
        &&& 3 * t + 2 < indices.len()
        &&& indices[3 * t] < vertices.len() && indices[3 * t + 1] < vertices.len() && indices[3 * t + 2] < vertices.len()
        &&& b.normal == a.normal && c.normal == a.normal
        &&& triangle_normal(vertex_point(a), vertex_point(b), vertex_point(c)) == (a.normal.0 as int, a.normal.1 as int, a.normal.2 as int)
    } by {
        let i = t / 2;
        let h = t % 2;
        assert(0 <= i < faces.len() && 0 <= h < 2 && t == 2 * i + h) by (nonlinear_arith)
            requires
                0 <= t < 2 * faces.len(),
                i == t / 2,
                h == t % 2,
        ;
        assert(3 * t / 6 == i && (3 * t) % 6 == 3 * h && (3 * t + 1) / 6 == i && (3 * t + 1) % 6 == 3 * h + 1
            && (3 * t + 2) / 6 == i && (3 * t + 2) % 6 == 3 * h + 2) by (nonlinear_arith)
            requires
                t == 2 * i + h,
                0 <= h < 2,
        ;
        let f = faces[i];
        assert(in_chunk(f.0, f.1, f.2) && 0 <= f.3 < 6);
        lemma_face_corners_on_face(f.3);
        let q0 = quad_index(3 * h);
        let q1 = quad_index(3 * h + 1);
        let q2 = quad_index(3 * h + 2);
        assert(0 <= q0 < 4 && 0 <= q1 < 4 && 0 <= q2 < 4);
        assert((4 * i + q0) / 4 == i && (4 * i + q0) % 4 == q0 && (4 * i + q1) / 4 == i && (4 * i + q1) % 4 == q1
            && (4 * i + q2) / 4 == i && (4 * i + q2) % 4 == q2) by (nonlinear_arith)
            requires
                0 <= q0 < 4,
                0 <= q1 < 4,
                0 <= q2 < 4,
        ;
        assert(4 * i + 4 <= 4 * faces.len()) by (nonlinear_arith)
            requires
                0 <= i < faces.len(),
        ;
        assert(indices[3 * t] == 4 * i + q0);
        assert(indices[3 * t + 1] == 4 * i + q1);
        assert(indices[3 * t + 2] == 4 * i + q2);
        assert(vertices[4 * i + q0] == face_vertex(chunk, registry, f, q0));
        assert(vertices[4 * i + q1] == face_vertex(chunk, registry, f, q1));
        assert(vertices[4 * i + q2] == face_vertex(chunk, registry, f, q2));
        let o = (chunk.position.0 * 16 + f.0, chunk.position.1 * 16 + f.1, chunk.position.2 * 16 + f.2);
        let k0 = face_corner(f.3, q0);
        let k1 = face_corner(f.3, q1);
        let k2 = face_corner(f.3, q2);
        assert(vertex_point(vertices[4 * i + q0]) == (k0.0 + o.0, k0.1 + o.1, k0.2 + o.2));
        assert(vertex_point(vertices[4 * i + q1]) == (k1.0 + o.0, k1.1 + o.1, k1.2 + o.2));
        assert(vertex_point(vertices[4 * i + q2]) == (k2.0 + o.0, k2.1 + o.1, k2.2 + o.2));
        lemma_triangle_normal_translate(o, k0, k1, k2);
        assert(vertices.len() == 4 * faces.len());
    }
}


/// Every vertex of a face takes the colour that the registry lists for the block the face
/// belongs to, and magenta when the registry has no entry with that block's id.
pub proof fn lemma_mesh_vertex_colors(
    chunk: &ChunkData,
    registry: Seq<BlockType>,
    faces: Seq<(int, int, int, int)>,
    vertices: Seq<MeshVertex>,
    indices: Seq<u32>,
)
    requires
        mesh_of_faces(chunk, registry, faces, vertices, indices),
        indexed_by_id(registry),
    ensures
        forall|v: int, k: int|
            0 <= v < vertices.len() && 0 <= k < registry.len() && registry[k].id == chunk.block_at(
                faces[v / 4].0,
                faces[v / 4].1,
                faces[v / 4].2,
            ) ==> #[trigger] vertices[v].color == #[trigger] registry[k].color,
        forall|v: int|
            0 <= v < vertices.len() && (forall|k: int| 0 <= k < registry.len() ==> #[trigger] registry[k].id != chunk.block_at(
                faces[v / 4].0,
                faces[v / 4].1,
                faces[v / 4].2,
            )) ==> #[trigger] vertices[v].color == (BlockColor { r: 100, g: 0, b: 100 }),
{
    assert forall|v: int, k: int|
        0 <= v < vertices.len() && 0 <= k < registry.len() && registry[k].id == chunk.block_at(
            faces[v / 4].0,
            faces[v / 4].1,
            faces[v / 4].2,
        ) implies #[trigger] vertices[v].color == #[trigger] registry[k].color by {
        assert(vertices[v] == face_vertex(chunk, registry, faces[v / 4], v % 4));
        assert(registry[k].id.0 == k);
    }
    assert forall|v: int|
        0 <= v < vertices.len() && (forall|k: int| 0 <= k < registry.len() ==> #[trigger] registry[k].id != chunk.block_at(
            faces[v / 4].0,
            faces[v / 4].1,
            faces[v / 4].2,
        )) implies #[trigger] vertices[v].color == (BlockColor { r: 100, g: 0, b: 100 }) by {
        assert(vertices[v] == face_vertex(chunk, registry, faces[v / 4], v % 4));
        let b = chunk.block_at(faces[v / 4].0, faces[v / 4].1, faces[v / 4].2);
        if (b.0 as int) < registry.len() {
            assert(registry[b.0 as int].id.0 == b.0);
            assert(registry[b.0 as int].id != b);
        }
    }
}

} // verus!
