use vstd::prelude::*;

use std::collections::HashMap;
use vstd::std_specs::iter::IteratorSpec;

use crate::chunk::ChunkData;
use crate::block::BlockRegistry;
use crate::mesh::{chunk_faces, face_offset, face_offset_of, mesh_chunk, mesh_of_faces, ChunkNeighbors, MeshVertex};
use crate::world::{generated_from, perlin_of, TerrainGenerator, TerrainSamples};

verus! {

broadcast use vstd::std_specs::hash::group_hash_axioms;

/// Chunk coordinates.
pub type ChunkPos = (i32, i32, i32);

/// Key under which the chunk at `p` is stored: the three coordinates packed into one integer.
pub open spec fn key_of(p: ChunkPos) -> i128 {
    (p.0 as int * 0x1_0000_0000_0000_0000 + p.1 as int * 0x1_0000_0000 + p.2 as int) as i128
}

/// Distinct positions have distinct keys.
pub proof fn lemma_key_injective(p: ChunkPos, q: ChunkPos)
    ensures
        key_of(p) == key_of(q) ==> p == q,
{
    let kp = p.0 as int * 0x1_0000_0000_0000_0000 + p.1 as int * 0x1_0000_0000 + p.2 as int;
    let kq = q.0 as int * 0x1_0000_0000_0000_0000 + q.1 as int * 0x1_0000_0000 + q.2 as int;
    assert(i128::MIN <= kp <= i128::MAX && i128::MIN <= kq <= i128::MAX) by (nonlinear_arith)
        requires
            kp == p.0 as int * 0x1_0000_0000_0000_0000 + p.1 as int * 0x1_0000_0000 + p.2 as int,
            kq == q.0 as int * 0x1_0000_0000_0000_0000 + q.1 as int * 0x1_0000_0000 + q.2 as int,
            i32::MIN <= p.0 <= i32::MAX,
            i32::MIN <= p.1 <= i32::MAX,
            i32::MIN <= p.2 <= i32::MAX,
            i32::MIN <= q.0 <= i32::MAX,
            i32::MIN <= q.1 <= i32::MAX,
            i32::MIN <= q.2 <= i32::MAX,
    ;
    if kp == kq {
        assert(p.0 == q.0 && p.1 == q.1 && p.2 == q.2) by (nonlinear_arith)
            requires
                kp == p.0 as int * 0x1_0000_0000_0000_0000 + p.1 as int * 0x1_0000_0000 + p.2 as int,
                kq == q.0 as int * 0x1_0000_0000_0000_0000 + q.1 as int * 0x1_0000_0000 + q.2 as int,
                kp == kq,
                i32::MIN <= p.1 <= i32::MAX,
                i32::MIN <= p.2 <= i32::MAX,
                i32::MIN <= q.1 <= i32::MAX,
                i32::MIN <= q.2 <= i32::MAX,
        ;
    }
}

pub(crate) fn chunk_key(p: ChunkPos) -> (k: i128)
    ensures
        k == key_of(p),
{
    proof {
        lemma_key_injective(p, p);
    }
    p.0 as i128 * 0x1_0000_0000_0000_0000i128 + p.1 as i128 * 0x1_0000_0000i128 + p.2 as i128
}


/// The neighbour of `p` across face direction `d` (same order as the mesh faces).
pub open spec fn offset_pos(p: ChunkPos, d: int) -> ChunkPos {
    let o = face_offset(d);
    ((p.0 + o.0) as i32, (p.1 + o.1) as i32, (p.2 + o.2) as i32)
}

/// All six neighbours of `p` have representable coordinates.
pub open spec fn neighbors_in_range(p: ChunkPos) -> bool {
    &&& i32::MIN < p.0 < i32::MAX
    &&& i32::MIN < p.1 < i32::MAX
    &&& i32::MIN < p.2 < i32::MAX
}

/// `q` is the neighbour of `p` in one of the first `d` face directions.
pub open spec fn neighbor_within(p: ChunkPos, q: ChunkPos, d: int) -> bool {
    ||| (0 < d && q == offset_pos(p, 0))
    ||| (1 < d && q == offset_pos(p, 1))
    ||| (2 < d && q == offset_pos(p, 2))
    ||| (3 < d && q == offset_pos(p, 3))
    ||| (4 < d && q == offset_pos(p, 4))
    ||| (5 < d && q == offset_pos(p, 5))
}

/// `q` shares a face with `p`.
pub open spec fn adjacent(p: ChunkPos, q: ChunkPos) -> bool {
    neighbor_within(p, q, 6)
}

/// The chunk with its dirty flag set.
pub open spec fn with_dirty(c: ChunkData, dirty: bool) -> ChunkData {
    ChunkData { dirty, ..c }
}

/// `m` with the loaded neighbours of `p` among the first `d` face directions marked dirty.
pub open spec fn mark_within(m: Map<ChunkPos, ChunkData>, p: ChunkPos, d: int) -> Map<ChunkPos, ChunkData> {
    Map::new(
        |q: ChunkPos| m.contains_key(q),
        |q: ChunkPos| if neighbor_within(p, q, d) { with_dirty(m[q], true) } else { m[q] },
    )
}

/// `m` with every loaded neighbour of `p` marked dirty.
pub open spec fn mark_neighbors_dirty(m: Map<ChunkPos, ChunkData>, p: ChunkPos) -> Map<ChunkPos, ChunkData> {
    mark_within(m, p, 6)
}

/// The neighbours of `p` loaded in `m`, among the first `nd` face directions, in direction order.
pub open spec fn loaded_neighbors(m: Map<ChunkPos, ChunkData>, p: ChunkPos, nd: int) -> Seq<ChunkPos>
    decreases nd,
{
    if nd <= 0 {
        Seq::empty()
    } else {
        let prev = loaded_neighbors(m, p, nd - 1);
        if m.contains_key(offset_pos(p, nd - 1)) {
            prev.push(offset_pos(p, nd - 1))
        } else {
            prev
        }
    }
}

fn offset_of(p: ChunkPos, d: usize) -> (q: ChunkPos)
    requires
        neighbors_in_range(p),
        d < 6,
    ensures
        q == offset_pos(p, d as int),
{
    let o = face_offset_of(d);
    (p.0 + o.0, p.1 + o.1, p.2 + o.2)
}

/// `m` after storing chunk `c` under its own position and marking its loaded neighbours dirty.
pub open spec fn generation_step(m: Map<ChunkPos, ChunkData>, c: ChunkData) -> Map<ChunkPos, ChunkData> {
    mark_neighbors_dirty(m.insert(c.position, c), c.position)
}

/// Chunks `batch`, stored into `m` one after the other, each followed by marking its
/// loaded neighbours dirty.
pub open spec fn insert_batch(m: Map<ChunkPos, ChunkData>, batch: Seq<ChunkData>) -> Map<ChunkPos, ChunkData>
    decreases batch.len(),
{
    if batch.len() == 0 {
        m
    } else {
        generation_step(insert_batch(m, batch.drop_last()), batch.last())
    }
}

/// `m` with the dirty flag cleared on every loaded chunk whose position is in `positions`.
pub open spec fn cleared(m: Map<ChunkPos, ChunkData>, positions: Seq<ChunkPos>) -> Map<ChunkPos, ChunkData> {
    Map::new(
        |q: ChunkPos| m.contains_key(q),
        |q: ChunkPos| if positions.contains(q) { with_dirty(m[q], false) } else { m[q] },
    )
}

/// Positions marked dirty while storing `batch` into `m`, in order.
pub open spec fn batch_dirty(m: Map<ChunkPos, ChunkData>, batch: Seq<ChunkData>) -> Seq<ChunkPos>
    decreases batch.len(),
{
    if batch.len() == 0 {
        Seq::empty()
    } else {
        let prev = insert_batch(m, batch.drop_last());
        batch_dirty(m, batch.drop_last()) + loaded_neighbors(prev, batch.last().position, 6)
    }
}

/// `m` after unloading the chunks at `positions` one after the other, each followed by
/// marking its loaded neighbours dirty.
pub open spec fn unload_all(m: Map<ChunkPos, ChunkData>, positions: Seq<ChunkPos>) -> Map<ChunkPos, ChunkData>
    decreases positions.len(),
{
    if positions.len() == 0 {
        m
    } else {
        let p = positions.last();
        mark_neighbors_dirty(unload_all(m, positions.drop_last()).remove(p), p)
    }
}

proof fn lemma_loaded_neighbors_insert_self(m: Map<ChunkPos, ChunkData>, p: ChunkPos, c: ChunkData, nd: int)
    requires
        neighbors_in_range(p),
        nd <= 6,
    ensures
        loaded_neighbors(m.insert(p, c), p, nd) == loaded_neighbors(m, p, nd),
    decreases nd,
{
    if nd > 0 {
        lemma_loaded_neighbors_insert_self(m, p, c, nd - 1);
        assert(offset_pos(p, nd - 1) != p);
    }
}

/// Owns the loaded chunks, keyed by chunk position, and the terrain generator.
pub struct WorldManager {
    chunks: HashMap<i128, ChunkData>,
    generator: TerrainGenerator,
}

impl View for WorldManager {
    type V = Map<ChunkPos, ChunkData>;

    /// The loaded chunks by position.
    closed spec fn view(&self) -> Map<ChunkPos, ChunkData> {
        Map::new(|p: ChunkPos| self.chunks@.contains_key(key_of(p)), |p: ChunkPos| self.chunks@[key_of(p)])
    }
}

impl WorldManager {
    /// Every stored chunk is dense and stored under the key of its own position.
    pub closed spec fn wf(&self) -> bool {
        &&& self.chunks@.dom().finite()
        &&& forall|k: i128|
            #[trigger] self.chunks@.contains_key(k) ==> self.chunks@[k].wf() && key_of(
                self.chunks@[k].position,
            ) == k
    }

    proof fn lemma_view_facts(&self)
        requires
            self.wf(),
        ensures
            forall|p: ChunkPos| #[trigger]
                self@.contains_key(p) ==> self@[p].wf() && self@[p].position == p,
    {
        assert forall|p: ChunkPos| #[trigger] self@.contains_key(p) implies self@[p].wf() && self@[p].position == p by {
            lemma_key_injective(p, self.chunks@[key_of(p)].position);
        }
    }

    /// An empty world whose terrain comes from `seed`.
    pub fn new(seed: u32) -> (w: Self)
        ensures
            w.wf(),
            w@ == Map::<ChunkPos, ChunkData>::empty(),
            w.terrain_generator().noise_source() == perlin_of(seed),
    {
        let w = Self { chunks: HashMap::new(), generator: TerrainGenerator::new(seed) };
        assert(w@ =~= Map::<ChunkPos, ChunkData>::empty());
        w
    }

    /// The terrain generator this world generates its chunks with.
    pub closed spec fn terrain_generator(&self) -> TerrainGenerator {
        self.generator
    }

    /// The terrain generator, for sampling noise.
    pub fn generator(&self) -> (g: &TerrainGenerator)
        ensures
            *g == self.terrain_generator(),
    {
        &self.generator
    }

    /// The chunk loaded at `(cx, cy, cz)`, if any.
    pub fn get_chunk(&self, cx: i32, cy: i32, cz: i32) -> (r: Option<&ChunkData>)
        requires
            self.wf(),
        ensures
            r is Some <==> self@.contains_key((cx, cy, cz)),
            r matches Some(c) ==> *c == self@[(cx, cy, cz)] && c.wf() && c.position == (cx, cy, cz),
    {
        proof {
            self.lemma_view_facts();
        }
        self.chunks.get(&chunk_key((cx, cy, cz)))
    }

    /// Whether a chunk is loaded at `(cx, cy, cz)`.
    pub fn has_chunk(&self, cx: i32, cy: i32, cz: i32) -> (r: bool)
        requires
            self.wf(),
        ensures
            r == self@.contains_key((cx, cy, cz)),
    {
        self.chunks.contains_key(&chunk_key((cx, cy, cz)))
    }

    /// Sets the dirty flag of the chunk at `p`, if it is loaded; returns whether it is.
    fn set_dirty(&mut self, p: ChunkPos, dirty: bool) -> (found: bool)
        requires
            old(self).wf(),
        ensures
            final(self).wf(),
            final(self).terrain_generator() == old(self).terrain_generator(),
            found == old(self)@.contains_key(p),
            final(self)@ == (if found {
                old(self)@.insert(p, with_dirty(old(self)@[p], dirty))
            } else {
                old(self)@
            }),
    {
        let k = chunk_key(p);
        let ghost before = self.chunks@;
        match self.chunks.remove(&k) {
            Some(mut c) => {
                c.dirty = dirty;
                self.chunks.insert(k, c);
                assert(self.chunks@ == before.insert(k, with_dirty(before[k], dirty)));
                proof {
                    assert forall|q: ChunkPos| #[trigger] self@.contains_key(q) == old(self)@.insert(p, with_dirty(old(self)@[p], dirty)).contains_key(q) by {
                        lemma_key_injective(p, q);
                    }
                    assert forall|q: ChunkPos| self@.contains_key(q) implies #[trigger] self@[q] == old(self)@.insert(p, with_dirty(old(self)@[p], dirty))[q] by {
                        lemma_key_injective(p, q);
                    }
                }
                assert(self@ =~= old(self)@.insert(p, with_dirty(old(self)@[p], dirty)));
                true
            },
            None => {
                assert(self@ =~= old(self)@);
                false
            },
        }
    }

    /// Marks every loaded neighbour of `p` dirty and returns their positions in face order.
    fn mark_neighbors(&mut self, p: ChunkPos) -> (marked: Vec<ChunkPos>)
        requires
            old(self).wf(),
            neighbors_in_range(p),
        ensures
            final(self).wf(),
            final(self).terrain_generator() == old(self).terrain_generator(),
            final(self)@ == mark_neighbors_dirty(old(self)@, p),
            marked@ == loaded_neighbors(old(self)@, p, 6),
    {
        let mut marked: Vec<ChunkPos> = Vec::new();
        let ghost start = self@;
        assert(self@ =~= mark_within(start, p, 0));
        let mut d: usize = 0;
        while d < 6
            invariant
                0 <= d <= 6,
                neighbors_in_range(p),
                self.wf(),
                self.terrain_generator() == old(self).terrain_generator(),
                self@ == mark_within(start, p, d as int),
                marked@ == loaded_neighbors(start, p, d as int),
            decreases 6 - d,
        {
            let q = offset_of(p, d);
            let found = self.set_dirty(q, true);
            if found {
                marked.push(q);
            }
            assert(self@ =~= mark_within(start, p, d + 1));
            d = d + 1;
        }
        marked
    }

    /// Stores `c` under its own position, replacing any chunk there.
    fn insert_chunk(&mut self, c: ChunkData)
        requires
            old(self).wf(),
            c.wf(),
        ensures
            final(self).wf(),
            final(self).terrain_generator() == old(self).terrain_generator(),
            final(self)@ == old(self)@.insert(c.position, c),
    {
        let p = c.position;
        let k = chunk_key(p);
        let ghost cv = c;
        self.chunks.insert(k, c);
        proof {
            assert forall|q: ChunkPos| #[trigger] self@.contains_key(q) == old(self)@.insert(p, cv).contains_key(q) by {
                lemma_key_injective(p, q);
            }
            assert forall|q: ChunkPos| self@.contains_key(q) implies #[trigger] self@[q] == old(self)@.insert(p, cv)[q] by {
                lemma_key_injective(p, q);
            }
        }
        assert(self@ =~= old(self)@.insert(p, cv));
    }

    /// Generates the chunk at `(cx, cy, cz)` from its noise samples, stores it (replacing any
    /// chunk there) and marks its loaded neighbours dirty so they re-mesh their shared border.
    /// Returns the positions of those neighbours, in face order.
    pub fn generate_chunk(&mut self, cx: i32, cy: i32, cz: i32, samples: &TerrainSamples) -> (dirty: Vec<ChunkPos>)
        requires
            old(self).wf(),
            samples.wf(),
            neighbors_in_range((cx, cy, cz)),
        ensures
            final(self).wf(),
            final(self).terrain_generator() == old(self).terrain_generator(),
            final(self)@ == generation_step(old(self)@, final(self)@[(cx, cy, cz)]),
            final(self)@.dom() == old(self)@.dom().insert((cx, cy, cz)),
            generated_from(final(self)@[(cx, cy, cz)], cx, cy, cz, samples),
            forall|q: ChunkPos|
                old(self)@.contains_key(q) && q != (cx, cy, cz) ==> #[trigger] final(self)@[q] == (if adjacent((cx, cy, cz), q) {
                    with_dirty(old(self)@[q], true)
                } else {
                    old(self)@[q]
                }),
            dirty@ == loaded_neighbors(old(self)@, (cx, cy, cz), 6),
    {
        let chunk = self.generator.generate_chunk(cx, cy, cz, samples);
        let ghost c = chunk;
        self.insert_chunk(chunk);
        let dirty = self.mark_neighbors((cx, cy, cz));
        proof {
            lemma_loaded_neighbors_insert_self(old(self)@, (cx, cy, cz), c, 6);
            assert(!adjacent((cx, cy, cz), (cx, cy, cz)));
            assert(self@.dom() =~= old(self)@.dom().insert((cx, cy, cz)));
        }
        dirty
    }

    /// Stores chunks generated elsewhere (in parallel, by the caller) one after the other,
    /// each under its own position, marking the loaded neighbours of each dirty as it is
    /// stored. Returns the positions marked dirty, batch order then face order.
    pub fn generate_chunks_parallel(&mut self, generated: Vec<ChunkData>) -> (dirty: Vec<ChunkPos>)
        requires
            old(self).wf(),
            forall|i: int| 0 <= i < generated@.len() ==> (#[trigger] generated@[i]).wf() && neighbors_in_range(generated@[i].position),
        ensures
            final(self).wf(),
            final(self).terrain_generator() == old(self).terrain_generator(),
            final(self)@ == insert_batch(old(self)@, generated@),
            dirty@ == batch_dirty(old(self)@, generated@),
    {
        let mut all_dirty: Vec<ChunkPos> = Vec::new();
        let ghost start = self@;
        let ghost chunks = generated@;
        for chunk in it: generated
            invariant
                self.wf(),
                self.terrain_generator() == old(self).terrain_generator(),
                chunks == it.seq(),
                forall|i: int| 0 <= i < chunks.len() ==> (#[trigger] chunks[i]).wf() && neighbors_in_range(chunks[i].position),
                self@ == insert_batch(start, chunks.take(it.index() as int)),
                all_dirty@ == batch_dirty(start, chunks.take(it.index() as int)),
        {
            let ghost i = it.index() as int;
            let pos = chunk.position;
            proof {
                assert(chunks[i] == chunk);
                assert(chunks.take(i + 1).drop_last() =~= chunks.take(i));
                assert(chunks.take(i + 1).last() == chunk);
            }
            let ghost before = self@;
            self.insert_chunk(chunk);
            let mut marked = self.mark_neighbors(pos);
            proof {
                lemma_loaded_neighbors_insert_self(before, pos, chunk, 6);
            }
            all_dirty.append(&mut marked);
        }
        proof {
            assert(chunks.take(chunks.len() as int) =~= chunks);
        }
        all_dirty
    }

    /// Removes the chunk at `(cx, cy, cz)`, if loaded, and marks its loaded neighbours dirty
    /// so they re-emit their border faces.
    pub fn unload_chunk(&mut self, cx: i32, cy: i32, cz: i32)
        requires
            old(self).wf(),
            neighbors_in_range((cx, cy, cz)),
        ensures
            final(self).wf(),
            final(self).terrain_generator() == old(self).terrain_generator(),
            final(self)@ == mark_neighbors_dirty(old(self)@.remove((cx, cy, cz)), (cx, cy, cz)),
    {
        let p = (cx, cy, cz);
        let k = chunk_key(p);
        self.chunks.remove(&k);
        proof {
            assert forall|q: ChunkPos| #[trigger] self@.contains_key(q) == old(self)@.remove(p).contains_key(q) by {
                lemma_key_injective(p, q);
            }
            assert forall|q: ChunkPos| self@.contains_key(q) implies #[trigger] self@[q] == old(self)@.remove(p)[q] by {
                lemma_key_injective(p, q);
            }
            assert(self@ =~= old(self)@.remove(p));
        }
        let _ = self.mark_neighbors(p);
    }

    /// Clears the dirty flag of the chunk at `pos` after it has been re-meshed.
    pub fn clear_dirty(&mut self, pos: ChunkPos)
        requires
            old(self).wf(),
        ensures
            final(self).wf(),
            final(self).terrain_generator() == old(self).terrain_generator(),
            final(self)@ == (if old(self)@.contains_key(pos) {
                old(self)@.insert(pos, with_dirty(old(self)@[pos], false))
            } else {
                old(self)@
            }),
    {
        let _ = self.set_dirty(pos, false);
    }

    /// Clears the dirty flag of every loaded chunk listed in `positions`, after they have
    /// been re-meshed or found to need no mesh.
    pub fn clear_dirty_all(&mut self, positions: &Vec<ChunkPos>)
        requires
            old(self).wf(),
        ensures
            final(self).wf(),
            final(self).terrain_generator() == old(self).terrain_generator(),
            final(self)@ == cleared(old(self)@, positions@),
    {
        let ghost start = self@;
        let mut i: usize = 0;
        assert(self@ =~= cleared(start, positions@.take(0)));
        while i < positions.len()
            invariant
                0 <= i <= positions@.len(),
                self.wf(),
                self.terrain_generator() == old(self).terrain_generator(),
                start == old(self)@,
                self@ == cleared(start, positions@.take(i as int)),
            decreases positions@.len() - i,
        {
            let p = positions[i];
            let _ = self.set_dirty(p, false);
            proof {
                let prev = positions@.take(i as int);
                let next = positions@.take(i as int + 1);
                assert(next =~= prev.push(p));
                assert forall|q: ChunkPos| #[trigger] next.contains(q) <==> prev.contains(q) || q == p by {
                    if next.contains(q) {
                        let j = choose|j: int| 0 <= j < next.len() && next[j] == q;
                        if j < prev.len() {
                            assert(prev[j] == q);
                        }
                    }
                    if prev.contains(q) {
                        let j = choose|j: int| 0 <= j < prev.len() && prev[j] == q;
                        assert(next[j] == q);
                    }
                    if q == p {
                        assert(next[i as int] == q);
                    }
                }
                assert(self@ =~= cleared(start, next));
            }
            i = i + 1;
        }
        assert(positions@.take(positions@.len() as int) =~= positions@);
    }

    proof fn lemma_view_dom(&self)
        requires
            self.wf(),
        ensures
            self@.dom() == self.chunks@.dom().map(|k: i128| self.chunks@[k].position),
            self@.dom().finite(),
            self@.dom().len() == self.chunks@.dom().len(),
    {
        let f = |k: i128| self.chunks@[k].position;
        let d = self.chunks@.dom();
        assert forall|p: ChunkPos| #[trigger] self@.dom().contains(p) == d.map(f).contains(p) by {
            if self@.dom().contains(p) {
                self.lemma_view_facts();
                assert(f(key_of(p)) == p);
            }
            if d.map(f).contains(p) {
                let k = choose|k: i128| d.contains(k) && f(k) == p;
                assert(key_of(p) == k);
            }
        }
        assert(self@.dom() =~= d.map(f));
        assert forall|a: i128, b: i128| d.contains(a) && d.contains(b) && #[trigger] f(a) == #[trigger] f(b) implies a == b by {}
        vstd::set_lib::lemma_map_size(d, self@.dom(), f);
    }

    /// Number of loaded chunks.
    pub fn chunk_count(&self) -> (n: usize)
        requires
            self.wf(),
        ensures
            n == self@.dom().len(),
    {
        proof {
            self.lemma_view_dom();
        }
        self.chunks.len()
    }

    /// Positions of all loaded chunks, each once, in no particular order.
    pub fn loaded_positions(&self) -> (r: Vec<ChunkPos>)
        requires
            self.wf(),
        ensures
            r@.no_duplicates(),
            r@.to_set() == self@.dom(),
    {
        self.positions_where(false)
    }

    /// Positions of all loaded chunks marked dirty, each once, in no particular order.
    pub fn get_dirty_chunks(&self) -> (r: Vec<ChunkPos>)
        requires
            self.wf(),
        ensures
            r@.no_duplicates(),
            r@.to_set() == self@.dom().filter(|p: ChunkPos| self@[p].dirty),
    {
        let r = self.positions_where(true);
        assert(r@.to_set() =~= self@.dom().filter(|p: ChunkPos| self@[p].dirty));
        r
    }

    /// Positions of loaded chunks (only the dirty ones when `only_dirty`), each once.
    fn positions_where(&self, only_dirty: bool) -> (r: Vec<ChunkPos>)
        requires
            self.wf(),
        ensures
            r@.no_duplicates(),
            forall|p: ChunkPos| #[trigger] r@.contains(p) <==> self@.contains_key(p) && (only_dirty ==> self@[p].dirty),
    {
        let mut r: Vec<ChunkPos> = Vec::new();
        proof {
            self.lemma_view_facts();
        }
        let ghost s = self.chunks.iter().remaining();
        let ghost mut n: int = 0;
        for (k, c) in it: self.chunks.iter()
            invariant
                s == it.seq(),
                n == it.index(),
                self.wf(),
                forall|p: ChunkPos| #[trigger] self@.contains_key(p) ==> self@[p].wf() && self@[p].position == p,
                it.seq().no_duplicates(),
                forall|i: int| 0 <= i < it.seq().len() ==> #[trigger] self.chunks@.contains_key(*it.seq()[i].0) && self.chunks@[*it.seq()[i].0] == *it.seq()[i].1,
                forall|k: i128| #[trigger] self.chunks@.contains_key(k) ==> it.seq().contains((&k, &self.chunks@[k])),
                r@.no_duplicates(),
                forall|p: ChunkPos| #[trigger] r@.contains(p) <==> exists|i: int| 0 <= i < it.index() && #[trigger] it.seq()[i].1.position == p && (only_dirty ==> it.seq()[i].1.dirty),
        {
            let ghost idx = it.index();
            let ghost r0 = r@;
            assert(it.seq()[idx as int] == (k, c));
            if !only_dirty || c.dirty {
                proof {
                    assert(self.chunks@.contains_key(*k));
                    assert forall|i: int| 0 <= i < idx implies #[trigger] it.seq()[i].1.position != c.position by {
                        let e = it.seq()[i];
                        assert(self.chunks@.contains_key(*e.0));
                        if e.1.position == c.position {
                            assert(*e.0 == *k);
                            assert(e == it.seq()[idx as int]);
                        }
                    }
                }
                assert(!r0.contains(c.position));
                r.push(c.position);
            }
            proof {
                n = n + 1;
                assert forall|p: ChunkPos| #[trigger] r@.contains(p) implies exists|i: int| 0 <= i < idx + 1 && #[trigger] it.seq()[i].1.position == p && (only_dirty ==> it.seq()[i].1.dirty) by {
                    if r0.contains(p) {
                        let i = choose|i: int| 0 <= i < idx && #[trigger] it.seq()[i].1.position == p && (only_dirty ==> it.seq()[i].1.dirty);
                        assert(0 <= i < idx + 1 && it.seq()[i].1.position == p && (only_dirty ==> it.seq()[i].1.dirty));
                    } else {
                        assert(r@ == r0.push(c.position));
                        assert(it.seq()[idx as int].1.position == p);
                        assert(only_dirty ==> it.seq()[idx as int].1.dirty);
                    }
                }
                assert forall|p: ChunkPos| (exists|i: int| 0 <= i < idx + 1 && #[trigger] it.seq()[i].1.position == p && (only_dirty ==> it.seq()[i].1.dirty)) implies #[trigger] r@.contains(p) by {
                    let i = choose|i: int| 0 <= i < idx + 1 && #[trigger] it.seq()[i].1.position == p && (only_dirty ==> it.seq()[i].1.dirty);
                    if i < idx {
                        assert(r0.contains(p));
                        let j = choose|j: int| 0 <= j < r0.len() && r0[j] == p;
                        assert(r@[j] == p);
                    } else {
                        assert(r@.last() == p);
                    }
                }
            }
        }
        assert(n == s.len());
        assert forall|p: ChunkPos| #[trigger] r@.contains(p) <==> self@.contains_key(p) && (only_dirty ==> self@[p].dirty) by {
            if r@.contains(p) {
                let i = choose|i: int| 0 <= i < s.len() && #[trigger] s[i].1.position == p && (only_dirty ==> s[i].1.dirty);
                assert(self.chunks@.contains_key(*s[i].0));
                assert(key_of(p) == *s[i].0);
            }
            if self@.contains_key(p) && (only_dirty ==> self@[p].dirty) {
                let key = key_of(p);
                assert(self.chunks@.contains_key(key));
                assert(s.contains((&key, &self.chunks@[key])));
                let i = choose|i: int| 0 <= i < s.len() && s[i] == (&key, &self.chunks@[key]);
                assert(s[i].1.position == p);
            }
        }
        r
    }

    /// The loaded chunk across face direction `d` of `p`, if any.
    pub open spec fn side_of(&self, p: ChunkPos, d: int) -> Option<&ChunkData> {
        if self@.contains_key(offset_pos(p, d)) {
            Some(&self@[offset_pos(p, d)])
        } else {
            None
        }
    }

    /// The six neighbours of `p` as loaded in this world.
    pub open spec fn neighbors_of(&self, p: ChunkPos) -> ChunkNeighbors<'_> {
        ChunkNeighbors {
            pos_x: self.side_of(p, 0),
            neg_x: self.side_of(p, 1),
            pos_y: self.side_of(p, 2),
            neg_y: self.side_of(p, 3),
            pos_z: self.side_of(p, 4),
            neg_z: self.side_of(p, 5),
        }
    }

    /// The loaded neighbours of the chunk at `p`, for meshing across chunk borders.
    pub fn neighbors(&self, p: ChunkPos) -> (n: ChunkNeighbors<'_>)
        requires
            self.wf(),
            neighbors_in_range(p),
        ensures
            n == self.neighbors_of(p),
            n.wf(),
    {
        let q0 = offset_of(p, 0);
        let q1 = offset_of(p, 1);
        let q2 = offset_of(p, 2);
        let q3 = offset_of(p, 3);
        let q4 = offset_of(p, 4);
        let q5 = offset_of(p, 5);
        ChunkNeighbors {
            pos_x: self.get_chunk(q0.0, q0.1, q0.2),
            neg_x: self.get_chunk(q1.0, q1.1, q1.2),
            pos_y: self.get_chunk(q2.0, q2.1, q2.2),
            neg_y: self.get_chunk(q3.0, q3.1, q3.2),
            pos_z: self.get_chunk(q4.0, q4.1, q4.2),
            neg_z: self.get_chunk(q5.0, q5.1, q5.2),
        }
    }

    /// Meshes the chunk at `p` against its loaded neighbours: `None` when no chunk is
    /// loaded there or when the mesh has no face.
    pub fn mesh_chunk_at(&self, p: ChunkPos, registry: &BlockRegistry) -> (r: Option<(Vec<MeshVertex>, Vec<u32>)>)
        requires
            self.wf(),
            neighbors_in_range(p),
        ensures
            r is None <==> !self@.contains_key(p) || chunk_faces(&self@[p], &self.neighbors_of(p)).len() == 0,
            r matches Some(m) ==> mesh_of_faces(&self@[p], registry@, chunk_faces(&self@[p], &self.neighbors_of(p)), m.0@, m.1@),
    {
        match self.get_chunk(p.0, p.1, p.2) {
            None => None,
            Some(chunk) => {
                let neighbors = self.neighbors(p);
                let (vertices, indices) = mesh_chunk(chunk, registry, &neighbors);
                if vertices.len() == 0 {
                    None
                } else {
                    Some((vertices, indices))
                }
            },
        }
    }
}


/// Marking neighbours dirty never loads or unloads a chunk: it sets the dirty flag of
/// exactly the loaded chunks adjacent to `p` and changes nothing else.
pub proof fn lemma_marking_changes_only_dirty_flags(m: Map<ChunkPos, ChunkData>, p: ChunkPos)
    ensures
        mark_neighbors_dirty(m, p).dom() == m.dom(),
        forall|q: ChunkPos| #[trigger] m.contains_key(q) ==> {
            let after = mark_neighbors_dirty(m, p)[q];
            &&& after.position == m[q].position
            &&& after.storage == m[q].storage
            &&& after.dirty == (m[q].dirty || adjacent(p, q))
        },
{
    assert(mark_neighbors_dirty(m, p).dom() =~= m.dom());
}

/// Two chunks are adjacent exactly when their coordinates differ by one along a single axis.
pub proof fn lemma_adjacent_iff_unit_distance(p: ChunkPos, q: ChunkPos)
    requires
        neighbors_in_range(p),
    ensures
        adjacent(p, q) <==> {
            let dx = q.0 - p.0;
            let dy = q.1 - p.1;
            let dz = q.2 - p.2;
            (if dx < 0 { -dx } else { dx }) + (if dy < 0 { -dy } else { dy }) + (if dz < 0 { -dz } else { dz }) == 1
        },
{
}

/// Generating a chunk raises the count of loaded chunks by one when its position was free,
/// and leaves it unchanged when a chunk was already loaded there.
pub proof fn lemma_generate_count(m: Map<ChunkPos, ChunkData>, p: ChunkPos, c: ChunkData)
    requires
        m.dom().finite(),
    ensures
        mark_neighbors_dirty(m.insert(p, c), p).dom().len() == m.dom().len() + (if m.contains_key(p) { 0int } else { 1int }),
{
    lemma_marking_changes_only_dirty_flags(m.insert(p, c), p);
    assert(m.insert(p, c).dom() =~= m.dom().insert(p));
}

/// Unloading a chunk removes exactly that position from the loaded set.
pub proof fn lemma_unload_removes(m: Map<ChunkPos, ChunkData>, p: ChunkPos)
    ensures
        mark_neighbors_dirty(m.remove(p), p).dom() == m.dom().remove(p),
{
    lemma_marking_changes_only_dirty_flags(m.remove(p), p);
    assert(m.remove(p).dom() =~= m.dom().remove(p));
}


/// Storing a batch of chunks is storing them one at a time: the world after the first
/// `k + 1` chunks is one generation step of chunk `k` from the world after the first `k`,
/// and the positions marked dirty grow by exactly the loaded neighbours of chunk `k` in
/// that intermediate world, which are the positions a single generation there returns.
pub proof fn lemma_batch_step(m: Map<ChunkPos, ChunkData>, batch: Seq<ChunkData>, k: int)
    requires
        0 <= k < batch.len(),
    ensures
        insert_batch(m, batch.take(k + 1)) == generation_step(insert_batch(m, batch.take(k)), batch[k]),
        batch_dirty(m, batch.take(k + 1)) == batch_dirty(m, batch.take(k)) + loaded_neighbors(
            insert_batch(m, batch.take(k)),
            batch[k].position,
            6,
        ),
{
    assert(batch.take(k + 1).drop_last() =~= batch.take(k));
    assert(batch.take(k + 1).last() == batch[k]);
}

/// A run of single generations, starting from `m` and storing the chunks of `batch` in
/// order (`states[i + 1]` is one generation step of `batch[i]` from `states[i]`), passes
/// through the worlds of the batch prefixes and ends in the world of the whole batch.
pub proof fn lemma_batch_equals_sequential(m: Map<ChunkPos, ChunkData>, batch: Seq<ChunkData>, states: Seq<Map<ChunkPos, ChunkData>>)
    requires
        states.len() == batch.len() + 1,
        states[0] == m,
        forall|i: int| 0 <= i < batch.len() ==> #[trigger] states[i + 1] == generation_step(states[i], batch[i]),
    ensures
        forall|i: int| 0 <= i <= batch.len() ==> #[trigger] states[i] == insert_batch(m, batch.take(i)),
        states[batch.len() as int] == insert_batch(m, batch),
{
    assert forall|i: int| 0 <= i <= batch.len() implies #[trigger] states[i] == insert_batch(m, batch.take(i)) by {
        lemma_sequential_prefix(m, batch, states, i);
    }
    assert(batch.take(batch.len() as int) =~= batch);
}

proof fn lemma_sequential_prefix(m: Map<ChunkPos, ChunkData>, batch: Seq<ChunkData>, states: Seq<Map<ChunkPos, ChunkData>>, i: int)
    requires
        states.len() == batch.len() + 1,
        states[0] == m,
        forall|j: int| 0 <= j < batch.len() ==> #[trigger] states[j + 1] == generation_step(states[j], batch[j]),
        0 <= i <= batch.len(),
    ensures
        states[i] == insert_batch(m, batch.take(i)),
    decreases i,
{
    if i == 0 {
        assert(batch.take(0) =~= Seq::<ChunkData>::empty());
    } else {
        lemma_sequential_prefix(m, batch, states, i - 1);
        lemma_batch_step(m, batch, i - 1);
        assert(states[(i - 1) + 1] == generation_step(states[i - 1], batch[i - 1]));
    }
}


proof fn lemma_loaded_neighbors_within(m: Map<ChunkPos, ChunkData>, p: ChunkPos, nd: int, q: ChunkPos)
    requires
        0 <= nd <= 6,
    ensures
        loaded_neighbors(m, p, nd).contains(q) <==> m.contains_key(q) && neighbor_within(p, q, nd),
    decreases nd,
{
    if nd > 0 {
        lemma_loaded_neighbors_within(m, p, nd - 1, q);
        let prev = loaded_neighbors(m, p, nd - 1);
        if m.contains_key(offset_pos(p, nd - 1)) {
            let cur = prev.push(offset_pos(p, nd - 1));
            if prev.contains(q) {
                let k = choose|k: int| 0 <= k < prev.len() && prev[k] == q;
                assert(cur[k] == q);
            }
            if cur.contains(q) && q != offset_pos(p, nd - 1) {
                let k = choose|k: int| 0 <= k < cur.len() && cur[k] == q;
                assert(prev[k] == q);
            }
            if q == offset_pos(p, nd - 1) {
                assert(cur[prev.len() as int] == q);
            }
        }
    }
}

/// The positions reported dirty around `p` are exactly the loaded chunks that share a face
/// with `p`, each once.
pub proof fn lemma_loaded_neighbors_are_adjacent_loaded(m: Map<ChunkPos, ChunkData>, p: ChunkPos)
    requires
        neighbors_in_range(p),
    ensures
        forall|q: ChunkPos| #[trigger] loaded_neighbors(m, p, 6).contains(q) <==> m.contains_key(q) && adjacent(p, q),
        loaded_neighbors(m, p, 6).no_duplicates(),
{
    assert forall|q: ChunkPos| #[trigger] loaded_neighbors(m, p, 6).contains(q) <==> m.contains_key(q) && adjacent(p, q) by {
        lemma_loaded_neighbors_within(m, p, 6, q);
    }
    lemma_loaded_neighbors_distinct(m, p, 6);
}

proof fn lemma_loaded_neighbors_distinct(m: Map<ChunkPos, ChunkData>, p: ChunkPos, nd: int)
    requires
        neighbors_in_range(p),
        0 <= nd <= 6,
    ensures
        loaded_neighbors(m, p, nd).no_duplicates(),
    decreases nd,
{
    if nd > 0 {
        lemma_loaded_neighbors_distinct(m, p, nd - 1);
        lemma_loaded_neighbors_within(m, p, nd - 1, offset_pos(p, nd - 1));
        let prev = loaded_neighbors(m, p, nd - 1);
        if m.contains_key(offset_pos(p, nd - 1)) {
            assert(!neighbor_within(p, offset_pos(p, nd - 1), nd - 1));
            assert(!prev.contains(offset_pos(p, nd - 1)));
            let cur = prev.push(offset_pos(p, nd - 1));
            assert forall|i: int, j: int| 0 <= i < j < cur.len() implies cur[i] != cur[j] by {
                if j == prev.len() {
                    assert(prev[i] == cur[i]);
                }
            }
        }
    }
}

} // verus!
