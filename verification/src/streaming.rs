use vstd::prelude::*;

use std::collections::{HashMap, VecDeque};
use vstd::std_specs::iter::IteratorSpec;

use crate::world_manager::{chunk_key, key_of, lemma_key_injective, neighbors_in_range, offset_pos, unload_all, ChunkPos, WorldManager};

verus! {

broadcast use vstd::std_specs::hash::group_hash_axioms;

/// Chunks kept loaded in each horizontal direction around the camera chunk.
pub const RENDER_DISTANCE: i32 = 16;
/// Exclusive upper bound of the vertical chunk coordinate.
pub const WORLD_HEIGHT: i32 = 3;
/// Depth of the world in chunks: the vertical chunk coordinate starts at `-WORLD_DEPTH`.
pub const WORLD_DEPTH: i32 = 4;
/// Chunks generated per frame at most.
pub const GEN_BUDGET_PER_FRAME: usize = 32;
/// Extra dirty chunks re-meshed per frame at most.
pub const MESH_BUDGET_PER_FRAME: usize = 16;

/// A set of chunk positions.
pub struct PosSet {
    map: HashMap<i128, ChunkPos>,
}

impl View for PosSet {
    type V = Set<ChunkPos>;

    closed spec fn view(&self) -> Set<ChunkPos> {
        Set::new(|p: ChunkPos| self.map@.contains_key(key_of(p)))
    }
}

impl PosSet {
    /// Every position is stored under its own key.
    pub closed spec fn wf(&self) -> bool {
        &&& self.map@.dom().finite()
        &&& forall|k: i128| #[trigger] self.map@.contains_key(k) ==> key_of(self.map@[k]) == k
    }

    proof fn lemma_view_dom(&self)
        requires
            self.wf(),
        ensures
            self@ == self.map@.dom().map(|k: i128| self.map@[k]),
            self@.finite(),
            self@.len() == self.map@.dom().len(),
    {
        let f = |k: i128| self.map@[k];
        let d = self.map@.dom();
        assert forall|p: ChunkPos| #[trigger] self@.contains(p) == d.map(f).contains(p) by {
            if self@.contains(p) {
                lemma_key_injective(p, self.map@[key_of(p)]);
                assert(f(key_of(p)) == p);
            }
            if d.map(f).contains(p) {
                let k = choose|k: i128| d.contains(k) && f(k) == p;
                assert(key_of(p) == k);
            }
        }
        assert(self@ =~= d.map(f));
        assert forall|a: i128, b: i128| d.contains(a) && d.contains(b) && #[trigger] f(a) == #[trigger] f(b) implies a == b by {}
        vstd::set_lib::lemma_map_size(d, self@, f);
    }

    /// The empty set.
    pub fn new() -> (s: Self)
        ensures
            s.wf(),
            s@ == Set::<ChunkPos>::empty(),
    {
        let s = PosSet { map: HashMap::new() };
        assert(s@ =~= Set::<ChunkPos>::empty());
        s
    }

    /// Whether `p` is in the set.
    pub fn contains(&self, p: ChunkPos) -> (r: bool)
        requires
            self.wf(),
        ensures
            r == self@.contains(p),
    {
        self.map.contains_key(&chunk_key(p))
    }

    /// Adds `p`.
    pub fn insert(&mut self, p: ChunkPos)
        requires
            old(self).wf(),
        ensures
            final(self).wf(),
            final(self)@ == old(self)@.insert(p),
    {
        let k = chunk_key(p);
        self.map.insert(k, p);
        assert forall|q: ChunkPos| #[trigger] self@.contains(q) == old(self)@.insert(p).contains(q) by {
            lemma_key_injective(p, q);
        }
        assert(self@ =~= old(self)@.insert(p));
    }

    /// Removes `p`.
    pub fn remove(&mut self, p: ChunkPos)
        requires
            old(self).wf(),
        ensures
            final(self).wf(),
            final(self)@ == old(self)@.remove(p),
    {
        let k = chunk_key(p);
        self.map.remove(&k);
        assert forall|q: ChunkPos| #[trigger] self@.contains(q) == old(self)@.remove(p).contains(q) by {
            lemma_key_injective(p, q);
        }
        assert(self@ =~= old(self)@.remove(p));
    }

    /// Removes every position.
    pub fn clear(&mut self)
        ensures
            final(self).wf(),
            final(self)@ == Set::<ChunkPos>::empty(),
    {
        self.map.clear();
        assert(self@ =~= Set::<ChunkPos>::empty());
    }

    /// Number of positions.
    pub fn len(&self) -> (n: usize)
        requires
            self.wf(),
        ensures
            n == self@.len(),
            self@.finite(),
    {
        proof {
            self.lemma_view_dom();
        }
        self.map.len()
    }

    /// The positions, each once, in no particular order.
    pub fn to_vec(&self) -> (r: Vec<ChunkPos>)
        requires
            self.wf(),
        ensures
            r@.no_duplicates(),
            r@.to_set() == self@,
    {
        let mut r: Vec<ChunkPos> = Vec::new();
        let ghost s = self.map.iter().remaining();
        let ghost mut n: int = 0;
        for (k, p) in it: self.map.iter()
            invariant
                s == it.seq(),
                n == it.index(),
                self.wf(),
                it.seq().no_duplicates(),
                forall|i: int| 0 <= i < it.seq().len() ==> #[trigger] self.map@.contains_key(*it.seq()[i].0) && self.map@[*it.seq()[i].0] == *it.seq()[i].1,
                forall|k: i128| #[trigger] self.map@.contains_key(k) ==> it.seq().contains((&k, &self.map@[k])),
                r@.no_duplicates(),
                r.len() == n,
                forall|i: int| 0 <= i < n ==> #[trigger] r@[i] == *it.seq()[i].1,
        {
            let ghost idx = it.index();
            assert(it.seq()[idx as int] == (k, p));
            assert(self.map@.contains_key(*k));
            assert forall|i: int| 0 <= i < idx implies #[trigger] r@[i] != *p by {
                let e = it.seq()[i];
                assert(self.map@.contains_key(*e.0));
                if *e.1 == *p {
                    assert(*e.0 == *k);
                    assert(e == it.seq()[idx as int]);
                }
            }
            r.push(*p);
            proof {
                n = n + 1;
            }
        }
        assert forall|q: ChunkPos| #[trigger] r@.contains(q) <==> self@.contains(q) by {
            if r@.contains(q) {
                let i = choose|i: int| 0 <= i < r.len() && r@[i] == q;
                assert(self.map@.contains_key(*s[i].0));
                assert(key_of(q) == *s[i].0);
            }
            if self@.contains(q) {
                let key = key_of(q);
                assert(self.map@.contains_key(key));
                assert(s.contains((&key, &self.map@[key])));
                let i = choose|i: int| 0 <= i < s.len() && s[i] == (&key, &self.map@[key]);
                lemma_key_injective(q, self.map@[key]);
                assert(r@[i] == q);
            }
        }
        assert(r@.to_set() =~= self@);
        r
    }
}


/// `p` lies within the render distance of the camera column `(cam_cx, cam_cz)` and within
/// the vertical range of the world.
pub open spec fn in_render_range(cam_cx: int, cam_cz: int, p: ChunkPos) -> bool {
    &&& -WORLD_DEPTH <= p.1 < WORLD_HEIGHT
    &&& cam_cx - RENDER_DISTANCE <= p.0 <= cam_cx + RENDER_DISTANCE
    &&& cam_cz - RENDER_DISTANCE <= p.2 <= cam_cz + RENDER_DISTANCE
}

/// The chunks that should be loaded around the camera column `(cam_cx, cam_cz)`.
pub open spec fn desired_set(cam_cx: int, cam_cz: int) -> Set<ChunkPos> {
    Set::new(|p: ChunkPos| in_render_range(cam_cx, cam_cz, p))
}

/// The camera column is far enough from the coordinate limits for every desired chunk and
/// its neighbours to be representable.
pub open spec fn camera_in_range(cam_cx: int, cam_cz: int) -> bool {
    &&& i32::MIN + RENDER_DISTANCE + 1 <= cam_cx <= i32::MAX - RENDER_DISTANCE - 1
    &&& i32::MIN + RENDER_DISTANCE + 1 <= cam_cz <= i32::MAX - RENDER_DISTANCE - 1
}

/// Every chunk within the render distance of the camera column has representable coordinates.
pub open spec fn render_range_representable(cam_cx: int, cam_cz: int) -> bool {
    &&& i32::MIN + RENDER_DISTANCE <= cam_cx <= i32::MAX - RENDER_DISTANCE
    &&& i32::MIN + RENDER_DISTANCE <= cam_cz <= i32::MAX - RENDER_DISTANCE
}

/// All chunk positions within the render distance of the camera column, across the
/// world's vertical range.
pub fn compute_desired_set(cam_cx: i32, cam_cz: i32) -> (set: PosSet)
    requires
        render_range_representable(cam_cx as int, cam_cz as int),
    ensures
        set.wf(),
        set@ == desired_set(cam_cx as int, cam_cz as int),
        set@.finite(),
        set@.len() == (WORLD_HEIGHT + WORLD_DEPTH) * (2 * RENDER_DISTANCE + 1) * (2 * RENDER_DISTANCE + 1),
{
    let mut set = PosSet::new();
    assert(set@ =~= Set::new(|p: ChunkPos| in_render_range(cam_cx as int, cam_cz as int, p) && p.1 < -WORLD_DEPTH));
    let mut cy: i32 = -WORLD_DEPTH;
    while cy < WORLD_HEIGHT
        invariant
            render_range_representable(cam_cx as int, cam_cz as int),
            -WORLD_DEPTH <= cy <= WORLD_HEIGHT,
            set.wf(),
            set@ == Set::new(|p: ChunkPos| in_render_range(cam_cx as int, cam_cz as int, p) && p.1 < cy),
            set@.finite(),
            set@.len() == (cy + 4) * 1089,
        decreases WORLD_HEIGHT - cy,
    {
        let mut dz: i32 = -RENDER_DISTANCE;
        assert(set@ =~= Set::new(|p: ChunkPos| in_render_range(cam_cx as int, cam_cz as int, p) && (p.1 < cy || (p.1 == cy && p.2 < cam_cz + dz))));
        while dz <= RENDER_DISTANCE
            invariant
                render_range_representable(cam_cx as int, cam_cz as int),
                -WORLD_DEPTH <= cy < WORLD_HEIGHT,
                -RENDER_DISTANCE <= dz <= RENDER_DISTANCE + 1,
                set.wf(),
                set@ == Set::new(|p: ChunkPos| in_render_range(cam_cx as int, cam_cz as int, p) && (p.1 < cy || (p.1 == cy && p.2 < cam_cz + dz))),
                set@.finite(),
                set@.len() == (cy + 4) * 1089 + (dz + 16) * 33,
            decreases RENDER_DISTANCE + 1 - dz,
        {
            let mut dx: i32 = -RENDER_DISTANCE;
            assert(set@ =~= Set::new(|p: ChunkPos| in_render_range(cam_cx as int, cam_cz as int, p) && (p.1 < cy || (p.1 == cy && (p.2 < cam_cz + dz || (p.2 == cam_cz + dz && p.0 < cam_cx + dx))))));
            while dx <= RENDER_DISTANCE
                invariant
                    render_range_representable(cam_cx as int, cam_cz as int),
                    -WORLD_DEPTH <= cy < WORLD_HEIGHT,
                    -RENDER_DISTANCE <= dz <= RENDER_DISTANCE,
                    -RENDER_DISTANCE <= dx <= RENDER_DISTANCE + 1,
                    set.wf(),
                    set@ == Set::new(|p: ChunkPos| in_render_range(cam_cx as int, cam_cz as int, p) && (p.1 < cy || (p.1 == cy && (p.2 < cam_cz + dz || (p.2 == cam_cz + dz && p.0 < cam_cx + dx))))),
                    set@.finite(),
                    set@.len() == (cy + 4) * 1089 + (dz + 16) * 33 + (dx + 16),
                decreases RENDER_DISTANCE + 1 - dx,
            {
                assert(!set@.contains(((cam_cx + dx) as i32, cy, (cam_cz + dz) as i32)));
                set.insert((cam_cx + dx, cy, cam_cz + dz));
                assert(set@ =~= Set::new(|p: ChunkPos| in_render_range(cam_cx as int, cam_cz as int, p) && (p.1 < cy || (p.1 == cy && (p.2 < cam_cz + dz || (p.2 == cam_cz + dz && p.0 < cam_cx + dx + 1))))));
                dx = dx + 1;
            }
            assert(set@ =~= Set::new(|p: ChunkPos| in_render_range(cam_cx as int, cam_cz as int, p) && (p.1 < cy || (p.1 == cy && p.2 < cam_cz + dz + 1))));
            dz = dz + 1;
        }
        assert(set@ =~= Set::new(|p: ChunkPos| in_render_range(cam_cx as int, cam_cz as int, p) && p.1 < cy + 1));
        cy = cy + 1;
    }
    assert(set@ =~= desired_set(cam_cx as int, cam_cz as int));
    assert((WORLD_HEIGHT + WORLD_DEPTH) * (2 * RENDER_DISTANCE + 1) * (2 * RENDER_DISTANCE + 1) == 7 * 1089) by (nonlinear_arith);
    set
}


/// Distance used to order chunk loading: the Manhattan distance between chunk positions.
pub open spec fn chunk_distance(p: ChunkPos, cam: ChunkPos) -> int {
    let dx = p.0 - cam.0;
    let dy = p.1 - cam.1;
    let dz = p.2 - cam.2;
    (if dx < 0 { -dx } else { dx }) + (if dy < 0 { -dy } else { dy }) + (if dz < 0 { -dz } else { dz })
}

/// Manhattan distance between chunk positions.
pub fn chunk_distance_of(p: ChunkPos, cam: ChunkPos) -> (d: i64)
    ensures
        d == chunk_distance(p, cam),
{
    let dx = p.0 as i64 - cam.0 as i64;
    let dy = p.1 as i64 - cam.1 as i64;
    let dz = p.2 as i64 - cam.2 as i64;
    (if dx < 0 { -dx } else { dx }) + (if dy < 0 { -dy } else { dy }) + (if dz < 0 { -dz } else { dz })
}

/// The loading distance is a metric on chunk positions that grows by exactly one per step
/// across a face: it is zero only at the camera chunk, symmetric, and each of the six
/// neighbours of a chunk is one closer or one farther from the camera than the chunk itself.
pub proof fn lemma_distance_steps(p: ChunkPos, q: ChunkPos, cam: ChunkPos)
    ensures
        chunk_distance(p, cam) >= 0,
        chunk_distance(p, cam) == 0 <==> p == cam,
        chunk_distance(p, cam) == chunk_distance(cam, p),
        chunk_distance(p, cam) <= chunk_distance(p, q) + chunk_distance(q, cam),
        neighbors_in_range(p) ==> forall|d: int|
            0 <= d < 6 ==> #[trigger] chunk_distance(offset_pos(p, d), cam) == chunk_distance(p, cam) + 1
                || chunk_distance(offset_pos(p, d), cam) == chunk_distance(p, cam) - 1,
{
}

/// `s` is ordered by non-decreasing distance to `cam`.
pub open spec fn sorted_by_distance(s: Seq<ChunkPos>, cam: ChunkPos) -> bool {
    forall|i: int, j: int| 0 <= i <= j < s.len() ==> chunk_distance(#[trigger] s[i], cam) <= chunk_distance(#[trigger] s[j], cam)
}

/// Sorts with std's `slice::sort_by_key`, keyed by the distance to `cam`: the result holds
/// the same positions, in non-decreasing order of distance. That the sort is stable, which
/// std also documents, is not stated.
#[verifier::external_body]
fn sort_by_distance(v: &mut Vec<ChunkPos>, cam: ChunkPos)
    ensures
        final(v)@.to_multiset() == old(v)@.to_multiset(),
        sorted_by_distance(final(v)@, cam),
{
    v.sort_by_key(|p| chunk_distance_of(*p, cam));
}

proof fn lemma_same_multiset_same_elements(a: Seq<ChunkPos>, b: Seq<ChunkPos>)
    requires
        a.to_multiset() == b.to_multiset(),
        a.no_duplicates(),
    ensures
        b.no_duplicates(),
        b.to_set() == a.to_set(),
{
    broadcast use vstd::seq_lib::group_to_multiset_ensures;

    a.lemma_multiset_has_no_duplicates();
    b.lemma_multiset_has_no_duplicates_conv();
    assert forall|x: ChunkPos| #[trigger] b.to_set().contains(x) == a.to_set().contains(x) by {
        assert(a.contains(x) <==> a.to_multiset().count(x) > 0);
        assert(b.contains(x) <==> b.to_multiset().count(x) > 0);
    }
    assert(b.to_set() =~= a.to_set());
}


/// The first `budget` elements of `s` that are not in `excluded`, in order.
pub open spec fn first_outside(s: Seq<ChunkPos>, excluded: Set<ChunkPos>, budget: int) -> Seq<ChunkPos>
    decreases s.len(),
{
    if budget <= 0 || s.len() == 0 {
        Seq::empty()
    } else if excluded.contains(s[0]) {
        first_outside(s.drop_first(), excluded, budget)
    } else {
        seq![s[0]] + first_outside(s.drop_first(), excluded, budget - 1)
    }
}

/// How many elements of `s` are read from the front to collect `first_outside(s, excluded, budget)`.
pub open spec fn consumed_for(s: Seq<ChunkPos>, excluded: Set<ChunkPos>, budget: int) -> int
    decreases s.len(),
{
    if budget <= 0 || s.len() == 0 {
        0
    } else if excluded.contains(s[0]) {
        1 + consumed_for(s.drop_first(), excluded, budget)
    } else {
        1 + consumed_for(s.drop_first(), excluded, budget - 1)
    }
}

proof fn lemma_consumed_bound(s: Seq<ChunkPos>, excluded: Set<ChunkPos>, budget: int)
    ensures
        0 <= consumed_for(s, excluded, budget) <= s.len(),
    decreases s.len(),
{
    if budget > 0 && s.len() > 0 {
        if excluded.contains(s[0]) {
            lemma_consumed_bound(s.drop_first(), excluded, budget);
        } else {
            lemma_consumed_bound(s.drop_first(), excluded, budget - 1);
        }
    }
}

/// Membership test for positions outside `excluded`.
pub open spec fn outside(excluded: Set<ChunkPos>) -> spec_fn(ChunkPos) -> bool {
    |p: ChunkPos| !excluded.contains(p)
}

proof fn lemma_filter_cons(a: ChunkPos, rest: Seq<ChunkPos>, pred: spec_fn(ChunkPos) -> bool)
    ensures
        (seq![a] + rest).filter(pred) == (if pred(a) { seq![a] + rest.filter(pred) } else { rest.filter(pred) }),
{
    Seq::filter_distributes_over_add(seq![a], rest, pred);
    reveal_with_fuel(Seq::filter, 2);
    assert(seq![a].drop_last() =~= Seq::<ChunkPos>::empty());
    assert(Seq::<ChunkPos>::empty().filter(pred) =~= Seq::<ChunkPos>::empty());
    assert(seq![a].filter(pred) =~= (if pred(a) { seq![a] } else { Seq::<ChunkPos>::empty() }));
    assert(Seq::<ChunkPos>::empty() + rest.filter(pred) =~= rest.filter(pred));
}

/// Taking a budgeted batch from the front of a queue reads a prefix of the queue and keeps
/// exactly the positions of that prefix that are not excluded, in order: nothing outside
/// `excluded` is dropped unreturned. The batch holds at most `budget` positions; when it
/// holds fewer the whole queue was read, and when it is full the read stops right after its
/// last position. With no budget nothing is read.
pub proof fn lemma_batch_reads_prefix(s: Seq<ChunkPos>, excluded: Set<ChunkPos>, budget: int)
    ensures
        ({
            let n = consumed_for(s, excluded, budget);
            let b = first_outside(s, excluded, budget);
            &&& 0 <= n <= s.len()
            &&& b == s.take(n).filter(outside(excluded))
            &&& budget <= 0 ==> n == 0
            &&& b.len() <= if budget < 0 { 0 } else { budget }
            &&& b.len() < budget ==> n == s.len()
            &&& 0 < budget && b.len() == budget ==> !excluded.contains(s[n - 1])
        }),
    decreases s.len(),
{
    let n = consumed_for(s, excluded, budget);
    if budget <= 0 || s.len() == 0 {
        assert(s.take(0) =~= Seq::<ChunkPos>::empty());
        reveal(Seq::filter);
        assert(Seq::<ChunkPos>::empty().filter(outside(excluded)) =~= Seq::<ChunkPos>::empty());
    } else {
        let rest = s.drop_first();
        let b2 = if excluded.contains(s[0]) { budget } else { budget - 1 };
        lemma_batch_reads_prefix(rest, excluded, b2);
        let n2 = consumed_for(rest, excluded, b2);
        assert(s.take(n) =~= seq![s[0]] + rest.take(n2));
        lemma_filter_cons(s[0], rest.take(n2), outside(excluded));
        if !excluded.contains(s[0]) && b2 == 0 {
            assert(n2 == 0);
        }
        if n2 > 0 {
            assert(s[n - 1] == rest[n2 - 1]);
        }
    }
}

/// The chunks to mesh this frame: the newly generated `batch`, then at most `budget` of the
/// `dirty` chunks that are not in the batch, in the order given.
pub fn mesh_queue(batch: &Vec<ChunkPos>, dirty: &Vec<ChunkPos>, budget: usize) -> (queue: Vec<ChunkPos>)
    ensures
        queue@ == batch@ + first_outside(dirty@, batch@.to_set(), budget as int),
{
    let mut batch_set = PosSet::new();
    let mut queue: Vec<ChunkPos> = Vec::new();
    let mut b: usize = 0;
    while b < batch.len()
        invariant
            0 <= b <= batch@.len(),
            batch_set.wf(),
            batch_set@ == batch@.take(b as int).to_set(),
            queue@ == batch@.take(b as int),
        decreases batch@.len() - b,
    {
        proof {
            batch@.take(b as int).lemma_push_to_set_commute(batch@[b as int]);
            assert(batch@.take(b as int + 1) =~= batch@.take(b as int).push(batch@[b as int]));
        }
        batch_set.insert(batch[b]);
        queue.push(batch[b]);
        b = b + 1;
    }
    assert(batch@.take(batch@.len() as int) =~= batch@);
    let ghost bs = batch@.to_set();
    let mut extra: usize = 0;
    let mut i: usize = 0;
    assert(dirty@.skip(0) =~= dirty@);
    assert(queue@ =~= batch@ + Seq::<ChunkPos>::empty());
    while i < dirty.len() && extra < budget
        invariant
            0 <= i <= dirty@.len(),
            0 <= extra <= budget,
            batch_set.wf(),
            batch_set@ == bs,
            queue@.len() == batch@.len() + extra,
            queue@ + first_outside(dirty@.skip(i as int), bs, budget - extra) == batch@ + first_outside(dirty@, bs, budget as int),
        decreases dirty@.len() - i,
    {
        let p = dirty[i];
        assert(dirty@.skip(i as int).drop_first() =~= dirty@.skip(i as int + 1));
        assert(dirty@.skip(i as int)[0] == p);
        if !batch_set.contains(p) {
            let ghost q0 = queue@;
            queue.push(p);
            assert(q0 + first_outside(dirty@.skip(i as int), bs, budget - extra) =~= queue@ + first_outside(dirty@.skip(i as int + 1), bs, budget - extra - 1));
            extra = extra + 1;
        }
        i = i + 1;
    }
    queue
}

/// Chunk-streaming state: the ordered queue of chunks waiting to be generated, the set of
/// chunks loaded by streaming, and the camera chunk of the last update.
pub struct StreamingState {
    pending_queue: VecDeque<ChunkPos>,
    loaded_chunks: PosSet,
    last_cam_chunk: Option<ChunkPos>,
}

impl StreamingState {
    /// Chunks waiting to be generated, closest first.
    pub closed spec fn pending(&self) -> Seq<ChunkPos> {
        self.pending_queue@
    }

    /// Chunks loaded by streaming.
    pub closed spec fn loaded(&self) -> Set<ChunkPos> {
        self.loaded_chunks@
    }

    /// Camera chunk of the last update, if any.
    pub closed spec fn last_cam(&self) -> Option<ChunkPos> {
        self.last_cam_chunk
    }

    /// Every tracked position has representable neighbours.
    pub closed spec fn wf(&self) -> bool {
        &&& self.loaded_chunks.wf()
        &&& forall|p: ChunkPos| #[trigger] self.loaded_chunks@.contains(p) ==> neighbors_in_range(p)
        &&& forall|i: int| 0 <= i < self.pending_queue@.len() ==> neighbors_in_range(#[trigger] self.pending_queue@[i])
    }

    /// Nothing loaded, nothing pending, no camera seen yet.
    pub fn new() -> (s: Self)
        ensures
            s.wf(),
            s.pending() == Seq::<ChunkPos>::empty(),
            s.loaded() == Set::<ChunkPos>::empty(),
            s.last_cam() is None,
    {
        StreamingState { pending_queue: VecDeque::new(), loaded_chunks: PosSet::new(), last_cam_chunk: None }
    }

    /// The chunks loaded by streaming.
    pub fn loaded_chunks(&self) -> (s: &PosSet)
        requires
            self.wf(),
        ensures
            s.wf(),
            s@ == self.loaded(),
    {
        &self.loaded_chunks
    }

    /// The camera chunk of the last streaming update, if any.
    pub fn last_cam_chunk(&self) -> (r: Option<ChunkPos>)
        ensures
            r == self.last_cam(),
    {
        self.last_cam_chunk
    }

    /// Forgets everything, as when the world is regenerated.
    pub fn reset(&mut self)
        ensures
            final(self).wf(),
            final(self).pending() == Seq::<ChunkPos>::empty(),
            final(self).loaded() == Set::<ChunkPos>::empty(),
            final(self).last_cam() is None,
    {
        self.pending_queue.clear();
        self.loaded_chunks.clear();
        self.last_cam_chunk = None;
    }

    /// Reacts to the camera entering chunk `cam`: when it differs from the camera chunk of the
    /// last update, unloads (from the streaming set and from `world`) every loaded chunk outside
    /// the render range, and replaces the pending queue with the desired chunks not yet loaded,
    /// closest first. Returns the unloaded positions. Nothing changes when the camera chunk is
    /// the same as last time.
    pub fn update_streaming(&mut self, world: &mut WorldManager, cam: ChunkPos) -> (unloaded: Vec<ChunkPos>)
        requires
            old(self).wf(),
            old(world).wf(),
            old(self).last_cam() != Some(cam) ==> camera_in_range(cam.0 as int, cam.2 as int),
        ensures
            final(self).wf(),
            final(world).wf(),
            final(world).terrain_generator() == old(world).terrain_generator(),
            old(self).last_cam() == Some(cam) ==> {
                &&& final(self).pending() == old(self).pending()
                &&& final(self).loaded() == old(self).loaded()
                &&& final(self).last_cam() == old(self).last_cam()
                &&& final(world)@ == old(world)@
                &&& unloaded@.len() == 0
            },
            old(self).last_cam() != Some(cam) ==> {
                let desired = desired_set(cam.0 as int, cam.2 as int);
                &&& final(self).last_cam() == Some(cam)
                &&& final(self).loaded() == old(self).loaded().intersect(desired)
                &&& unloaded@.no_duplicates()
                &&& unloaded@.to_set() == old(self).loaded().difference(desired)
                &&& final(world)@ == unload_all(old(world)@, unloaded@)
                &&& final(self).pending().no_duplicates()
                &&& final(self).pending().to_set() == desired.difference(old(self).loaded())
                &&& sorted_by_distance(final(self).pending(), cam)
            },
    {
        let same = match self.last_cam_chunk {
            Some(c) => c.0 == cam.0 && c.1 == cam.1 && c.2 == cam.2,
            None => false,
        };
        if same {
            return Vec::new();
        }
        self.last_cam_chunk = Some(cam);
        let desired = compute_desired_set(cam.0, cam.2);
        let loaded_list = self.loaded_chunks.to_vec();
        let mut unloaded: Vec<ChunkPos> = Vec::new();
        let ghost w0 = world@;
        let ghost l0 = self.loaded_chunks@;
        let ghost ds = desired_set(cam.0 as int, cam.2 as int);
        assert(loaded_list@.take(0) =~= Seq::<ChunkPos>::empty());
        assert(l0.difference(unloaded@.to_set()) =~= l0);
        let mut i: usize = 0;
        while i < loaded_list.len()
            invariant
                0 <= i <= loaded_list@.len(),
                loaded_list@.no_duplicates(),
                loaded_list@.to_set() == l0,
                desired.wf(),
                desired@ == ds,
                forall|p: ChunkPos| #[trigger] l0.contains(p) ==> neighbors_in_range(p),
                self.loaded_chunks.wf(),
                forall|j: int| 0 <= j < self.pending_queue@.len() ==> neighbors_in_range(#[trigger] self.pending_queue@[j]),
                self.last_cam_chunk == Some(cam),
                world.wf(),
                world.terrain_generator() == old(world).terrain_generator(),
                unloaded@.no_duplicates(),
                unloaded@.to_set() == loaded_list@.take(i as int).to_set().difference(ds),
                self.loaded_chunks@ == l0.difference(unloaded@.to_set()),
                world@ == unload_all(w0, unloaded@),
            decreases loaded_list@.len() - i,
        {
            let p = loaded_list[i];
            proof {
                loaded_list@.take(i as int).lemma_push_to_set_commute(p);
                assert(loaded_list@.take(i as int + 1) =~= loaded_list@.take(i as int).push(p));
                assert(loaded_list@.to_set().contains(p));
                assert(!loaded_list@.take(i as int).contains(p)) by {
                    if loaded_list@.take(i as int).contains(p) {
                        let j = choose|j: int| 0 <= j < i && loaded_list@.take(i as int)[j] == p;
                        assert(loaded_list@[j] == loaded_list@[i as int]);
                    }
                }
            }
            if !desired.contains(p) {
                let ghost u0 = unloaded@;
                self.loaded_chunks.remove(p);
                world.unload_chunk(p.0, p.1, p.2);
                unloaded.push(p);
                proof {
                    u0.lemma_push_to_set_commute(p);
                    assert(!u0.contains(p)) by {
                        assert(!u0.to_set().contains(p));
                    }
                    assert(unloaded@.drop_last() =~= u0);
                    assert(unloaded@.to_set() =~= loaded_list@.take(i as int + 1).to_set().difference(ds));
                    assert(self.loaded_chunks@ =~= l0.difference(unloaded@.to_set()));
                }
            } else {
                assert(unloaded@.to_set() =~= loaded_list@.take(i as int + 1).to_set().difference(ds));
            }
            i = i + 1;
        }
        proof {
            assert(loaded_list@.take(loaded_list@.len() as int) =~= loaded_list@);
            assert(self.loaded_chunks@ =~= l0.intersect(ds));
        }
        let ghost l1 = self.loaded_chunks@;
        let desired_list = desired.to_vec();
        let mut load_list: Vec<ChunkPos> = Vec::new();
        assert(desired_list@.take(0) =~= Seq::<ChunkPos>::empty());
        let mut j: usize = 0;
        while j < desired_list.len()
            invariant
                0 <= j <= desired_list@.len(),
                desired_list@.no_duplicates(),
                desired_list@.to_set() == ds,
                self.loaded_chunks.wf(),
                self.loaded_chunks@ == l1,
                self.last_cam_chunk == Some(cam),
                load_list@.no_duplicates(),
                load_list@.to_set() == desired_list@.take(j as int).to_set().difference(l1),
            decreases desired_list@.len() - j,
        {
            let p = desired_list[j];
            proof {
                desired_list@.take(j as int).lemma_push_to_set_commute(p);
                assert(desired_list@.take(j as int + 1) =~= desired_list@.take(j as int).push(p));
                assert(!desired_list@.take(j as int).contains(p)) by {
                    if desired_list@.take(j as int).contains(p) {
                        let k = choose|k: int| 0 <= k < j && desired_list@.take(j as int)[k] == p;
                        assert(desired_list@[k] == desired_list@[j as int]);
                    }
                }
            }
            if !self.loaded_chunks.contains(p) {
                let ghost v0 = load_list@;
                load_list.push(p);
                proof {
                    v0.lemma_push_to_set_commute(p);
                    assert(!v0.contains(p)) by {
                        assert(!v0.to_set().contains(p));
                    }
                    assert(load_list@.to_set() =~= desired_list@.take(j as int + 1).to_set().difference(l1));
                }
            } else {
                assert(load_list@.to_set() =~= desired_list@.take(j as int + 1).to_set().difference(l1));
            }
            j = j + 1;
        }
        proof {
            assert(desired_list@.take(desired_list@.len() as int) =~= desired_list@);
            assert(load_list@.to_set() =~= ds.difference(l0));
        }
        let ghost before_sort = load_list@;
        sort_by_distance(&mut load_list, cam);
        proof {
            lemma_same_multiset_same_elements(before_sort, load_list@);
        }
        self.pending_queue.clear();
        let mut k: usize = 0;
        while k < load_list.len()
            invariant
                0 <= k <= load_list@.len(),
                self.pending_queue@ == load_list@.take(k as int),
                self.loaded_chunks.wf(),
                self.loaded_chunks@ == l1,
                self.last_cam_chunk == Some(cam),
            decreases load_list@.len() - k,
        {
            self.pending_queue.push_back(load_list[k]);
            assert(self.pending_queue@ =~= load_list@.take(k as int + 1));
            k = k + 1;
        }
        proof {
            assert(load_list@.take(load_list@.len() as int) =~= load_list@);
            assert forall|p: ChunkPos| #[trigger] self.loaded_chunks@.contains(p) implies neighbors_in_range(p) by {
                assert(l0.contains(p));
            }
            assert forall|q: int| 0 <= q < self.pending_queue@.len() implies neighbors_in_range(#[trigger] self.pending_queue@[q]) by {
                assert(load_list@.to_set().contains(self.pending_queue@[q]));
            }
        }
        unloaded
    }

    /// Takes up to `budget` positions from the front of the pending queue, skipping (and
    /// dropping) those already loaded.
    pub fn next_batch(&mut self, budget: usize) -> (batch: Vec<ChunkPos>)
        requires
            old(self).wf(),
        ensures
            final(self).wf(),
            batch@ == first_outside(old(self).pending(), old(self).loaded(), budget as int),
            final(self).pending() == old(self).pending().skip(consumed_for(old(self).pending(), old(self).loaded(), budget as int)),
            final(self).loaded() == old(self).loaded(),
            final(self).last_cam() == old(self).last_cam(),
            forall|i: int| 0 <= i < batch@.len() ==> neighbors_in_range(#[trigger] batch@[i]),
            ({
                let k = old(self).pending().len() - final(self).pending().len();
                &&& 0 <= k
                &&& final(self).pending() == old(self).pending().skip(k)
                &&& batch@ == old(self).pending().take(k).filter(outside(old(self).loaded()))
                &&& batch@.len() <= budget
                &&& batch@.len() < budget ==> final(self).pending().len() == 0
                &&& 0 < budget && batch@.len() == budget ==> !old(self).loaded().contains(old(self).pending()[k - 1])
            }),
    {
        let ghost q0 = self.pending_queue@;
        proof {
            lemma_batch_reads_prefix(q0, self.loaded_chunks@, budget as int);
        }
        let ghost ld = self.loaded_chunks@;
        let mut batch: Vec<ChunkPos> = Vec::new();
        let ghost mut consumed: int = 0;
        proof {
            lemma_consumed_bound(q0, ld, budget as int);
        }
        assert(q0.skip(0) =~= q0);
        assert(batch@ + first_outside(q0, ld, budget as int) =~= first_outside(q0, ld, budget as int));
        while batch.len() < budget && self.pending_queue.len() > 0
            invariant
                self.loaded_chunks.wf(),
                self.loaded_chunks@ == ld,
                self.last_cam_chunk == old(self).last_cam_chunk,
                forall|p: ChunkPos| #[trigger] self.loaded_chunks@.contains(p) ==> neighbors_in_range(p),
                forall|j: int| 0 <= j < q0.len() ==> neighbors_in_range(#[trigger] q0[j]),
                0 <= consumed <= q0.len(),
                self.pending_queue@ == q0.skip(consumed),
                batch@.len() <= budget,
                batch@ + first_outside(self.pending_queue@, ld, budget - batch@.len()) == first_outside(q0, ld, budget as int),
                consumed + consumed_for(self.pending_queue@, ld, budget - batch@.len()) == consumed_for(q0, ld, budget as int),
                forall|i: int| 0 <= i < batch@.len() ==> neighbors_in_range(#[trigger] batch@[i]),
            decreases self.pending_queue@.len(),
        {
            let ghost rest = self.pending_queue@;
            match self.pending_queue.pop_front() {
                Some(p) => {
                    assert(rest[0] == p && rest.drop_first() == self.pending_queue@);
                    assert(q0.skip(consumed + 1) =~= rest.drop_first());
                    assert(q0[consumed] == p);
                    if !self.loaded_chunks.contains(p) {
                        let ghost b0 = batch@;
                        batch.push(p);
                        assert(b0 + first_outside(rest, ld, budget - b0.len()) =~= batch@ + first_outside(self.pending_queue@, ld, budget - batch@.len()));
                    }
                    proof {
                        consumed = consumed + 1;
                    }
                },
                None => {},
            }
        }
        assert(first_outside(self.pending_queue@, ld, budget - batch@.len()) =~= Seq::<ChunkPos>::empty());
        assert(batch@ =~= batch@ + Seq::<ChunkPos>::empty());
        proof {
            assert forall|j: int| 0 <= j < self.pending_queue@.len() implies neighbors_in_range(#[trigger] self.pending_queue@[j]) by {
                assert(self.pending_queue@[j] == q0[consumed + j]);
            }
        }
        batch
    }

    /// Records the positions of `batch` as loaded.
    pub fn mark_loaded(&mut self, batch: &Vec<ChunkPos>)
        requires
            old(self).wf(),
            forall|i: int| 0 <= i < batch@.len() ==> neighbors_in_range(#[trigger] batch@[i]),
        ensures
            final(self).wf(),
            final(self).loaded() == old(self).loaded().union(batch@.to_set()),
            final(self).pending() == old(self).pending(),
            final(self).last_cam() == old(self).last_cam(),
    {
        let ghost l0 = self.loaded_chunks@;
        let mut i: usize = 0;
        assert(batch@.take(0) =~= Seq::<ChunkPos>::empty());
        assert(l0.union(batch@.take(0).to_set()) =~= l0);
        while i < batch.len()
            invariant
                0 <= i <= batch@.len(),
                forall|j: int| 0 <= j < batch@.len() ==> neighbors_in_range(#[trigger] batch@[j]),
                self.loaded_chunks.wf(),
                self.loaded_chunks@ == l0.union(batch@.take(i as int).to_set()),
                forall|p: ChunkPos| #[trigger] self.loaded_chunks@.contains(p) ==> neighbors_in_range(p),
                forall|j: int| 0 <= j < self.pending_queue@.len() ==> neighbors_in_range(#[trigger] self.pending_queue@[j]),
                self.pending_queue@ == old(self).pending_queue@,
                self.last_cam_chunk == old(self).last_cam_chunk,
            decreases batch@.len() - i,
        {
            proof {
                batch@.take(i as int).lemma_push_to_set_commute(batch@[i as int]);
                assert(batch@.take(i as int + 1) =~= batch@.take(i as int).push(batch@[i as int]));
            }
            self.loaded_chunks.insert(batch[i]);
            assert(self.loaded_chunks@ =~= l0.union(batch@.take(i as int + 1).to_set()));
            i = i + 1;
        }
        assert(batch@.take(batch@.len() as int) =~= batch@);
    }
}


/// A budgeted selection holds at most `budget` positions, none of them excluded, each taken
/// from `s`, in the order of `s` and without repeating any when `s` repeats none.
pub proof fn lemma_first_outside_props(s: Seq<ChunkPos>, excluded: Set<ChunkPos>, budget: int)
    ensures
        first_outside(s, excluded, budget).len() <= (if budget < 0 { 0 } else { budget }),
        forall|i: int|
            0 <= i < first_outside(s, excluded, budget).len() ==> !excluded.contains(#[trigger] first_outside(s, excluded, budget)[i])
                && s.contains(first_outside(s, excluded, budget)[i]),
        s.no_duplicates() ==> first_outside(s, excluded, budget).no_duplicates(),
    decreases s.len(),
{
    if budget > 0 && s.len() > 0 {
        let t = s.drop_first();
        let nb = if excluded.contains(s[0]) { budget } else { budget - 1 };
        lemma_first_outside_props(t, excluded, nb);
        let r = first_outside(t, excluded, nb);
        assert forall|i: int| 0 <= i < r.len() implies s.contains(#[trigger] r[i]) by {
            let k = choose|k: int| 0 <= k < t.len() && t[k] == r[i];
            assert(s[k + 1] == r[i]);
        }
        if !excluded.contains(s[0]) {
            let full = seq![s[0]] + r;
            assert forall|i: int| 0 <= i < full.len() implies !excluded.contains(#[trigger] full[i]) && s.contains(full[i]) by {
                if i > 0 {
                    assert(full[i] == r[i - 1]);
                } else {
                    assert(s[0] == full[0]);
                }
            }
            if s.no_duplicates() {
                assert(t.no_duplicates()) by {
                    assert forall|a: int, b: int| 0 <= a < t.len() && 0 <= b < t.len() && a != b implies t[a] != t[b] by {
                        assert(t[a] == s[a + 1] && t[b] == s[b + 1]);
                    }
                }
                assert forall|a: int, b: int| 0 <= a < full.len() && 0 <= b < full.len() && a != b implies full[a] != full[b] by {
                    if a == 0 && b > 0 {
                        let k = choose|k: int| 0 <= k < t.len() && t[k] == r[b - 1];
                        assert(s[k + 1] == full[b]);
                    } else if b == 0 && a > 0 {
                        let k = choose|k: int| 0 <= k < t.len() && t[k] == r[a - 1];
                        assert(s[k + 1] == full[a]);
                    } else if a > 0 && b > 0 {
                        assert(full[a] == r[a - 1] && full[b] == r[b - 1]);
                    }
                }
            }
        } else if s.no_duplicates() {
            assert(t.no_duplicates()) by {
                assert forall|a: int, b: int| 0 <= a < t.len() && 0 <= b < t.len() && a != b implies t[a] != t[b] by {
                    assert(t[a] == s[a + 1] && t[b] == s[b + 1]);
                }
            }
        }
    }
}

/// After a streaming update, the chunks kept loaded and the chunks queued for loading
/// partition the desired set: together they are exactly the desired chunks, and no pending
/// chunk is already loaded.
pub proof fn lemma_update_partitions_desired(loaded_before: Set<ChunkPos>, desired: Set<ChunkPos>)
    ensures
        loaded_before.intersect(desired).union(desired.difference(loaded_before)) == desired,
        loaded_before.intersect(desired).disjoint(desired.difference(loaded_before)),
{
    assert(loaded_before.intersect(desired).union(desired.difference(loaded_before)) =~= desired);
}

} // verus!
