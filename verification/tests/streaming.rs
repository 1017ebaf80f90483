use rustaria::streaming::{
    chunk_distance_of, compute_desired_set, mesh_queue, PosSet, StreamingState, GEN_BUDGET_PER_FRAME,
    MESH_BUDGET_PER_FRAME, RENDER_DISTANCE, WORLD_DEPTH, WORLD_HEIGHT,
};
use rustaria::world::TerrainSamples;
use rustaria::world_manager::WorldManager;

#[test]
fn constants() {
    assert_eq!(RENDER_DISTANCE, 16);
    assert_eq!(WORLD_HEIGHT, 3);
    assert_eq!(WORLD_DEPTH, 4);
    assert_eq!(GEN_BUDGET_PER_FRAME, 32);
    assert_eq!(MESH_BUDGET_PER_FRAME, 16);
}

#[test]
fn pos_set_basics() {
    let mut s = PosSet::new();
    assert_eq!(s.len(), 0);
    s.insert((1, -2, 3));
    s.insert((1, -2, 3));
    s.insert((i32::MIN, i32::MAX, 0));
    assert_eq!(s.len(), 2);
    assert!(s.contains((1, -2, 3)));
    assert!(!s.contains((3, -2, 1)));
    assert!(s.contains((i32::MIN, i32::MAX, 0)));
    s.remove((1, -2, 3));
    assert!(!s.contains((1, -2, 3)));
    let v = s.to_vec();
    assert_eq!(v, vec![(i32::MIN, i32::MAX, 0)]);
    s.clear();
    assert_eq!(s.len(), 0);
}

#[test]
fn desired_set_covers_render_range() {
    let s = compute_desired_set(10, -5);
    assert_eq!(s.len(), 7 * 33 * 33);
    assert!(s.contains((10 - 16, -4, -5 - 16)));
    assert!(s.contains((10 + 16, 2, -5 + 16)));
    assert!(!s.contains((10 + 17, 0, -5)));
    assert!(!s.contains((10, 3, -5)));
    assert!(!s.contains((10, -5, -5)));
}

#[test]
fn manhattan_distance() {
    assert_eq!(chunk_distance_of((1, 2, 3), (0, 0, 0)), 6);
    assert_eq!(chunk_distance_of((-1, 2, -3), (1, 0, 0)), 7);
    assert_eq!(chunk_distance_of((i32::MIN, 0, 0), (i32::MAX, 0, 0)), u32::MAX as i64);
}

#[test]
fn update_queues_desired_chunks_closest_first() {
    let mut st = StreamingState::new();
    let mut w = WorldManager::new(1);
    let unloaded = st.update_streaming(&mut w, (0, 0, 0));
    assert!(unloaded.is_empty());
    let batch = st.next_batch(7 * 33 * 33 + 10);
    assert_eq!(batch.len(), 7 * 33 * 33);
    assert_eq!(batch[0], (0, 0, 0));
    for pair in batch.windows(2) {
        assert!(chunk_distance_of(pair[0], (0, 0, 0)) <= chunk_distance_of(pair[1], (0, 0, 0)));
    }
    // same camera chunk: nothing happens
    assert!(st.update_streaming(&mut w, (0, 0, 0)).is_empty());
    assert!(st.next_batch(5).is_empty());
}

#[test]
fn batches_respect_budget_and_skip_loaded() {
    let mut st = StreamingState::new();
    let mut w = WorldManager::new(1);
    st.update_streaming(&mut w, (0, 0, 0));
    let b1 = st.next_batch(GEN_BUDGET_PER_FRAME);
    assert_eq!(b1.len(), GEN_BUDGET_PER_FRAME);
    st.mark_loaded(&b1);
    assert_eq!(st.loaded_chunks().len(), GEN_BUDGET_PER_FRAME);
    let b2 = st.next_batch(GEN_BUDGET_PER_FRAME);
    for p in &b2 {
        assert!(!b1.contains(p));
    }
}

#[test]
fn moving_camera_unloads_far_chunks() {
    let mut st = StreamingState::new();
    let mut w = WorldManager::new(1);
    st.update_streaming(&mut w, (0, 0, 0));
    let b = st.next_batch(GEN_BUDGET_PER_FRAME);
    let s = TerrainSamples { heights: vec![10; 256], caves: vec![false; 4096] };
    for p in &b {
        w.generate_chunk(p.0, p.1, p.2, &s);
    }
    st.mark_loaded(&b);
    let n = w.chunk_count();
    // moving 100 chunks east leaves every loaded chunk out of range
    let unloaded = st.update_streaming(&mut w, (100, 0, 0));
    assert_eq!(unloaded.len(), b.len());
    assert_eq!(st.loaded_chunks().len(), 0);
    assert_eq!(w.chunk_count(), n - b.len());
    let next = st.next_batch(1);
    assert_eq!(next, vec![(100, 0, 0)]);
}

#[test]
fn reset_forgets_everything() {
    let mut st = StreamingState::new();
    let mut w = WorldManager::new(1);
    st.update_streaming(&mut w, (0, 0, 0));
    let b = st.next_batch(3);
    st.mark_loaded(&b);
    st.reset();
    assert_eq!(st.loaded_chunks().len(), 0);
    assert!(st.next_batch(3).is_empty());
    // after a reset the same camera chunk is streamed again
    st.update_streaming(&mut w, (0, 0, 0));
    assert_eq!(st.next_batch(3).len(), 3);
}

#[test]
fn mesh_queue_appends_budgeted_dirty_chunks() {
    let batch = vec![(0, 0, 0), (1, 0, 0)];
    let dirty = vec![(1, 0, 0), (2, 0, 0), (3, 0, 0), (4, 0, 0)];
    assert_eq!(mesh_queue(&batch, &dirty, 2), vec![(0, 0, 0), (1, 0, 0), (2, 0, 0), (3, 0, 0)]);
    assert_eq!(mesh_queue(&batch, &dirty, 0), batch);
    assert_eq!(mesh_queue(&vec![], &dirty, 16), dirty);
}

#[test]
fn desired_set_at_the_coordinate_limits() {
    let s = compute_desired_set(i32::MAX - 16, i32::MIN + 16);
    assert_eq!(s.len(), 7 * 33 * 33);
    assert!(s.contains((i32::MAX, 0, i32::MIN)));
}

#[test]
fn last_camera_chunk_follows_updates_and_reset() {
    let mut st = StreamingState::new();
    let mut w = WorldManager::new(1);
    assert_eq!(st.last_cam_chunk(), None);
    st.update_streaming(&mut w, (2, 1, -3));
    assert_eq!(st.last_cam_chunk(), Some((2, 1, -3)));
    st.update_streaming(&mut w, (2, 1, -3));
    assert_eq!(st.last_cam_chunk(), Some((2, 1, -3)));
    st.reset();
    assert_eq!(st.last_cam_chunk(), None);
}
