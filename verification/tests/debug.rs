use rustaria::debug::DebugOverlay;

#[test]
fn overlay_starts_off() {
    let d = DebugOverlay::new();
    assert!(!d.show_wireframe());
    assert!(!d.show_chunk_borders());
}

#[test]
fn toggles_are_independent_and_undo_themselves() {
    let mut d = DebugOverlay::new();
    d.toggle_wireframe();
    assert!(d.show_wireframe());
    assert!(!d.show_chunk_borders());
    d.toggle_chunk_borders();
    assert!(d.show_wireframe());
    assert!(d.show_chunk_borders());
    d.toggle_wireframe();
    assert!(!d.show_wireframe());
    assert!(d.show_chunk_borders());
    d.toggle_chunk_borders();
    assert!(!d.show_chunk_borders());
}
