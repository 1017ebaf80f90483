use vstd::prelude::*;

verus! {

/// The debug state after flipping wireframe rendering.
pub open spec fn wireframe_toggled(s: (bool, bool)) -> (bool, bool) {
    (!s.0, s.1)
}

/// The debug state after flipping the chunk-border overlay.
pub open spec fn borders_toggled(s: (bool, bool)) -> (bool, bool) {
    (s.0, !s.1)
}

/// State of the visual debugger: wireframe rendering and chunk-border overlay.
pub struct DebugOverlay {
    wireframe: bool,
    chunk_borders: bool,
}

impl View for DebugOverlay {
    /// `(wireframe, chunk_borders)`.
    type V = (bool, bool);

    closed spec fn view(&self) -> (bool, bool) {
        (self.wireframe, self.chunk_borders)
    }
}

impl DebugOverlay {
    /// All debug views off.
    pub fn new() -> (o: Self)
        ensures
            o@ == (false, false),
    {
        Self { wireframe: false, chunk_borders: false }
    }

    /// Whether chunk borders are drawn.
    pub fn show_chunk_borders(&self) -> (r: bool)
        ensures
            r == self@.1,
    {
        self.chunk_borders
    }

    /// Whether the wireframe pipeline is used.
    pub fn show_wireframe(&self) -> (r: bool)
        ensures
            r == self@.0,
    {
        self.wireframe
    }

    /// Flips wireframe rendering; the border overlay is unchanged.
    pub fn toggle_wireframe(&mut self)
        ensures
            final(self)@ == wireframe_toggled(old(self)@),
    {
        self.wireframe = !self.wireframe;
    }

    /// Flips the chunk-border overlay; wireframe rendering is unchanged.
    pub fn toggle_chunk_borders(&mut self)
        ensures
            final(self)@ == borders_toggled(old(self)@),
    {
        self.chunk_borders = !self.chunk_borders;
    }
}

/// Each toggle undoes itself, and the two toggles are independent of each other.
pub proof fn lemma_toggles_involutive_and_commute(s: (bool, bool))
    ensures
        wireframe_toggled(wireframe_toggled(s)) == s,
        borders_toggled(borders_toggled(s)) == s,
        wireframe_toggled(borders_toggled(s)) == borders_toggled(wireframe_toggled(s)),
{
}

} // verus!
