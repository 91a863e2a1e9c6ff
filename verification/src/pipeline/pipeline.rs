//! What the stages of a pipeline have in common.

use vstd::prelude::*;

verus! {

/// A colour as a pipeline carries it.
pub trait Color {
    /// Bits per colour.
    fn get_size(&self) -> usize;

    fn has_alpha(&self) -> bool;
}

/// One candidate pixel: a position on the screen, a depth, and a colour.
///
/// The depth is an integer key: a fragment with a greater key lies in front
/// of one with a smaller key.
pub struct Fragment<C: Color> {
    pub position: (i32, i32),
    pub depth: i32,
    pub color: C,
}

/// The switches of a pipeline. Both are off unless they are asked for.
#[derive(Debug, Clone, Copy, PartialEq, Eq, Structural)]
pub struct PipelineState {
    pub depth_test: bool,
    pub culling: bool,
}

impl PipelineState {
    pub fn new(depth_test: bool, culling: bool) -> (state: Self)
        ensures
            state.depth_test == depth_test,
            state.culling == culling,
    {
        Self { depth_test, culling }
    }
}

impl Default for PipelineState {
    fn default() -> (state: Self)
        ensures
            !state.depth_test,
            !state.culling,
    {
        Self { depth_test: false, culling: false }
    }
}

/// The stage that moves one vertex. It is used up by the call and gives a
/// new vertex back.
pub trait VertexPass<V> {
    fn transform(self, vertex: &V) -> V;
}

/// The stage that gives one fragment its colour. It is used up by the call.
pub trait FragmentPass<V, C: Color> {
    fn transform(self, vertex: &V) -> C;
}

} // verus!
