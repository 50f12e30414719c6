//! Renderer settings and the small pieces of state that change between
//! frames.

use vstd::prelude::*;

verus! {

/// Options of the renderer.
#[derive(Clone, Copy, Debug, Default, PartialEq, Eq, Structural)]
pub struct RenderConfig {
    pub vsync: bool,
}

/// Flags that change often between frames.
#[derive(Clone, Copy, Debug, PartialEq, Eq, Structural)]
pub struct RenderState {
    pub resize_requested: bool,
}

impl RenderState {
    pub fn new() -> (r: RenderState)
        ensures
            !r.resize_requested,
    {
        RenderState { resize_requested: false }
    }
}

/// Owner of the frame's render passes and their ordering.
#[derive(Clone, Copy, Debug, PartialEq, Eq, Structural)]
pub struct RenderGraphContext;

/// Owner of graphics and compute pipelines.
#[derive(Clone, Copy, Debug, PartialEq, Eq, Structural)]
pub struct RenderPipelineContext;

} // verus!
