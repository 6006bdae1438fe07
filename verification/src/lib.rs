//! A real-time rendering engine core built around an entity-component
//! registry: a spatial resolver that flattens parent-child transform
//! hierarchies into world-space poses each frame, an instance batcher that
//! groups renderable entities into GPU instance buffers and diffs them
//! against the previous frame, and a renderer orchestrator that drives the
//! per-frame camera-sync / prep / render / present sequence.

use vstd::prelude::*;

pub mod batch;
pub mod engine;
pub mod keymap;
pub mod mathx;
pub mod model;
pub mod orchestrator;
pub mod registry;
pub mod spatial;
pub mod sprite;
pub mod ui3d;

pub use engine::{run, App, Game, Input, State};
pub use mathx::Transform;
pub use model::ModelRenderer;
pub use registry::{GlobalTransform, LocalTransform, Model, Sprite, Ui3d};
pub use sprite::TextureRenderer;
pub use ui3d::Ui3dRenderer;

verus! {

/// Width and height of a window surface, in pixels.
pub struct Size {
    pub width: u32,
    pub height: u32,
}

impl Size {
    pub fn new(width: u32, height: u32) -> (r: Size)
        ensures
            r.width == width,
            r.height == height,
    {
        Size { width, height }
    }
}

} // verus!
