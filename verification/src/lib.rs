//! A frame graph for a Vulkan renderer.
//!
//! A [`FrameScope`] collects the passes of one frame, orders them by what they
//! read and write, derives the image barriers between them and hands back the
//! commands to record. A [`FrameGraph`] keeps the transient textures of the
//! frames in flight and lends them out again once a frame is over.

pub mod access;
pub mod barrier;
pub mod calls;
pub mod compiled;
pub mod creation;
pub mod error;
pub mod frame;
pub mod graph;
pub mod handle;
pub mod history;
pub mod pass;
pub mod recording;
pub mod schedule;
pub mod scope;
pub mod slots;
pub mod types;

pub use access::{
    match_access, BufferAccess, ImageLayout, MemoryAccess, PipelineStage, TextureAccess,
};
pub use barrier::{ImageBarrier, ImageSubresourceRange};
pub use compiled::{Command, CompiledPass};
pub use creation::{AllocationCreateInfo, Creation, ImageCreateInfo, MemoryRequirements};
pub use error::FrameGraphError;
pub use graph::{DrainedPool, FrameGraph, FrameGraphCreateDesc};
pub use handle::Handle;
pub use pass::{Pass, TextureUse};
pub use scope::{FrameScope, PassResources};
pub use types::{
    Allocation, AttachmentLoadOp, AttachmentStoreOp, Buffer, Extent3D, FrameGraphBuffer,
    FrameGraphResource, FrameGraphTexture, Image, TextureDesc,
};
