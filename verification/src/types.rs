//! The resources of a frame graph.

use vstd::prelude::*;
use vstd::std_specs::convert::FromSpec;
use crate::access::TextureAccess;

verus! {

/// An image of the device, by its raw `VkImage` handle.
#[derive(Clone, Copy, PartialEq, Eq, Structural, Debug)]
pub struct Image {
    pub raw: u64,
}

/// A piece of device memory, by the number that its owner knows it by.
#[derive(Clone, Copy, PartialEq, Eq, Structural, Debug)]
pub struct Allocation {
    pub id: u64,
}

/// What happens to an attachment when a pass begins, a `VkAttachmentLoadOp`.
#[derive(Clone, Copy, PartialEq, Eq, Structural, Debug)]
pub struct AttachmentLoadOp {
    pub raw: i32,
}

/// What happens to an attachment when a pass ends, a `VkAttachmentStoreOp`.
#[derive(Clone, Copy, PartialEq, Eq, Structural, Debug)]
pub struct AttachmentStoreOp {
    pub raw: i32,
}

/// The size of an image in texels.
#[derive(Clone, Copy, PartialEq, Eq, Structural, Debug, Hash)]
pub struct Extent3D {
    pub width: u32,
    pub height: u32,
    pub depth: u32,
}

/// What a transient texture is to be like. The usage is a
/// `VkImageUsageFlags` mask, the format a `VkFormat`.
#[derive(Clone, Copy, PartialEq, Eq, Structural, Debug, Hash)]
pub struct TextureDesc {
    pub usage: u32,
    pub format: i32,
    pub extent: Extent3D,
}

/// A texture of the current frame: the access that it was last used with, its
/// memory, if the graph allocated it, and its image.
#[derive(Clone, Copy, PartialEq, Eq, Structural, Debug)]
pub struct FrameGraphTexture {
    pub last_access: TextureAccess,
    pub allocation: Option<Allocation>,
    pub image: Image,
}

/// A buffer of the device, by its raw `VkBuffer` handle.
#[derive(Clone, Copy, PartialEq, Eq, Structural, Debug)]
pub struct Buffer {
    pub raw: u64,
}

/// A way of using a buffer in a compute pass.
#[derive(Clone, Copy, PartialEq, Eq, Structural, Debug)]
pub enum BufferAccess {
    ComputeWrite,
    ComputeRead,
}

/// A buffer of the current frame: the access that it was last used with, its
/// memory, if the graph allocated it, and the buffer.
#[derive(Clone, Copy, PartialEq, Eq, Structural, Debug)]
pub struct FrameGraphBuffer {
    pub last_access: BufferAccess,
    pub allocation: Option<Allocation>,
    pub image: Buffer,
}

/// A resource of the current frame.
#[derive(Clone, Copy, PartialEq, Eq, Structural, Debug)]
pub enum FrameGraphResource {
    Texture(FrameGraphTexture),
    Buffer(FrameGraphBuffer),
}

impl From<FrameGraphTexture> for FrameGraphResource {
    fn from(value: FrameGraphTexture) -> (resource: Self) {
        FrameGraphResource::Texture(value)
    }
}

impl vstd::std_specs::convert::FromSpecImpl<FrameGraphTexture> for FrameGraphResource {
    open spec fn obeys_from_spec() -> bool {
        true
    }

    open spec fn from_spec(value: FrameGraphTexture) -> Self {
        FrameGraphResource::Texture(value)
    }
}

impl From<FrameGraphBuffer> for FrameGraphResource {
    fn from(value: FrameGraphBuffer) -> (resource: Self) {
        FrameGraphResource::Buffer(value)
    }
}

impl vstd::std_specs::convert::FromSpecImpl<FrameGraphBuffer> for FrameGraphResource {
    open spec fn obeys_from_spec() -> bool {
        true
    }

    open spec fn from_spec(value: FrameGraphBuffer) -> Self {
        FrameGraphResource::Buffer(value)
    }
}


/// A texture or a buffer is found in the resource that was made from it, and the
/// two are told apart.
pub proof fn law_resources_hold_what_they_are_made_from(
    texture: FrameGraphTexture,
    buffer: FrameGraphBuffer,
)
    ensures
        <FrameGraphResource as FromSpec<FrameGraphTexture>>::from_spec(
            texture,
        ) matches FrameGraphResource::Texture(held) && held == texture,
        <FrameGraphResource as FromSpec<FrameGraphBuffer>>::from_spec(
            buffer,
        ) matches FrameGraphResource::Buffer(held) && held == buffer,
{
}

} // verus!
