//! What the device is asked for when a transient texture is created.

use vstd::prelude::*;
use crate::handle::Handle;
use crate::types::{Extent3D, FrameGraphTexture, TextureDesc};

verus! {

/// `VK_IMAGE_TYPE_2D`.
pub const IMAGE_TYPE_2D: i32 = 1;

/// `VK_SHARING_MODE_EXCLUSIVE`.
pub const SHARING_MODE_EXCLUSIVE: i32 = 0;

/// `VK_IMAGE_TILING_OPTIMAL`.
pub const IMAGE_TILING_OPTIMAL: i32 = 0;

/// The fields of a `VkImageCreateInfo` that are set; all others keep their
/// default.
#[derive(Clone, Copy, PartialEq, Eq, Structural, Debug)]
pub struct ImageCreateInfo {
    pub format: i32,
    pub extent: Extent3D,
    pub array_layers: u32,
    pub image_type: i32,
    pub sharing_mode: i32,
    pub tiling: i32,
    pub usage: u32,
}

/// The memory that an image needs, a `VkMemoryRequirements`.
#[derive(Clone, Copy, PartialEq, Eq, Structural, Debug)]
pub struct MemoryRequirements {
    pub size: u64,
    pub alignment: u64,
    pub memory_type_bits: u32,
}

/// Where memory is to lie.
#[derive(Clone, Copy, PartialEq, Eq, Structural, Debug)]
pub enum MemoryLocation {
    GpuOnly,
}

/// How memory is to be allocated.
#[derive(Clone, Copy, PartialEq, Eq, Structural, Debug)]
pub enum AllocationScheme {
    GpuAllocatorManaged,
}

/// What the allocator is asked for.
#[derive(Clone, Copy, Debug)]
pub struct AllocationCreateInfo {
    pub name: &'static str,
    pub location: MemoryLocation,
    pub requirements: MemoryRequirements,
    pub linear: bool,
    pub allocation_scheme: AllocationScheme,
}

/// What becomes of a request for a transient texture.
pub enum Creation {
    /// A texture of an earlier frame is used again.
    Reused(Handle<FrameGraphTexture>),
    /// The device has to create an image.
    Allocate(ImageCreateInfo),
}

impl ImageCreateInfo {
    /// The image of a transient texture: a single layer in two dimensions, of
    /// the format, extent and usage that are asked for.
    pub open spec fn of(desc: TextureDesc) -> ImageCreateInfo {
        ImageCreateInfo {
            format: desc.format,
            extent: desc.extent,
            array_layers: 1,
            image_type: IMAGE_TYPE_2D,
            sharing_mode: SHARING_MODE_EXCLUSIVE,
            tiling: IMAGE_TILING_OPTIMAL,
            usage: desc.usage,
        }
    }

    /// The image of a transient texture.
    pub fn new(desc: TextureDesc) -> (info: Self)
        ensures
            info == ImageCreateInfo::of(desc),
            info.format == desc.format,
            info.extent == desc.extent,
            info.usage == desc.usage,
            info.array_layers == 1,
            info.image_type == IMAGE_TYPE_2D,
            info.sharing_mode == SHARING_MODE_EXCLUSIVE,
            info.tiling == IMAGE_TILING_OPTIMAL,
    {
        ImageCreateInfo {
            format: desc.format,
            extent: desc.extent,
            array_layers: 1,
            image_type: IMAGE_TYPE_2D,
            sharing_mode: SHARING_MODE_EXCLUSIVE,
            tiling: IMAGE_TILING_OPTIMAL,
            usage: desc.usage,
        }
    }
}

impl AllocationCreateInfo {
    /// The memory of a transient texture whose image has `requirements`.
    pub fn new(requirements: MemoryRequirements) -> (info: Self)
        ensures
            info.name@ == "Transient Texture"@,
            info.location == MemoryLocation::GpuOnly,
            info.requirements == requirements,
            !info.linear,
            info.allocation_scheme == AllocationScheme::GpuAllocatorManaged,
    {
        AllocationCreateInfo {
            name: "Transient Texture",
            location: MemoryLocation::GpuOnly,
            requirements,
            linear: false,
            allocation_scheme: AllocationScheme::GpuAllocatorManaged,
        }
    }
}


/// The image that the device is asked for is what the description says, in every
/// field, and has one layer in two dimensions, for one queue at a time, in optimal
/// tiling.
pub proof fn law_image_is_as_described(desc: TextureDesc)
    ensures
        ImageCreateInfo::of(desc).format == desc.format,
        ImageCreateInfo::of(desc).extent.width == desc.extent.width,
        ImageCreateInfo::of(desc).extent.height == desc.extent.height,
        ImageCreateInfo::of(desc).extent.depth == desc.extent.depth,
        ImageCreateInfo::of(desc).usage == desc.usage,
        ImageCreateInfo::of(desc).array_layers == 1,
        ImageCreateInfo::of(desc).image_type == 1,
        ImageCreateInfo::of(desc).sharing_mode == 0,
        ImageCreateInfo::of(desc).tiling == 0,
{
}

/// Descriptions that differ lead to images that differ.
pub proof fn law_images_tell_descriptions_apart(a: TextureDesc, b: TextureDesc)
    requires
        ImageCreateInfo::of(a) == ImageCreateInfo::of(b),
    ensures
        a == b,
{
}

} // verus!
