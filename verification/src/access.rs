//! What a pass does with a texture, and what that means to the device.

use vstd::pervasive::unreached;
use vstd::prelude::*;

verus! {

/// A way of using a texture in a pass.
#[derive(Clone, Copy, PartialEq, Eq, Structural, Debug)]
pub enum TextureAccess {
    ColorWrite,
    DepthWrite,
    DepthRead,
    VertexRead,
    FragmentRead,
    ComputeRead,
    ComputeWrite,
    TransferSrc,
    TransferDst,
    Present,
    Undefined,
}

/// A way of using a storage or indirect buffer in a pass.
pub enum BufferAccess {
    StorageWrite,
    StorageRead,
    IndirectWrite,
    IndirectRead,
}

/// A stage of the pipeline that a barrier waits for or blocks.
#[derive(Clone, Copy, PartialEq, Eq, Structural, Debug)]
pub enum PipelineStage {
    Nothing,
    VertexShader,
    FragmentShader,
    ComputeShader,
    ColorAttachmentOutput,
}

/// A kind of memory access that a barrier makes available or visible.
#[derive(Clone, Copy, PartialEq, Eq, Structural, Debug)]
pub enum MemoryAccess {
    Nothing,
    ShaderRead,
    ShaderWrite,
    ColorAttachmentWrite,
    DepthStencilAttachmentWrite,
}

/// A layout that a barrier moves an image out of or into.
#[derive(Clone, Copy, PartialEq, Eq, Structural, Debug)]
pub enum ImageLayout {
    Undefined,
    General,
    ColorAttachmentOptimal,
    ShaderReadOnlyOptimal,
    PresentSrc,
}

impl PipelineStage {
    /// The bit of `VkPipelineStageFlagBits2` that stands for the stage.
    pub open spec fn raw(self) -> u64 {
        match self {
            PipelineStage::Nothing => 0,
            PipelineStage::VertexShader => 0x8,
            PipelineStage::FragmentShader => 0x80,
            PipelineStage::ColorAttachmentOutput => 0x400,
            PipelineStage::ComputeShader => 0x800,
        }
    }

    /// The value of the stage in a `VkPipelineStageFlags2` mask.
    pub fn as_raw(self) -> (bits: u64)
        ensures
            bits == self.raw(),
    {
        match self {
            PipelineStage::Nothing => 0,
            PipelineStage::VertexShader => 0x8,
            PipelineStage::FragmentShader => 0x80,
            PipelineStage::ColorAttachmentOutput => 0x400,
            PipelineStage::ComputeShader => 0x800,
        }
    }
}

impl MemoryAccess {
    /// The bit of `VkAccessFlagBits2` that stands for the access.
    pub open spec fn raw(self) -> u64 {
        match self {
            MemoryAccess::Nothing => 0,
            MemoryAccess::ShaderRead => 0x20,
            MemoryAccess::ShaderWrite => 0x40,
            MemoryAccess::ColorAttachmentWrite => 0x100,
            MemoryAccess::DepthStencilAttachmentWrite => 0x400,
        }
    }

    /// The value of the access in a `VkAccessFlags2` mask.
    pub fn as_raw(self) -> (bits: u64)
        ensures
            bits == self.raw(),
    {
        match self {
            MemoryAccess::Nothing => 0,
            MemoryAccess::ShaderRead => 0x20,
            MemoryAccess::ShaderWrite => 0x40,
            MemoryAccess::ColorAttachmentWrite => 0x100,
            MemoryAccess::DepthStencilAttachmentWrite => 0x400,
        }
    }
}

impl ImageLayout {
    /// The value of `VkImageLayout` that stands for the layout.
    pub open spec fn raw(self) -> i32 {
        match self {
            ImageLayout::Undefined => 0,
            ImageLayout::General => 1,
            ImageLayout::ColorAttachmentOptimal => 2,
            ImageLayout::ShaderReadOnlyOptimal => 5,
            ImageLayout::PresentSrc => 1_000_001_002,
        }
    }

    /// The value of the layout as a `VkImageLayout`.
    pub fn as_raw(self) -> (value: i32)
        ensures
            value == self.raw(),
    {
        match self {
            ImageLayout::Undefined => 0,
            ImageLayout::General => 1,
            ImageLayout::ColorAttachmentOptimal => 2,
            ImageLayout::ShaderReadOnlyOptimal => 5,
            ImageLayout::PresentSrc => 1_000_001_002,
        }
    }
}

impl TextureAccess {
    /// Whether barriers can be made for the access. Reading a depth texture
    /// and transfers have none yet.
    pub open spec fn supported(self) -> bool {
        self != TextureAccess::DepthRead && self != TextureAccess::TransferSrc && self
            != TextureAccess::TransferDst
    }

    /// Whether barriers can be made for the access.
    pub fn is_supported(self) -> (supported: bool)
        ensures
            supported == self.supported(),
            supported <==> !(self is DepthRead || self is TransferSrc || self is TransferDst),
    {
        match self {
            TextureAccess::DepthRead | TextureAccess::TransferSrc | TextureAccess::TransferDst => {
                false
            },
            _ => true,
        }
    }

    /// The pipeline stage in which the access happens.
    pub open spec fn stage(self) -> PipelineStage {
        match self {
            TextureAccess::VertexRead => PipelineStage::VertexShader,
            TextureAccess::FragmentRead => PipelineStage::FragmentShader,
            TextureAccess::ComputeRead | TextureAccess::ComputeWrite => {
                PipelineStage::ComputeShader
            },
            TextureAccess::ColorWrite | TextureAccess::DepthWrite => {
                PipelineStage::ColorAttachmentOutput
            },
            _ => PipelineStage::Nothing,
        }
    }

    /// The memory access that it makes.
    pub open spec fn memory(self) -> MemoryAccess {
        match self {
            TextureAccess::VertexRead | TextureAccess::FragmentRead | TextureAccess::ComputeRead => {
                MemoryAccess::ShaderRead
            },
            TextureAccess::ComputeWrite => MemoryAccess::ShaderWrite,
            TextureAccess::ColorWrite => MemoryAccess::ColorAttachmentWrite,
            TextureAccess::DepthWrite => MemoryAccess::DepthStencilAttachmentWrite,
            _ => MemoryAccess::Nothing,
        }
    }

    /// The layout that the image has to be in.
    pub open spec fn layout(self) -> ImageLayout {
        match self {
            TextureAccess::VertexRead | TextureAccess::FragmentRead | TextureAccess::ComputeRead => {
                ImageLayout::ShaderReadOnlyOptimal
            },
            TextureAccess::ComputeWrite => ImageLayout::General,
            TextureAccess::ColorWrite | TextureAccess::DepthWrite => {
                ImageLayout::ColorAttachmentOptimal
            },
            TextureAccess::Present => ImageLayout::PresentSrc,
            _ => ImageLayout::Undefined,
        }
    }
}

/// The pipeline stage, the memory access and the image layout of an access.
pub fn match_access(access: TextureAccess) -> (sync: (PipelineStage, MemoryAccess, ImageLayout))
    requires
        access.supported(),
    ensures
        sync == (access.stage(), access.memory(), access.layout()),
        sync.0 is VertexShader <==> access is VertexRead,
        sync.0 is FragmentShader <==> access is FragmentRead,
        sync.0 is ComputeShader <==> access is ComputeRead || access is ComputeWrite,
        sync.0 is ColorAttachmentOutput <==> access is ColorWrite || access is DepthWrite,
        sync.0 is Nothing <==> access is Present || access is Undefined,
        sync.1 is ShaderRead <==> access is VertexRead || access is FragmentRead
            || access is ComputeRead,
        sync.1 is ShaderWrite <==> access is ComputeWrite,
        sync.1 is ColorAttachmentWrite <==> access is ColorWrite,
        sync.1 is DepthStencilAttachmentWrite <==> access is DepthWrite,
        sync.1 is Nothing <==> access is Present || access is Undefined,
        sync.2 is ShaderReadOnlyOptimal <==> access is VertexRead || access is FragmentRead
            || access is ComputeRead,
        sync.2 is General <==> access is ComputeWrite,
        sync.2 is ColorAttachmentOptimal <==> access is ColorWrite || access is DepthWrite,
        sync.2 is PresentSrc <==> access is Present,
        sync.2 is Undefined <==> access is Undefined,
{
    match access {
        TextureAccess::Present => {
            (PipelineStage::Nothing, MemoryAccess::Nothing, ImageLayout::PresentSrc)
        },
        TextureAccess::VertexRead => (
            PipelineStage::VertexShader,
            MemoryAccess::ShaderRead,
            ImageLayout::ShaderReadOnlyOptimal,
        ),
        TextureAccess::FragmentRead => (
            PipelineStage::FragmentShader,
            MemoryAccess::ShaderRead,
            ImageLayout::ShaderReadOnlyOptimal,
        ),
        TextureAccess::ComputeRead => (
            PipelineStage::ComputeShader,
            MemoryAccess::ShaderRead,
            ImageLayout::ShaderReadOnlyOptimal,
        ),
        TextureAccess::ComputeWrite => (
            PipelineStage::ComputeShader,
            MemoryAccess::ShaderWrite,
            ImageLayout::General,
        ),
        TextureAccess::ColorWrite => (
            PipelineStage::ColorAttachmentOutput,
            MemoryAccess::ColorAttachmentWrite,
            ImageLayout::ColorAttachmentOptimal,
        ),
        TextureAccess::DepthWrite => (
            PipelineStage::ColorAttachmentOutput,
            MemoryAccess::DepthStencilAttachmentWrite,
            ImageLayout::ColorAttachmentOptimal,
        ),
        TextureAccess::Undefined => {
            (PipelineStage::Nothing, MemoryAccess::Nothing, ImageLayout::Undefined)
        },
        _ => unreached(),
    }
}


/// What the supported accesses mean to the device: shader accesses happen in their
/// shader and attachment writes at the output of colors; only writes make memory
/// accesses of a write; a layout other than that of reading in a shader belongs to
/// one kind of access. Presenting, and a texture that was not used, wait for
/// nothing.
pub proof fn law_accesses(access: TextureAccess)
    requires
        !(access is DepthRead || access is TransferSrc || access is TransferDst),
    ensures
        access.supported(),
        access.stage() is VertexShader <==> access is VertexRead,
        access.stage() is FragmentShader <==> access is FragmentRead,
        access.stage() is ComputeShader <==> access is ComputeRead || access is ComputeWrite,
        access.stage() is ColorAttachmentOutput <==> access is ColorWrite || access is DepthWrite,
        access.memory() is ShaderRead <==> access is VertexRead || access is FragmentRead
            || access is ComputeRead,
        access.memory() is ShaderWrite <==> access is ComputeWrite,
        access.memory() is ColorAttachmentWrite <==> access is ColorWrite,
        access.memory() is DepthStencilAttachmentWrite <==> access is DepthWrite,
        access.memory() is Nothing <==> access.stage() is Nothing,
        access.layout() is ShaderReadOnlyOptimal <==> access.memory() is ShaderRead,
        access.layout() is General <==> access.memory() is ShaderWrite,
        access.layout() is ColorAttachmentOptimal <==> access.stage() is ColorAttachmentOutput,
        access.layout() is PresentSrc <==> access is Present,
        access.layout() is Undefined <==> access is Undefined,
{
}

/// Two supported accesses that look the same to a barrier, by stage, memory access
/// and layout, are the same access.
pub proof fn law_accesses_are_told_apart(a: TextureAccess, b: TextureAccess)
    requires
        a.supported(),
        b.supported(),
        a.stage() == b.stage(),
        a.memory() == b.memory(),
        a.layout() == b.layout(),
    ensures
        a == b,
{
}

/// Stages, memory accesses and layouts keep apart in Vulkan's values, and only
/// the stage and the memory access `Nothing` are empty masks.
pub proof fn law_raw_values_are_told_apart(
    stage: PipelineStage,
    other_stage: PipelineStage,
    access: MemoryAccess,
    other_access: MemoryAccess,
    layout: ImageLayout,
    other_layout: ImageLayout,
)
    ensures
        stage.raw() == other_stage.raw() ==> stage == other_stage,
        access.raw() == other_access.raw() ==> access == other_access,
        layout.raw() == other_layout.raw() ==> layout == other_layout,
        stage.raw() == 0 <==> stage is Nothing,
        access.raw() == 0 <==> access is Nothing,
        layout.raw() == 0 <==> layout is Undefined,
{
}

} // verus!
