use ash::vk;
use frame_graph::barrier::{IMAGE_ASPECT_COLOR, QUEUE_FAMILY_IGNORED};
use frame_graph::creation::{
    AllocationScheme, MemoryLocation, IMAGE_TILING_OPTIMAL, IMAGE_TYPE_2D, SHARING_MODE_EXCLUSIVE,
};
use frame_graph::{
    match_access, AllocationCreateInfo, Extent3D, ImageCreateInfo, ImageLayout, MemoryAccess,
    MemoryRequirements, PipelineStage, TextureAccess, TextureDesc,
};

fn in_vulkan(
    access: TextureAccess,
) -> (vk::PipelineStageFlags2, vk::AccessFlags2, vk::ImageLayout) {
    let (stage, access, layout) = match_access(access);
    (
        vk::PipelineStageFlags2::from_raw(stage.as_raw()),
        vk::AccessFlags2::from_raw(access.as_raw()),
        vk::ImageLayout::from_raw(layout.as_raw()),
    )
}

#[test]
fn test_access() {
    let (flags1, access1, layout1) = in_vulkan(TextureAccess::ColorWrite);
    let (flags2, access2, layout2) = in_vulkan(TextureAccess::FragmentRead);

    assert!(
        vk::PipelineStageFlags2::COLOR_ATTACHMENT_OUTPUT == flags1
            && vk::PipelineStageFlags2::FRAGMENT_SHADER == flags2,
        "Mismatch Stage"
    );

    assert!(
        vk::AccessFlags2::COLOR_ATTACHMENT_WRITE == access1
            && vk::AccessFlags2::SHADER_READ == access2,
        "Mismatch AccessFlags"
    );

    assert!(
        vk::ImageLayout::COLOR_ATTACHMENT_OPTIMAL == layout1
            && vk::ImageLayout::SHADER_READ_ONLY_OPTIMAL == layout2,
        "Mismatch Layout"
    );
}

#[test]
fn every_supported_access_has_its_vulkan_values() {
    assert_eq!(
        in_vulkan(TextureAccess::Present),
        (
            vk::PipelineStageFlags2::NONE,
            vk::AccessFlags2::NONE,
            vk::ImageLayout::PRESENT_SRC_KHR
        )
    );
    assert_eq!(
        in_vulkan(TextureAccess::Undefined),
        (
            vk::PipelineStageFlags2::NONE,
            vk::AccessFlags2::NONE,
            vk::ImageLayout::UNDEFINED
        )
    );
    assert_eq!(
        in_vulkan(TextureAccess::VertexRead),
        (
            vk::PipelineStageFlags2::VERTEX_SHADER,
            vk::AccessFlags2::SHADER_READ,
            vk::ImageLayout::SHADER_READ_ONLY_OPTIMAL
        )
    );
    assert_eq!(
        in_vulkan(TextureAccess::ComputeRead),
        (
            vk::PipelineStageFlags2::COMPUTE_SHADER,
            vk::AccessFlags2::SHADER_READ,
            vk::ImageLayout::SHADER_READ_ONLY_OPTIMAL
        )
    );
    assert_eq!(
        in_vulkan(TextureAccess::ComputeWrite),
        (
            vk::PipelineStageFlags2::COMPUTE_SHADER,
            vk::AccessFlags2::SHADER_WRITE,
            vk::ImageLayout::GENERAL
        )
    );
    assert_eq!(
        in_vulkan(TextureAccess::DepthWrite),
        (
            vk::PipelineStageFlags2::COLOR_ATTACHMENT_OUTPUT,
            vk::AccessFlags2::DEPTH_STENCIL_ATTACHMENT_WRITE,
            vk::ImageLayout::COLOR_ATTACHMENT_OPTIMAL
        )
    );
}

#[test]
fn depth_reads_and_transfers_are_unsupported() {
    assert!(!TextureAccess::DepthRead.is_supported());
    assert!(!TextureAccess::TransferSrc.is_supported());
    assert!(!TextureAccess::TransferDst.is_supported());
    assert!(TextureAccess::ColorWrite.is_supported());
    assert!(TextureAccess::DepthWrite.is_supported());
    assert!(TextureAccess::VertexRead.is_supported());
    assert!(TextureAccess::FragmentRead.is_supported());
    assert!(TextureAccess::ComputeRead.is_supported());
    assert!(TextureAccess::ComputeWrite.is_supported());
    assert!(TextureAccess::Present.is_supported());
    assert!(TextureAccess::Undefined.is_supported());
}

#[test]
fn raw_values_of_single_stages_and_layouts() {
    assert_eq!(PipelineStage::Nothing.as_raw(), 0);
    assert_eq!(PipelineStage::VertexShader.as_raw(), 0x8);
    assert_eq!(MemoryAccess::Nothing.as_raw(), 0);
    assert_eq!(MemoryAccess::ShaderWrite.as_raw(), 0x40);
    assert_eq!(ImageLayout::PresentSrc.as_raw(), 1_000_001_002);
}

#[test]
fn constants_are_those_of_vulkan() {
    assert_eq!(IMAGE_ASPECT_COLOR, vk::ImageAspectFlags::COLOR.as_raw());
    assert_eq!(QUEUE_FAMILY_IGNORED, vk::QUEUE_FAMILY_IGNORED);
    assert_eq!(IMAGE_TYPE_2D, vk::ImageType::TYPE_2D.as_raw());
    assert_eq!(SHARING_MODE_EXCLUSIVE, vk::SharingMode::EXCLUSIVE.as_raw());
    assert_eq!(IMAGE_TILING_OPTIMAL, vk::ImageTiling::OPTIMAL.as_raw());
}

#[test]
fn transient_images_are_single_layers_in_two_dimensions() {
    let extent = Extent3D {
        width: 640,
        height: 480,
        depth: 1,
    };
    let info = ImageCreateInfo::new(TextureDesc {
        usage: 0x14,
        format: 37,
        extent,
    });
    assert_eq!(info.format, 37);
    assert_eq!(info.usage, 0x14);
    assert_eq!(info.extent, extent);
    assert_eq!(info.array_layers, 1);
    assert_eq!(info.image_type, IMAGE_TYPE_2D);
    assert_eq!(info.sharing_mode, SHARING_MODE_EXCLUSIVE);
    assert_eq!(info.tiling, IMAGE_TILING_OPTIMAL);
}

#[test]
fn transient_memory_is_managed_and_on_the_device() {
    let requirements = MemoryRequirements {
        size: 4096,
        alignment: 256,
        memory_type_bits: 3,
    };
    let info = AllocationCreateInfo::new(requirements);
    assert_eq!(info.name, "Transient Texture");
    assert_eq!(info.location, MemoryLocation::GpuOnly);
    assert_eq!(info.requirements, requirements);
    assert!(!info.linear);
    assert_eq!(info.allocation_scheme, AllocationScheme::GpuAllocatorManaged);
}
