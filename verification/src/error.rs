use vstd::prelude::*;

verus! {

/// The ways in which the creation of a transient texture can fail.
#[derive(Debug, Clone, Copy, PartialEq, Eq, Structural)]
pub enum FrameGraphError {
    /// No device memory could be allocated for the image.
    Allocation,
    /// The device did not create the image.
    CreateVkImage,
    /// The image could not be bound to its memory.
    BindVkImage,
}

} // verus!
