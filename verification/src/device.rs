//! What the application asks of a graphics device.
//!
//! The traits say what an adapter to a graphics platform offers; each hands
//! out the value of the platform that it stands for as its backing value.

use vstd::prelude::*;
use crate::mesh::Mesh;

verus! {

/// The queue that a device takes its work from.
pub trait Queue<'a> {
    type BackingType;

    /// The queue of the platform.
    fn get_backing_queue(&self) -> &Self::BackingType;
}

/// A device as the platform lists it, before it is opened.
pub trait PhysicalDevice<'a>: Sized {
    type BackingType;

    type DeviceType: Device<'a>;

    type QueueType: Queue<'a>;

    /// The device that `adapter` stands for.
    fn new(adapter: Self::BackingType) -> Self;

    /// The device as the platform lists it.
    fn get_backing_physical_device(&self) -> &Self::BackingType;

    /// Opens the device and the queue that it takes its work from.
    fn create_device_and_queue(&self) -> (Self::DeviceType, Self::QueueType);
}

/// An opened device.
pub trait Device<'a> {
    type BackingType;

    type CommandBufferBuilderType: CommandBufferBuilder<'a, Self::CommandBufferType>;

    type CommandBufferType: CommandBuffer<'a>;

    /// The device of the platform.
    fn get_backing_device(&self) -> &Self::BackingType;

    /// Starts a command buffer.
    fn begin_command_buffer(&self) -> Self::CommandBufferBuilderType;
}

/// Collects the commands of one command buffer.
pub trait CommandBufferBuilder<'a, C: CommandBuffer<'a>>: Sized {
    type BackingType;

    /// The command buffer with the commands that were collected.
    fn build(self) -> C;

    /// The builder of the platform.
    fn get_backing_command_buffer_builder(&mut self) -> &mut Self::BackingType;
}

/// Commands that are ready to be handed to a queue.
pub trait CommandBuffer<'a>: Sized {
    type BackingType;

    /// The command buffer of the platform.
    fn get_backing_command_buffer(self) -> Self::BackingType;
}

/// A device that makes meshes of the kind `M`.
pub trait DeviceMeshFactory<'a, M: Mesh>: Device<'a> {
    /// A new mesh.
    fn create_mesh(&self) -> M;
}

} // verus!
