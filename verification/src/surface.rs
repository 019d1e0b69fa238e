//! The surface that frames are rendered to, and why it may fail.

use crate::device::{Device, PhysicalDevice};
use crate::window::{PhysicalSize, Window};
use vstd::prelude::*;

verus! {

/// Why a surface could not hand out its next texture.
#[derive(Debug, Clone)]
pub enum SurfaceError<T> {
    /// The device that owns the surface is lost.
    DeviceLost,
    /// The device is out of memory.
    OutOfMemory,
    /// An error of the platform below.
    Other(T),
}

impl<T> SurfaceError<T> {
    /// The error of the platform below that caused this error, if one did.
    pub fn cause(&self) -> (cause: Option<&T>)
        ensures
            cause == match self {
                SurfaceError::Other(error) => Some(error),
                _ => None,
            },
    {
        match self {
            SurfaceError::Other(cause) => Some(cause),
            _ => None,
        }
    }

    /// Wraps an error of the platform below.
    pub fn from(err: T) -> (error: Self)
        ensures
            error == SurfaceError::Other(err),
    {
        Self::Other(err)
    }
}

/// A texture of a surface: what one frame is rendered to.
pub trait SurfaceTexture<'a>: Sized {
    type BackingType;

    /// The texture of the platform.
    fn get_backing_texture(&self) -> &Self::BackingType;

    /// Shows what was rendered to the texture.
    fn present(self);
}

/// The format of the textures of a surface.
pub trait SurfaceFormat {
    type BackingType: Copy + Clone;

    /// The format of the platform.
    fn get_backing_format(&self) -> Self::BackingType;
}

/// What frames are rendered to: the contents of a window.
pub trait Surface<'a> {
    type BackingType;

    type SizeType: Sized;

    type DeviceType: Device<'a>;

    type FormatType: SurfaceFormat;

    type TextureType: SurfaceTexture<'a>;

    type ErrorType: Clone;

    /// Prepares the surface for the device.
    fn configure(&mut self, device: &Self::DeviceType);

    /// Gives the surface a new size.
    fn resize(&mut self, device: &Self::DeviceType, size: PhysicalSize<Self::SizeType>);

    /// The format of the textures that the surface hands out.
    fn get_format(&self) -> Self::FormatType;

    /// The surface of the platform.
    fn get_backing_surface(&self) -> &Self::BackingType;

    /// The texture that the next frame is rendered to.
    fn acquire_next_texture(&self) -> Result<Self::TextureType, SurfaceError<Self::ErrorType>>;
}

/// The connection to the graphics platform for one window.
pub trait ContextInstance<'a>: Sized {
    type BackingType;

    type PhysicalDeviceType: PhysicalDevice<'a>;

    type SurfaceType: Surface<
        'a,
        DeviceType = <<Self as ContextInstance<'a>>::PhysicalDeviceType as PhysicalDevice<'a>>::DeviceType,
    >;

    type WindowType: Window;

    /// Connects to the graphics platform for `window`.
    fn new(window: &'a Self::WindowType) -> Self;

    /// The device that renders to the window and the surface that it renders to.
    fn create_device_and_surface(&self) -> (Self::PhysicalDeviceType, Self::SurfaceType);

    /// The instance of the platform.
    fn get_backing_instance(&self) -> &Self::BackingType;
}

} // verus!
