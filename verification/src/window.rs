//! What a window and the display that shows it tell the application.

use std::fmt::Debug;
use std::hash::Hash;
use vstd::prelude::*;

verus! {

/// A size in physical pixels.
#[derive(Debug, Copy, Clone, Eq, PartialEq, Default, Hash)]
pub struct PhysicalSize<S> {
    pub width: S,
    pub height: S,
}

/// An event of a window.
#[derive(Copy, Clone, Debug)]
pub enum WindowEvent {
    /// The user asked for the window to be closed.
    CloseRequested,
    /// The window has the given size now.
    Resized(PhysicalSize<u32>),
    /// An event that the application does not handle.
    Unknown,
}

/// An event of the display.
#[derive(Copy, Clone, Debug)]
pub enum DisplayEvent {
    /// The display is gone.
    Disconnected,
    /// The contents of the window are to be painted again.
    Repaint,
    /// The next frame is due.
    NextFrame,
    /// The window has an event.
    WindowEvent(WindowEvent),
}

/// A window of the platform.
pub trait Window {
    type IdType: Copy + Clone + Eq + Hash + Debug;

    type BackingType;

    type SizeType;

    type LoopType;

    /// Waits for the next event of the display.
    fn receive_event(&self) -> DisplayEvent;

    /// Asks for the contents of the window to be painted again.
    fn request_repaint(&self);

    /// What tells this window from the others of its event loop.
    fn get_id(&self) -> Self::IdType;

    /// The size of what the window shows.
    fn get_size(&self) -> PhysicalSize<Self::SizeType>;

    /// The window of the platform.
    fn get_backing_window(&self) -> &Self::BackingType;
}

/// A window whose platform has events of the type `T`.
pub trait WindowEventReceiver<T: Into<WindowEvent>>: Window {
    type EventType: Into<WindowEvent>;
}

/// The loop that hands the events of the platform to the windows.
pub trait EventLoop: 'static {
    type WindowType: Window + Send;

    type LoopType: 'static;

    /// Hands `event` to the window that `id` names.
    fn send_event(
        &mut self,
        id: <<Self as EventLoop>::WindowType as Window>::IdType,
        event: DisplayEvent,
    );
}

/// What shows a window says of it to the application.
pub trait WindowDisplay {
    type WindowType: Window;

    /// Whether the window is to be closed.
    fn close_requested(&self) -> bool;

    /// Takes note of an event of the window.
    fn on_event(&mut self, window_event: &WindowEvent);

    /// The window that is shown.
    fn get_window(&self) -> &Self::WindowType;
}

/// Makes the windows of an event loop.
pub trait EventLoopWindowFactory<E: EventLoop> {
    type LoopType: 'static;

    /// A new window of the event loop.
    fn create_window(&mut self) -> E::WindowType;

    /// The event loop of the platform.
    fn get_backing_loop(&self) -> &Self::LoopType;
}

} // verus!
