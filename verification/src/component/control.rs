//! Immutable frame facts that a mounted native control exposes to the
//! renderer, and the scroll control that reports them.
use vstd::prelude::*;
use crate::component::Component;

verus! {

/// The state of a text editor control.
#[derive(Clone, Debug, PartialEq, Eq)]
pub struct EditorSnapshot {
    pub text: String,
    pub cursor_bytes: usize,
    pub focused: bool,
    pub multiline: bool,
    pub scroll_row: usize,
}

/// The state of a scroll control, in rows.
#[derive(Clone, Copy, Debug, Default, PartialEq, Eq, Structural)]
pub struct ScrollSnapshot {
    pub viewport_rows: u32,
    pub extent_rows: u32,
    pub top_row: u32,
    pub following_end: bool,
}

/// The state of an animation control.
#[derive(Clone, Copy, Debug, Default, PartialEq, Eq, Structural)]
pub struct AnimationSnapshot {
    pub active_frame: u32,
    pub frame_count: u32,
    pub running: bool,
}

/// The facts of one native control.
#[derive(Clone, Debug, PartialEq, Eq)]
pub enum ControlSnapshot {
    Editor(Box<EditorSnapshot>),
    Scroll(ScrollSnapshot),
    Animation(AnimationSnapshot),
}

/// A width and height in terminal cells.
#[derive(Clone, Copy, Debug, Default, PartialEq, Eq, Structural)]
pub struct Size {
    pub width: u16,
    pub height: u16,
}

/// A scroll control that follows the end of its content: it learns its
/// viewport from layout and its extent from the content it holds.
#[derive(Clone, Copy, Debug, Default)]
pub struct MountedScroll {
    pub viewport: Size,
    pub extent: Size,
}

impl MountedScroll {
    pub fn new() -> (scroll: Self)
        ensures
            scroll.viewport == (Size { width: 0, height: 0 }),
            scroll.extent == (Size { width: 0, height: 0 }),
    {
        MountedScroll { viewport: Size { width: 0, height: 0 }, extent: Size { width: 0, height: 0 } }
    }

    pub fn layout_changed(&mut self, size: Size)
        ensures
            final(self).viewport == size,
            final(self).extent == old(self).extent,
    {
        self.viewport = size;
    }

    pub fn extent_changed(&mut self, size: Size)
        ensures
            final(self).extent == size,
            final(self).viewport == old(self).viewport,
    {
        self.extent = size;
    }
}

impl Component for MountedScroll {
    fn control_snapshot(&self) -> (snapshot: Option<ControlSnapshot>)
        ensures
            snapshot == Some(ControlSnapshot::Scroll(ScrollSnapshot {
                viewport_rows: self.viewport.height as u32,
                extent_rows: self.extent.height as u32,
                top_row: 0,
                following_end: true,
            })),
    {
        Some(ControlSnapshot::Scroll(ScrollSnapshot {
            viewport_rows: self.viewport.height as u32,
            extent_rows: self.extent.height as u32,
            top_row: 0,
            following_end: true,
        }))
    }
}

} // verus!
