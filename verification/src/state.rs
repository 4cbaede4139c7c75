//! The states the window manager's objects go through, and what a state check
//! reports.
use vstd::prelude::*;

verus! {

/// Lifecycle of a managed window.
#[derive(Debug, Clone, Copy, PartialEq, Eq, Structural)]
pub enum WindowState {
    /// Window has been created but not yet mapped
    Pending,
    /// Window is mapped and visible
    Visible,
    /// Window is unmapped because another tab or workspace is shown
    Hidden,
    /// Window is being destroyed
    Destroying,
}

/// Which window, if any, has the input focus.
#[derive(Debug, Clone, Copy, PartialEq, Eq, Structural)]
pub enum FocusState {
    /// No window has the focus
    NoFocus,
    Focused { window: u32 },
}

/// What a frame holds.
#[derive(Debug, Clone, PartialEq, Eq)]
pub enum FrameState {
    Empty,
    SingleWindow { window: u32 },
    Tabbed { windows: Vec<u32>, active_tab: usize },
}

/// A broken invariant that a state check found.
#[derive(Debug, Clone)]
pub struct StateViolation {
    pub kind: ViolationKind,
    pub description: String,
}

/// The kinds of broken invariant a state check reports.
#[derive(Debug, Clone, Copy, PartialEq, Eq, Structural)]
pub enum ViolationKind {
    /// A window in the layout that X11 no longer knows
    OrphanedWindow,
    /// A window X11 knows that the layout does not track
    GhostWindow,
    /// The focus is on a window that is not visible
    InvalidFocus,
    /// An empty frame other than the root was left in the tree
    EmptyFrameLeaked,
    /// A split ratio outside the allowed bounds
    SplitRatioOutOfBounds,
    /// A frame's focused tab is past its last window
    TabIndexOutOfBounds,
    /// The focused frame is not in the tree
    FocusedFrameMissing,
    /// A hidden window that no frame holds
    HiddenWindowOrphaned,
    /// A tab bar whose frame is gone
    OrphanedTabBar,
}

/// Why a window stopped being managed.
#[derive(Debug, Clone, Copy, PartialEq, Eq, Structural)]
pub enum UnmanageReason {
    ClientDestroyed,
    ClientUnmapped,
    WmClosed,
}

/// A change of the window manager's state, as the event log records it. A
/// split's ratios are in millionths.
pub enum StateTransition {
    WindowManaged { window: u32, frame: String },
    WindowUnmanaged { window: u32, reason: UnmanageReason },
    FocusChanged { from: Option<u32>, to: Option<u32> },
    TabSwitched { frame: String, from: usize, to: usize },
    FrameSplit { original_frame: String, new_frame: String, direction: String },
    SplitResized { split: String, old_ratio: u32, new_ratio: u32 },
    WindowMoved { window: u32, from_frame: String, to_frame: String },
    FrameRemoved { frame: String },
}

} // verus!
