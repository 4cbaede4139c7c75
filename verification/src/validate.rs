//! The state check that IPC clients ask for: which invariants of the current
//! workspace are broken.
use vstd::prelude::*;

use crate::layout::{first_holding, NodeId, Window};
use crate::state::ViolationKind;
use crate::workspaces::{floating_ids, Workspace};

verus! {

/// A broken invariant, with the window or frame it concerns.
#[derive(Debug, Clone, Copy)]
pub struct Finding {
    pub kind: ViolationKind,
    pub window: Option<Window>,
    pub frame: Option<NodeId>,
}

/// Window `w` is tiled in some frame of `ws`.
pub open spec fn is_tiled(ws: &Workspace, w: Window) -> bool {
    first_holding(ws.layout.entries(), ws.layout.walk_order(), w) is Some
}

/// A focused window must be tiled or floating in the current workspace.
pub open spec fn focus_findings(ws: &Workspace, focused: Option<Window>) -> Seq<Finding> {
    match focused {
        Some(w) => if !is_tiled(ws, w) && !floating_ids(ws.floating_windows@).contains(w) {
            seq![Finding { kind: ViolationKind::InvalidFocus, window: Some(w), frame: None }]
        } else {
            seq![]
        },
        None => seq![],
    }
}

/// The focused frame must be a node of the tree.
pub open spec fn frame_findings(ws: &Workspace) -> Seq<Finding> {
    if ws.layout.entries().contains_key(ws.layout.focused) {
        seq![]
    } else {
        seq![Finding { kind: ViolationKind::FocusedFrameMissing, window: None, frame: Some(ws.layout.focused) }]
    }
}

/// Each hidden window must be tiled in the workspace, in the order given.
pub open spec fn hidden_findings(ws: &Workspace, hidden: Seq<Window>) -> Seq<Finding>
    decreases hidden.len(),
{
    if hidden.len() == 0 {
        seq![]
    } else {
        let w = hidden.last();
        hidden_findings(ws, hidden.drop_last()) + if is_tiled(ws, w) {
            Seq::<Finding>::empty()
        } else {
            seq![Finding { kind: ViolationKind::HiddenWindowOrphaned, window: Some(w), frame: None }]
        }
    }
}

/// Each frame that has a tab bar must be a node of the tree, in the order
/// given.
pub open spec fn tab_bar_findings(ws: &Workspace, frames: Seq<NodeId>) -> Seq<Finding>
    decreases frames.len(),
{
    if frames.len() == 0 {
        seq![]
    } else {
        let f = frames.last();
        tab_bar_findings(ws, frames.drop_last()) + if ws.layout.entries().contains_key(f) {
            Seq::<Finding>::empty()
        } else {
            seq![Finding { kind: ViolationKind::OrphanedTabBar, window: None, frame: Some(f) }]
        }
    }
}

/// Check the invariants of workspace `ws` as the window manager shows it:
/// the focused window, the focused frame, the windows hidden on purpose and
/// the frames that have tab bars. The findings come in that order; an empty
/// result means the state is valid.
pub fn validate_state(ws: &Workspace, focused: Option<Window>, hidden: &[Window], tab_bar_frames: &[NodeId]) -> (r: Vec<Finding>)
    ensures
        r@ == focus_findings(ws, focused) + frame_findings(ws) + hidden_findings(ws, hidden@)
            + tab_bar_findings(ws, tab_bar_frames@),
{
    let mut out: Vec<Finding> = Vec::new();
    if let Some(w) = focused {
        let tiled = ws.layout.find_window(w).is_some();
        let floating = ws.is_floating(w);
        if !tiled && !floating {
            out.push(Finding { kind: ViolationKind::InvalidFocus, window: Some(w), frame: None });
        }
    }
    if ws.layout.get(ws.layout.focused).is_none() {
        out.push(Finding { kind: ViolationKind::FocusedFrameMissing, window: None, frame: Some(ws.layout.focused) });
    }
    assert(out@ == focus_findings(ws, focused) + frame_findings(ws));
    let ghost head = out@;
    let mut i: usize = 0;
    while i < hidden.len()
        invariant
            i <= hidden@.len(),
            out@ == head + hidden_findings(ws, hidden@.subrange(0, i as int)),
        decreases hidden@.len() - i,
    {
        let w = hidden[i];
        assert(hidden@.subrange(0, i + 1).drop_last() == hidden@.subrange(0, i as int));
        if ws.layout.find_window(w).is_none() {
            out.push(Finding { kind: ViolationKind::HiddenWindowOrphaned, window: Some(w), frame: None });
        }
        i = i + 1;
    }
    assert(hidden@.subrange(0, hidden@.len() as int) == hidden@);
    let ghost mid = out@;
    let mut j: usize = 0;
    while j < tab_bar_frames.len()
        invariant
            j <= tab_bar_frames@.len(),
            out@ == mid + tab_bar_findings(ws, tab_bar_frames@.subrange(0, j as int)),
        decreases tab_bar_frames@.len() - j,
    {
        let f = tab_bar_frames[j];
        assert(tab_bar_frames@.subrange(0, j + 1).drop_last() == tab_bar_frames@.subrange(0, j as int));
        if ws.layout.get(f).is_none() {
            out.push(Finding { kind: ViolationKind::OrphanedTabBar, window: None, frame: Some(f) });
        }
        j = j + 1;
    }
    assert(tab_bar_frames@.subrange(0, tab_bar_frames@.len() as int) == tab_bar_frames@);
    out
}

} // verus!
