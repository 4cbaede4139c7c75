//! Workspace (virtual desktop) management.
//!
//! Each monitor has a fixed set of workspaces; one of them is current.

use vstd::prelude::*;

use crate::layout::{first_holding, step_index, windows_along, LayoutTree, Window};

verus! {

/// Number of workspaces (virtual desktops)
pub const NUM_WORKSPACES: usize = 9;

/// A floating window with its geometry
#[derive(Debug, Clone, Copy)]
pub struct FloatingWindow {
    pub window: Window,
    pub x: i32,
    pub y: i32,
    pub width: u32,
    pub height: u32,
}

/// The floating windows' ids, in order.
pub open spec fn floating_ids(fs: Seq<FloatingWindow>) -> Seq<Window> {
    fs.map_values(|f: FloatingWindow| f.window)
}

/// A workspace (virtual desktop) containing an independent layout tree
pub struct Workspace {
    /// Unique identifier (1-9)
    pub id: usize,
    /// The layout tree for this workspace
    pub layout: LayoutTree,
    /// The last focused window in this workspace (for focus restoration)
    pub last_focused_window: Option<Window>,
    /// Floating windows in this workspace
    pub floating_windows: Vec<FloatingWindow>,
}

impl Workspace {
    /// Create a new workspace with the given id
    pub fn new(id: usize) -> (w: Self)
        ensures
            w.id == id,
            w.layout.wf(),
            w.layout.frames() == seq![w.layout.root],
            w.layout.focused == w.layout.root,
            w.layout.spec_focused_frame().windows@ == Seq::<Window>::empty(),
            w.last_focused_window is None,
            w.floating_windows@ == Seq::<FloatingWindow>::empty(),
    {
        let layout = LayoutTree::new();
        Workspace { id, layout, last_focused_window: None, floating_windows: Vec::new() }
    }

    /// Add a floating window to this workspace
    pub fn add_floating(&mut self, window: Window, x: i32, y: i32, width: u32, height: u32)
        ensures
            final(self).floating_windows@ == old(self).floating_windows@.push(
                FloatingWindow { window, x, y, width, height },
            ),
            final(self).id == old(self).id,
            final(self).layout == old(self).layout,
            final(self).last_focused_window == old(self).last_focused_window,
    {
        self.floating_windows.push(FloatingWindow { window, x, y, width, height });
    }

    /// Index of the first floating window with id `window`.
    fn position(&self, window: Window) -> (r: Option<usize>)
        ensures
            match r {
                Some(i) => {
                    &&& i < self.floating_windows@.len()
                    &&& self.floating_windows@[i as int].window == window
                    &&& forall|j: int| 0 <= j < i ==> self.floating_windows@[j].window != window
                },
                None => forall|j: int|
                    0 <= j < self.floating_windows@.len() ==> self.floating_windows@[j].window != window,
            },
    {
        let mut i: usize = 0;
        while i < self.floating_windows.len()
            invariant
                i <= self.floating_windows@.len(),
                forall|j: int| 0 <= j < i ==> self.floating_windows@[j].window != window,
            decreases self.floating_windows@.len() - i,
        {
            if self.floating_windows[i].window == window {
                return Some(i);
            }
            i = i + 1;
        }
        None
    }

    /// Moves and resizes the floating window `window` (its first entry), if
    /// it floats here; says whether it did.
    pub fn set_floating_geometry(&mut self, window: Window, x: i32, y: i32, width: u32, height: u32) -> (r: bool)
        ensures
            r == floating_ids(old(self).floating_windows@).contains(window),
            r ==> {
                let i = floating_ids(old(self).floating_windows@).index_of_first(window)->0;
                final(self).floating_windows@ == old(self).floating_windows@.update(
                    i,
                    FloatingWindow { window, x, y, width, height },
                )
            },
            !r ==> final(self).floating_windows@ == old(self).floating_windows@,
            final(self).id == old(self).id,
            final(self).layout == old(self).layout,
            final(self).last_focused_window == old(self).last_focused_window,
    {
        let ghost ids = floating_ids(self.floating_windows@);
        match self.position(window) {
            Some(i) => {
                proof {
                    ids.index_of_first_ensures(window);
                    assert(ids[i as int] == window);
                    assert(ids.index_of_first(window) == Some(i as int));
                }
                self.floating_windows.set(i, FloatingWindow { window, x, y, width, height });
                true
            },
            None => {
                proof {
                    if ids.contains(window) {
                        let j = choose|j: int| 0 <= j < ids.len() && ids[j] == window;
                        assert(self.floating_windows@[j].window == window);
                    }
                }
                false
            },
        }
    }

    /// Remove a floating window from this workspace, returning its geometry if found
    pub fn remove_floating(&mut self, window: Window) -> (r: Option<FloatingWindow>)
        ensures
            floating_ids(old(self).floating_windows@).contains(window) ==> {
                let i = floating_ids(old(self).floating_windows@).index_of_first(window)->0;
                &&& r == Some(old(self).floating_windows@[i])
                &&& final(self).floating_windows@ == old(self).floating_windows@.remove(i)
            },
            !floating_ids(old(self).floating_windows@).contains(window) ==> {
                &&& r is None
                &&& final(self).floating_windows@ == old(self).floating_windows@
            },
            final(self).id == old(self).id,
            final(self).layout == old(self).layout,
            final(self).last_focused_window == old(self).last_focused_window,
    {
        let ghost ids = floating_ids(self.floating_windows@);
        proof {
            ids.index_of_first_ensures(window);
        }
        match self.position(window) {
            Some(pos) => {
                proof {
                    let k = ids.index_of_first(window)->0;
                    assert(ids[pos as int] == window);
                    assert(k == pos) by {
                        if k < pos {
                            assert(ids[k] == self.floating_windows@[k].window);
                        } else if k > pos {
                        }
                    }
                }
                Some(self.floating_windows.remove(pos))
            },
            None => {
                proof {
                    if ids.contains(window) {
                        let j = choose|j: int| 0 <= j < ids.len() && ids[j] == window;
                        assert(self.floating_windows@[j].window == window);
                    }
                }
                None
            },
        }
    }

    /// Find a floating window by its X11 window ID
    pub fn find_floating(&self, window: Window) -> (r: Option<&FloatingWindow>)
        ensures
            floating_ids(self.floating_windows@).contains(window) ==> r == Some(
                &self.floating_windows@[floating_ids(self.floating_windows@).index_of_first(window)->0],
            ),
            !floating_ids(self.floating_windows@).contains(window) ==> r is None,
    {
        let ghost ids = floating_ids(self.floating_windows@);
        proof {
            ids.index_of_first_ensures(window);
        }
        match self.position(window) {
            Some(pos) => {
                proof {
                    let k = ids.index_of_first(window)->0;
                    assert(ids[pos as int] == window);
                    assert(k == pos) by {
                        if k < pos {
                            assert(ids[k] == self.floating_windows@[k].window);
                        } else if k > pos {
                        }
                    }
                }
                Some(&self.floating_windows[pos])
            },
            None => {
                proof {
                    if ids.contains(window) {
                        let j = choose|j: int| 0 <= j < ids.len() && ids[j] == window;
                        assert(self.floating_windows@[j].window == window);
                    }
                }
                None
            },
        }
    }

    /// Check if a window is floating in this workspace
    pub fn is_floating(&self, window: Window) -> (r: bool)
        ensures
            r == floating_ids(self.floating_windows@).contains(window),
    {
        let ghost ids = floating_ids(self.floating_windows@);
        match self.position(window) {
            Some(pos) => {
                proof {
                    assert(ids[pos as int] == window);
                }
                true
            },
            None => {
                proof {
                    if ids.contains(window) {
                        let j = choose|j: int| 0 <= j < ids.len() && ids[j] == window;
                        assert(self.floating_windows@[j].window == window);
                    }
                }
                false
            },
        }
    }

    /// Get all floating window IDs
    pub fn floating_window_ids(&self) -> (r: Vec<Window>)
        ensures
            r@ == floating_ids(self.floating_windows@),
    {
        let mut ids = Vec::new();
        let mut i: usize = 0;
        while i < self.floating_windows.len()
            invariant
                i <= self.floating_windows@.len(),
                ids@ == floating_ids(self.floating_windows@.take(i as int)),
            decreases self.floating_windows@.len() - i,
        {
            ids.push(self.floating_windows[i].window);
            proof {
                assert(self.floating_windows@.take(i + 1) =~= self.floating_windows@.take(i as int).push(
                    self.floating_windows@[i as int],
                ));
                assert(floating_ids(self.floating_windows@.take(i + 1)) =~= floating_ids(
                    self.floating_windows@.take(i as int),
                ).push(self.floating_windows@[i as int].window));
            }
            i = i + 1;
        }
        proof {
            assert(self.floating_windows@.take(i as int) =~= self.floating_windows@);
        }
        ids
    }
}

impl Workspace {
    /// The windows in focus-cycling order: the tiled ones, frame after frame,
    /// then the floating ones.
    pub open spec fn spec_focus_order(&self) -> Seq<Window> {
        windows_along(self.layout.entries(), self.layout.walk_order()) + floating_ids(self.floating_windows@)
    }

    /// The windows in focus-cycling order.
    pub fn focus_order(&self) -> (r: Vec<Window>)
        ensures
            r@ == self.spec_focus_order(),
    {
        let mut all = self.layout.all_windows();
        let mut floating = self.floating_window_ids();
        all.append(&mut floating);
        all
    }

    /// Whether the workspace holds `window`, tiled or floating.
    pub open spec fn holds(&self, window: Window) -> bool {
        floating_ids(self.floating_windows@).contains(window) || first_holding(
            self.layout.entries(),
            self.layout.walk_order(),
            window,
        ) is Some
    }
}

/// The window that cycling the focus `forward` (or back) reaches from
/// `focused` among `order`; from a window not in `order`, or none, it starts
/// from the first.
pub open spec fn cycle_focus_spec(order: Seq<Window>, focused: Option<Window>, forward: bool) -> Option<Window> {
    if order.len() == 0 {
        None
    } else {
        let current = match focused {
            Some(w) => match order.index_of_first(w) {
                Some(i) => i,
                None => 0,
            },
            None => 0,
        };
        Some(order[step_index(current, order.len() as int, forward)])
    }
}

/// The window that cycling the focus reaches.
pub fn cycle_focus_target(order: &Vec<Window>, focused: Option<Window>, forward: bool) -> (r: Option<Window>)
    ensures
        r == cycle_focus_spec(order@, focused, forward),
{
    let n = order.len();
    if n == 0 {
        return None;
    }
    let mut current: usize = 0;
    match focused {
        Some(w) => {
            let mut i: usize = 0;
            let mut found = false;
            while i < n
                invariant
                    n == order@.len(),
                    n > 0,
                    current < n,
                    i <= n,
                    !found ==> current == 0,
                    !found ==> forall|j: int| 0 <= j < i ==> order@[j] != w,
                    found ==> current < n && order@.index_of_first(w) == Some(current as int),
                decreases n - i,
            {
                if !found && order[i] == w {
                    found = true;
                    current = i;
                    proof {
                        order@.index_of_first_ensures(w);
                    }
                }
                i = i + 1;
            }
            proof {
                order@.index_of_first_ensures(w);
                if !found {
                    assert(!order@.contains(w));
                }
            }
        },
        None => {},
    }
    let next = if forward {
        (current + 1) % n
    } else if current == 0 {
        n - 1
    } else {
        current - 1
    };
    Some(order[next])
}

/// The first workspace from index `i` on that holds `window`.
pub open spec fn first_workspace_holding(wss: Seq<Workspace>, window: Window, i: int) -> Option<int>
    decreases wss.len() - i,
{
    if i < 0 || i >= wss.len() {
        None
    } else if wss[i].holds(window) {
        Some(i)
    } else {
        first_workspace_holding(wss, window, i + 1)
    }
}

/// The tiled windows of the workspaces from index `i` on.
pub open spec fn tiled_from(wss: Seq<Workspace>, i: int) -> Seq<Window>
    decreases wss.len() - i,
{
    if i < 0 || i >= wss.len() {
        seq![]
    } else {
        windows_along(wss[i].layout.entries(), wss[i].layout.walk_order()) + tiled_from(wss, i + 1)
    }
}

/// The floating windows of the workspaces from index `i` on.
pub open spec fn floating_from(wss: Seq<Workspace>, i: int) -> Seq<Window>
    decreases wss.len() - i,
{
    if i < 0 || i >= wss.len() {
        seq![]
    } else {
        floating_ids(wss[i].floating_windows@) + floating_from(wss, i + 1)
    }
}

/// Manages multiple workspaces (virtual desktops)
pub struct WorkspaceManager {
    /// All workspaces (fixed array of 9)
    pub workspaces: [Workspace; NUM_WORKSPACES],
    /// Index of the current workspace (0-8)
    pub current: usize,
}

impl WorkspaceManager {
    /// Index of the current workspace.
    pub open spec fn current_spec(&self) -> usize {
        self.current
    }

    /// The current index names a workspace.
    pub open spec fn wf(&self) -> bool {
        self.current_spec() < NUM_WORKSPACES
    }

    /// Nine workspaces numbered 1 to 9, each a single empty frame with no
    /// floating window; the first is current.
    pub open spec fn is_fresh(&self) -> bool {
        &&& self.wf()
        &&& self.current_spec() == 0
        &&& forall|i: int|
            0 <= i < NUM_WORKSPACES ==> {
                &&& (#[trigger] self.workspaces@[i]).id == i + 1
                &&& self.workspaces@[i].layout.wf()
                &&& self.workspaces@[i].layout.frames() == seq![self.workspaces@[i].layout.root]
                &&& self.workspaces@[i].floating_windows@.len() == 0
                &&& self.workspaces@[i].last_focused_window is None
            }
    }

    /// Create a new workspace manager with 9 workspaces, numbered 1 to 9;
    /// the first is current
    pub fn new() -> (m: Self)
        ensures
            m.is_fresh(),
    {
        let m = WorkspaceManager {
            workspaces: [
                Workspace::new(1),
                Workspace::new(2),
                Workspace::new(3),
                Workspace::new(4),
                Workspace::new(5),
                Workspace::new(6),
                Workspace::new(7),
                Workspace::new(8),
                Workspace::new(9),
            ],
            current: 0,
        };
        m
    }

    /// The first workspace, in order, that holds `window`, tiled or floating.
    pub open spec fn spec_window_workspace(&self, window: Window) -> Option<int> {
        first_workspace_holding(self.workspaces@, window, 0)
    }

    /// The index of the workspace that holds `window`.
    pub fn find_window_workspace(&self, window: Window) -> (r: Option<usize>)
        ensures
            match self.spec_window_workspace(window) {
                Some(i) => r == Some(i as usize),
                None => r is None,
            },
    {
        let mut idx: usize = 0;
        while idx < NUM_WORKSPACES
            invariant
                idx <= NUM_WORKSPACES,
                self.workspaces@.len() == NUM_WORKSPACES,
                first_workspace_holding(self.workspaces@, window, 0) == first_workspace_holding(self.workspaces@, window, idx as int),
            decreases NUM_WORKSPACES - idx,
        {
            let ws = &self.workspaces[idx];
            if ws.is_floating(window) {
                return Some(idx);
            }
            if ws.layout.find_window(window).is_some() {
                return Some(idx);
            }
            idx = idx + 1;
        }
        None
    }

    /// Every managed window, for `_NET_CLIENT_LIST`: the tiled windows of
    /// each workspace in turn, then the floating windows of each.
    pub fn client_list(&self) -> (r: Vec<Window>)
        ensures
            r@ == tiled_from(self.workspaces@, 0) + floating_from(self.workspaces@, 0),
    {
        let mut tiled: Vec<Window> = Vec::new();
        let mut floating: Vec<Window> = Vec::new();
        let mut idx: usize = NUM_WORKSPACES;
        while idx > 0
            invariant
                idx <= NUM_WORKSPACES,
                self.workspaces@.len() == NUM_WORKSPACES,
                tiled@ == tiled_from(self.workspaces@, idx as int),
                floating@ == floating_from(self.workspaces@, idx as int),
            decreases idx,
        {
            idx = idx - 1;
            let ws = &self.workspaces[idx];
            let mut t = ws.layout.all_windows();
            t.append(&mut tiled);
            tiled = t;
            let mut f = ws.floating_window_ids();
            f.append(&mut floating);
            floating = f;
        }
        tiled.append(&mut floating);
        tiled
    }

    /// Get a reference to the current workspace
    pub fn current(&self) -> (r: &Workspace)
        requires
            self.wf(),
        ensures
            *r == self.workspaces@[self.current_spec() as int],
    {
        &self.workspaces[self.current]
    }

    /// Get a mutable reference to the current workspace
    pub fn current_mut(&mut self) -> (r: &mut Workspace)
        requires
            old(self).wf(),
        ensures
            *r == old(self).workspaces@[old(self).current_spec() as int],
            final(self).current_spec() == old(self).current_spec(),
            final(self).workspaces@ == old(self).workspaces@.update(old(self).current_spec() as int, *final(r)),
    {
        &mut self.workspaces[self.current]
    }

    /// Get the index of the current workspace (0-based)
    pub fn current_index(&self) -> (r: usize)
        ensures
            r == self.current_spec(),
    {
        self.current
    }

    /// Switch to a specific workspace (0-indexed)
    /// Returns the old workspace index if switch was successful
    pub fn switch_to(&mut self, target: usize) -> (r: Option<usize>)
        ensures
            final(self).workspaces == old(self).workspaces,
            target >= NUM_WORKSPACES || target == old(self).current_spec() ==> {
                &&& r is None
                &&& final(self).current_spec() == old(self).current_spec()
            },
            target < NUM_WORKSPACES && target != old(self).current_spec() ==> {
                &&& r == Some(old(self).current_spec())
                &&& final(self).current_spec() == target
            },
    {
        if target >= NUM_WORKSPACES || target == self.current {
            return None;
        }
        let old = self.current;
        self.current = target;
        Some(old)
    }

    /// Cycle to the next workspace (wrapping around)
    /// Returns the old workspace index
    pub fn next(&mut self) -> (r: usize)
        requires
            old(self).wf(),
        ensures
            final(self).wf(),
            final(self).workspaces == old(self).workspaces,
            r == old(self).current_spec(),
            final(self).current_spec() == step_index(old(self).current_spec() as int, NUM_WORKSPACES as int, true),
    {
        let old = self.current;
        self.current = (self.current + 1) % NUM_WORKSPACES;
        old
    }

    /// Cycle to the previous workspace (wrapping around)
    /// Returns the old workspace index
    pub fn prev(&mut self) -> (r: usize)
        requires
            old(self).wf(),
        ensures
            final(self).wf(),
            final(self).workspaces == old(self).workspaces,
            r == old(self).current_spec(),
            final(self).current_spec() == step_index(old(self).current_spec() as int, NUM_WORKSPACES as int, false),
    {
        let old = self.current;
        self.current = if self.current == 0 { NUM_WORKSPACES - 1 } else { self.current - 1 };
        old
    }
}

impl Default for WorkspaceManager {
    fn default() -> (r: Self)
        ensures
            r.is_fresh(),
    {
        Self::new()
    }
}

} // verus!
