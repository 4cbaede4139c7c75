//! Where each frame's windows and tab bar go on screen, from the frames'
//! rectangles: the front tab's window is shown in the frame's client area,
//! the other tabs are hidden, and a tab bar sits at the top of a frame with
//! two windows or more.
use crate::layout::{frame_of, is_frame, Frame, LayoutTree, Node, NodeEntry, NodeId, Window};
use crate::types::{saturating_sub_spec, Rect};
use vstd::prelude::*;

verus! {

/// What to do with one frame on screen.
pub struct FramePlacement {
    pub frame_id: NodeId,
    /// The frame's rectangle
    pub rect: Rect,
    /// Whether a tab bar is shown along the frame's top
    pub show_tab_bar: bool,
    /// The window in front, with the rectangle of its inside (its border
    /// goes around it)
    pub front: Option<(Window, Rect)>,
    /// The frame's other windows, to hide
    pub hidden: Vec<Window>,
    /// Whether the frame has no window (it then shows a placeholder)
    pub is_empty: bool,
    /// Whether the frame is the focused one
    pub is_focused: bool,
}

/// A frame shows a tab bar when it holds two windows or more.
pub open spec fn shows_tab_bar(f: Frame) -> bool {
    f.windows@.len() >= 2
}

/// The part of a frame's rectangle left to its windows: below the tab bar
/// when there is one.
pub open spec fn client_area(rect: Rect, tab_bar: bool, tab_bar_height: u32) -> Rect {
    if tab_bar {
        Rect {
            x: rect.x,
            y: (rect.y + tab_bar_height) as i32,
            width: rect.width,
            height: saturating_sub_spec(rect.height, tab_bar_height as int),
        }
    } else {
        rect
    }
}

/// The inside of a window placed in `client` with a border of `border`
/// pixels: same corner, smaller by the border on each side.
pub open spec fn window_rect(client: Rect, border: u32) -> Rect {
    Rect {
        x: client.x,
        y: client.y,
        width: saturating_sub_spec(client.width, border * 2),
        height: saturating_sub_spec(client.height, border * 2),
    }
}

/// The windows of `ws` other than the one at `front`, in order.
pub open spec fn others(ws: Seq<Window>, front: int) -> Seq<Window>
    decreases ws.len(),
{
    if ws.len() == 0 {
        seq![]
    } else if ws.len() - 1 == front {
        others(ws.drop_last(), front)
    } else {
        others(ws.drop_last(), front).push(ws.last())
    }
}

/// `p` places frame `f`, stored under `id` with rectangle `rect`.
pub open spec fn placement_ok(p: FramePlacement, f: Frame, id: NodeId, rect: Rect, focused: NodeId, tab_bar_height: u32, border: u32) -> bool {
    let bar = shows_tab_bar(f);
    &&& p.frame_id == id
    &&& p.rect == rect
    &&& p.show_tab_bar == bar
    &&& p.is_empty == (f.windows@.len() == 0)
    &&& p.is_focused == (id == focused)
    &&& p.front == if f.focused < f.windows@.len() {
        Some((f.windows@[f.focused as int], window_rect(client_area(rect, bar, tab_bar_height), border)))
    } else {
        None
    }
    &&& p.hidden@ == others(f.windows@, f.focused as int)
}

/// The entries of `geoms` that name frames of `m`, in order.
pub open spec fn framed(m: Map<NodeId, NodeEntry>, geoms: Seq<(NodeId, Rect)>) -> Seq<(NodeId, Rect)>
    decreases geoms.len(),
{
    if geoms.len() == 0 {
        seq![]
    } else if is_frame(m, geoms.last().0) {
        framed(m, geoms.drop_last()).push(geoms.last())
    } else {
        framed(m, geoms.drop_last())
    }
}

/// The numbers of the placements stay within their types.
pub open spec fn placement_fits(geoms: Seq<(NodeId, Rect)>, tab_bar_height: u32, border: u32) -> bool {
    &&& border * 2 <= u32::MAX
    &&& tab_bar_height <= i32::MAX
    &&& forall|i: int| 0 <= i < geoms.len() ==> #[trigger] geoms[i].1.y + tab_bar_height <= i32::MAX
}

fn others_of(ws: &Vec<Window>, front: usize) -> (r: Vec<Window>)
    ensures
        r@ == others(ws@, front as int),
{
    let mut out: Vec<Window> = Vec::new();
    let mut i: usize = 0;
    proof {
        assert(ws@.take(0) =~= Seq::<Window>::empty());
    }
    while i < ws.len()
        invariant
            i <= ws@.len(),
            out@ == others(ws@.take(i as int), front as int),
        decreases ws@.len() - i,
    {
        proof {
            assert(ws@.take(i + 1).drop_last() =~= ws@.take(i as int));
            assert(ws@.take(i + 1).last() == ws@[i as int]);
        }
        if i != front {
            out.push(ws[i]);
        }
        i = i + 1;
    }
    proof {
        assert(ws@.take(ws@.len() as int) =~= ws@);
    }
    out
}

fn place_frame(frame: &Frame, id: NodeId, rect: Rect, focused: NodeId, tab_bar_height: u32, border: u32) -> (p: FramePlacement)
    requires
        border * 2 <= u32::MAX,
        tab_bar_height <= i32::MAX,
        rect.y + tab_bar_height <= i32::MAX,
    ensures
        placement_ok(p, *frame, id, rect, focused, tab_bar_height, border),
{
    let n = frame.windows.len();
    let bar = n >= 2;
    let client = if bar {
        Rect::new(rect.x, rect.y + tab_bar_height as i32, rect.width, rect.height.saturating_sub(tab_bar_height))
    } else {
        rect
    };
    let front = if frame.focused < n {
        let inner = Rect::new(
            client.x,
            client.y,
            client.width.saturating_sub(border * 2),
            client.height.saturating_sub(border * 2),
        );
        Some((frame.windows[frame.focused], inner))
    } else {
        None
    };
    FramePlacement {
        frame_id: id,
        rect,
        show_tab_bar: bar,
        front,
        hidden: others_of(&frame.windows, frame.focused),
        is_empty: n == 0,
        is_focused: id == focused,
    }
}

impl LayoutTree {
    /// The placement of each frame that `geometries` lists, in its order;
    /// entries that name no frame of the tree are skipped.
    pub fn frame_placements(&self, geometries: &[(NodeId, Rect)], tab_bar_height: u32, border: u32) -> (r: Vec<FramePlacement>)
        requires
            placement_fits(geometries@, tab_bar_height, border),
        ensures
            r@.len() == framed(self.entries(), geometries@).len(),
            forall|i: int|
                0 <= i < r@.len() ==> {
                    let (id, rect) = #[trigger] framed(self.entries(), geometries@)[i];
                    placement_ok(r@[i], frame_of(self.entries(), id), id, rect, self.focused, tab_bar_height, border)
                },
    {
        let ghost m = self.entries();
        let mut out: Vec<FramePlacement> = Vec::new();
        let mut i: usize = 0;
        proof {
            assert(geometries@.take(0) =~= Seq::<(NodeId, Rect)>::empty());
        }
        while i < geometries.len()
            invariant
                m == self.entries(),
                i <= geometries@.len(),
                placement_fits(geometries@, tab_bar_height, border),
                out@.len() == framed(m, geometries@.take(i as int)).len(),
                forall|j: int|
                    0 <= j < out@.len() ==> {
                        let (id, rect) = #[trigger] framed(m, geometries@.take(i as int))[j];
                        placement_ok(out@[j], frame_of(m, id), id, rect, self.focused, tab_bar_height, border)
                    },
            decreases geometries@.len() - i,
        {
            let (id, rect) = geometries[i];
            proof {
                assert(geometries@.take(i + 1).drop_last() =~= geometries@.take(i as int));
                assert(geometries@.take(i + 1).last() == geometries@[i as int]);
                assert(geometries@[i as int].1.y + tab_bar_height <= i32::MAX);
            }
            match self.get(id) {
                Some(Node::Frame(frame)) => {
                    let p = place_frame(frame, id, rect, self.focused, tab_bar_height, border);
                    out.push(p);
                },
                _ => {},
            }
            i = i + 1;
        }
        proof {
            assert(geometries@.take(geometries@.len() as int) =~= geometries@);
        }
        out
    }
}

} // verus!
