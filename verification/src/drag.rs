//! Pointer interaction: which edge of a floating window a click grabs, what a
//! drag does as the pointer moves, and what happens when it is released.
use crate::layout::{NodeId, SplitDirection, RATIO_ONE};
use crate::types::Rect;
use vstd::prelude::*;

verus! {

/// Width in pixels of the band along a floating window's border that
/// resizes it.
pub const EDGE_SIZE: i32 = 8;

/// Smallest width or height a floating window is resized to.
pub const MIN_FLOAT_SIZE: u32 = 100;

/// Edge or corner of a floating window for resizing
#[derive(Debug, Clone, Copy, PartialEq, Eq, Structural)]
pub enum ResizeEdge {
    Top,
    Bottom,
    Left,
    Right,
    TopLeft,
    TopRight,
    BottomLeft,
    BottomRight,
}

/// What a pointer drag is doing.
#[derive(Debug, Clone, Copy, PartialEq, Eq)]
pub enum DragState {
    /// Dragging a tab between frames
    Tab { window: u32, source_frame: NodeId, source_index: usize },
    /// Resizing a split by dragging its gap; `split_start` is where the split
    /// begins along its direction and `total_size` its length
    Resize { split_id: NodeId, direction: SplitDirection, split_start: i32, total_size: u32 },
    /// Moving a floating window
    FloatMove { window: u32, start_x: i32, start_y: i32, win_x: i32, win_y: i32 },
    /// Resizing a floating window
    FloatResize {
        window: u32,
        edge: ResizeEdge,
        start_x: i32,
        start_y: i32,
        original_x: i32,
        original_y: i32,
        original_w: u32,
        original_h: u32,
    },
}

/// The edge that a click grabs, from whether it is near each side; a click
/// near two opposite sides, or near none, grabs no edge.
pub open spec fn edge_from(at_top: bool, at_bottom: bool, at_left: bool, at_right: bool) -> Option<ResizeEdge> {
    match (at_top, at_bottom, at_left, at_right) {
        (true, false, true, false) => Some(ResizeEdge::TopLeft),
        (true, false, false, true) => Some(ResizeEdge::TopRight),
        (false, true, true, false) => Some(ResizeEdge::BottomLeft),
        (false, true, false, true) => Some(ResizeEdge::BottomRight),
        (true, false, false, false) => Some(ResizeEdge::Top),
        (false, true, false, false) => Some(ResizeEdge::Bottom),
        (false, false, true, false) => Some(ResizeEdge::Left),
        (false, false, false, true) => Some(ResizeEdge::Right),
        _ => None,
    }
}

/// The edge grabbed by a click at (`local_x`, `local_y`) inside a floating
/// window of `width` by `height`: a side is near when the click is within
/// `EDGE_SIZE` pixels of it.
pub open spec fn edge_at_spec(local_x: i32, local_y: i32, width: u32, height: u32) -> Option<ResizeEdge> {
    edge_from(
        local_y < EDGE_SIZE,
        local_y >= height - EDGE_SIZE,
        local_x < EDGE_SIZE,
        local_x >= width - EDGE_SIZE,
    )
}

/// Which edge of a floating window a click at (`local_x`, `local_y`), in the
/// window's own coordinates, grabs for resizing; `None` moves the window.
pub fn resize_edge_at(local_x: i32, local_y: i32, width: u32, height: u32) -> (r: Option<ResizeEdge>)
    requires
        width <= i32::MAX,
        height <= i32::MAX,
    ensures
        r == edge_at_spec(local_x, local_y, width, height),
{
    let w = width as i32;
    let h = height as i32;
    let at_left = local_x < EDGE_SIZE;
    let at_right = local_x >= w - EDGE_SIZE;
    let at_top = local_y < EDGE_SIZE;
    let at_bottom = local_y >= h - EDGE_SIZE;
    match (at_top, at_bottom, at_left, at_right) {
        (true, false, true, false) => Some(ResizeEdge::TopLeft),
        (true, false, false, true) => Some(ResizeEdge::TopRight),
        (false, true, true, false) => Some(ResizeEdge::BottomLeft),
        (false, true, false, true) => Some(ResizeEdge::BottomRight),
        (true, false, false, false) => Some(ResizeEdge::Top),
        (false, true, false, false) => Some(ResizeEdge::Bottom),
        (false, false, true, false) => Some(ResizeEdge::Left),
        (false, false, false, true) => Some(ResizeEdge::Right),
        _ => None,
    }
}

pub open spec fn max_int(a: int, b: int) -> int {
    if a >= b {
        a
    } else {
        b
    }
}

pub open spec fn min_int(a: int, b: int) -> int {
    if a <= b {
        a
    } else {
        b
    }
}

/// Resizing from the low side (left or top) by `delta`: the side moves by
/// `delta`, but not so far that the length drops below the minimum (unless
/// it already was); the length shrinks by as much, down to the minimum.
/// Gives the new position and length.
pub open spec fn resize_low(pos: i32, len: u32, delta: int) -> (int, int) {
    let clamped = min_int(delta, max_int(len - MIN_FLOAT_SIZE, 0));
    (pos + clamped, max_int(len - clamped, MIN_FLOAT_SIZE as int))
}

/// Resizing from the high side (right or bottom) by `delta`: the length
/// grows by `delta`, and is at least the minimum.
pub open spec fn resize_high(len: u32, delta: int) -> int {
    max_int(len + delta, MIN_FLOAT_SIZE as int)
}

pub open spec fn grabs_left(edge: ResizeEdge) -> bool {
    edge is Left || edge is TopLeft || edge is BottomLeft
}

pub open spec fn grabs_right(edge: ResizeEdge) -> bool {
    edge is Right || edge is TopRight || edge is BottomRight
}

pub open spec fn grabs_top(edge: ResizeEdge) -> bool {
    edge is Top || edge is TopLeft || edge is TopRight
}

pub open spec fn grabs_bottom(edge: ResizeEdge) -> bool {
    edge is Bottom || edge is BottomLeft || edge is BottomRight
}

/// The geometry (x, y, width, height) of a floating window resized from
/// `edge` by a pointer that moved by (`dx`, `dy`).
pub open spec fn float_resize_spec(edge: ResizeEdge, x: i32, y: i32, w: u32, h: u32, dx: int, dy: int) -> (int, int, int, int) {
    let (nx, nw) = if grabs_left(edge) {
        resize_low(x, w, dx)
    } else if grabs_right(edge) {
        (x as int, resize_high(w, dx))
    } else {
        (x as int, w as int)
    };
    let (ny, nh) = if grabs_top(edge) {
        resize_low(y, h, dy)
    } else if grabs_bottom(edge) {
        (y as int, resize_high(h, dy))
    } else {
        (y as int, h as int)
    };
    (nx, ny, nw, nh)
}

/// The resize's numbers stay within `i32`.
pub open spec fn float_resize_fits(edge: ResizeEdge, x: i32, y: i32, w: u32, h: u32, dx: int, dy: int) -> bool {
    &&& w <= i32::MAX && h <= i32::MAX
    &&& i32::MIN <= dx <= i32::MAX && i32::MIN <= dy <= i32::MAX
    &&& i32::MIN <= x + dx <= i32::MAX && i32::MIN <= y + dy <= i32::MAX
    &&& w + dx <= i32::MAX && h + dy <= i32::MAX
    &&& w - dx <= i32::MAX && h - dy <= i32::MAX
}

fn resize_low_exec(pos: i32, len: u32, delta: i32) -> (r: (i32, u32))
    requires
        len <= i32::MAX,
        i32::MIN <= pos + delta <= i32::MAX,
        len - delta <= i32::MAX,
    ensures
        r.0 == resize_low(pos, len, delta as int).0,
        r.1 == resize_low(pos, len, delta as int).1,
{
    let room = len as i32 - MIN_FLOAT_SIZE as i32;
    let max_delta = if room > 0 { room } else { 0 };
    let clamped = if delta < max_delta { delta } else { max_delta };
    let new_len = len as i32 - clamped;
    (pos + clamped, if new_len > MIN_FLOAT_SIZE as i32 { new_len as u32 } else { MIN_FLOAT_SIZE })
}

fn resize_high_exec(len: u32, delta: i32) -> (r: u32)
    requires
        len <= i32::MAX,
        len + delta <= i32::MAX,
    ensures
        r == resize_high(len, delta as int),
{
    let new_len = len as i32 + delta;
    if new_len > MIN_FLOAT_SIZE as i32 {
        new_len as u32
    } else {
        MIN_FLOAT_SIZE
    }
}

/// The geometry (x, y, width, height) of a floating window resized from
/// `edge` by a pointer that moved by (`dx`, `dy`) since the drag began.
pub fn float_resize(edge: ResizeEdge, x: i32, y: i32, w: u32, h: u32, dx: i32, dy: i32) -> (r: (i32, i32, u32, u32))
    requires
        float_resize_fits(edge, x, y, w, h, dx as int, dy as int),
    ensures
        r.0 == float_resize_spec(edge, x, y, w, h, dx as int, dy as int).0,
        r.1 == float_resize_spec(edge, x, y, w, h, dx as int, dy as int).1,
        r.2 == float_resize_spec(edge, x, y, w, h, dx as int, dy as int).2,
        r.3 == float_resize_spec(edge, x, y, w, h, dx as int, dy as int).3,
{
    let left = match edge {
        ResizeEdge::Left | ResizeEdge::TopLeft | ResizeEdge::BottomLeft => true,
        _ => false,
    };
    let right = match edge {
        ResizeEdge::Right | ResizeEdge::TopRight | ResizeEdge::BottomRight => true,
        _ => false,
    };
    let top = match edge {
        ResizeEdge::Top | ResizeEdge::TopLeft | ResizeEdge::TopRight => true,
        _ => false,
    };
    let bottom = match edge {
        ResizeEdge::Bottom | ResizeEdge::BottomLeft | ResizeEdge::BottomRight => true,
        _ => false,
    };
    let (nx, nw) = if left {
        resize_low_exec(x, w, dx)
    } else if right {
        (x, resize_high_exec(w, dx))
    } else {
        (x, w)
    };
    let (ny, nh) = if top {
        resize_low_exec(y, h, dy)
    } else if bottom {
        (y, resize_high_exec(h, dy))
    } else {
        (y, h)
    };
    (nx, ny, nw, nh)
}

/// The split ratio, in millionths, that puts the divider at `mouse`, for a
/// split that starts at `start` and is `total` long; a pointer before the
/// start gives 0 and the value stops at `u32::MAX`, which is also what a
/// pointer past the start of a split of no length gives. The split's own
/// bounds are applied when the ratio is set.
pub open spec fn ratio_at_spec(mouse: i32, start: i32, total: u32) -> u32 {
    if mouse <= start {
        0
    } else if total == 0 {
        u32::MAX
    } else {
        let r = (mouse - start) * (RATIO_ONE as int) / (total as int);
        if r > u32::MAX {
            u32::MAX
        } else {
            r as u32
        }
    }
}

/// The ratio, in millionths, that puts a split's divider at `mouse`.
pub fn ratio_at(mouse: i32, start: i32, total: u32) -> (r: u32)
    ensures
        r == ratio_at_spec(mouse, start, total),
{
    if mouse <= start {
        return 0;
    }
    if total == 0 {
        return u32::MAX;
    }
    let offset = (mouse as i64 - start as i64) as u64;
    assert(offset * 1_000_000 <= 0x1_0000_0000 * 1_000_000) by (nonlinear_arith)
        requires
            offset <= 0x1_0000_0000,
    ;
    let r = offset * 1_000_000 / (total as u64);
    if r > 0xffff_ffff {
        u32::MAX
    } else {
        r as u32
    }
}

/// What the window manager does as the pointer moves.
#[derive(Debug, Clone, Copy, PartialEq, Eq)]
pub enum MotionAction {
    /// Set a split's ratio (the split clamps it to its bounds)
    SetSplitRatio { split_id: NodeId, ratio: u32 },
    /// Move a floating window
    MoveFloat { window: u32, x: i32, y: i32 },
    /// Move and resize a floating window
    ResizeFloat { window: u32, x: i32, y: i32, width: u32, height: u32 },
    /// No drag: update the pointer shape for what lies under it
    UpdateHover,
    /// Nothing to do (a tab drag, or the pointer at the start of a split of
    /// no length, where no ratio places the divider)
    Nothing,
}

/// The numbers of a motion step stay within their types.
pub open spec fn motion_fits(drag: Option<DragState>, root_x: i32, root_y: i32) -> bool {
    match drag {
        Some(DragState::FloatMove { start_x, start_y, win_x, win_y, .. }) => {
            &&& i32::MIN <= root_x - start_x <= i32::MAX
            &&& i32::MIN <= root_y - start_y <= i32::MAX
            &&& i32::MIN <= win_x + (root_x - start_x) <= i32::MAX
            &&& i32::MIN <= win_y + (root_y - start_y) <= i32::MAX
        },
        Some(
            DragState::FloatResize {
                edge,
                start_x,
                start_y,
                original_x,
                original_y,
                original_w,
                original_h,
                ..
            },
        ) => float_resize_fits(
            edge,
            original_x,
            original_y,
            original_w,
            original_h,
            root_x - start_x,
            root_y - start_y,
        ),
        _ => true,
    }
}

fn fits_i32(v: i64) -> (r: bool)
    ensures
        r == (i32::MIN <= v <= i32::MAX),
{
    v >= i32::MIN as i64 && v <= i32::MAX as i64
}

/// Whether a pointer motion to (`root_x`, `root_y`) keeps the numbers of
/// `drag` within their types, so that `on_motion` may be called.
pub fn motion_fits_check(drag: Option<DragState>, root_x: i32, root_y: i32) -> (r: bool)
    ensures
        r == motion_fits(drag, root_x, root_y),
{
    match drag {
        Some(DragState::FloatMove { start_x, start_y, win_x, win_y, .. }) => {
            let dx = root_x as i64 - start_x as i64;
            let dy = root_y as i64 - start_y as i64;
            fits_i32(dx) && fits_i32(dy) && fits_i32(win_x as i64 + dx) && fits_i32(win_y as i64 + dy)
        },
        Some(DragState::FloatResize { start_x, start_y, original_x, original_y, original_w, original_h, .. }) => {
            let dx = root_x as i64 - start_x as i64;
            let dy = root_y as i64 - start_y as i64;
            let w = original_w as i64;
            let h = original_h as i64;
            w <= i32::MAX as i64 && h <= i32::MAX as i64 && fits_i32(dx) && fits_i32(dy)
                && fits_i32(original_x as i64 + dx) && fits_i32(original_y as i64 + dy)
                && w + dx <= i32::MAX as i64 && h + dy <= i32::MAX as i64
                && w - dx <= i32::MAX as i64 && h - dy <= i32::MAX as i64
        },
        _ => true,
    }
}

/// What a pointer motion to (`root_x`, `root_y`) does, given the drag in
/// progress.
pub open spec fn motion_spec(drag: Option<DragState>, root_x: i32, root_y: i32) -> MotionAction {
    match drag {
        None => MotionAction::UpdateHover,
        Some(DragState::Tab { .. }) => MotionAction::Nothing,
        Some(DragState::Resize { split_id, direction, split_start, total_size }) => {
            let mouse = match direction {
                SplitDirection::Horizontal => root_x,
                SplitDirection::Vertical => root_y,
            };
            if total_size == 0 && mouse == split_start {
                MotionAction::Nothing
            } else {
                MotionAction::SetSplitRatio { split_id, ratio: ratio_at_spec(mouse, split_start, total_size) }
            }
        },
        Some(DragState::FloatMove { window, start_x, start_y, win_x, win_y }) => MotionAction::MoveFloat {
            window,
            x: (win_x + (root_x - start_x)) as i32,
            y: (win_y + (root_y - start_y)) as i32,
        },
        Some(
            DragState::FloatResize {
                window,
                edge,
                start_x,
                start_y,
                original_x,
                original_y,
                original_w,
                original_h,
            },
        ) => {
            let g = float_resize_spec(
                edge,
                original_x,
                original_y,
                original_w,
                original_h,
                root_x - start_x,
                root_y - start_y,
            );
            MotionAction::ResizeFloat {
                window,
                x: g.0 as i32,
                y: g.1 as i32,
                width: g.2 as u32,
                height: g.3 as u32,
            }
        },
    }
}

/// What a pointer motion to (`root_x`, `root_y`) does during `drag`.
pub fn on_motion(drag: Option<DragState>, root_x: i32, root_y: i32) -> (r: MotionAction)
    requires
        motion_fits(drag, root_x, root_y),
    ensures
        r == motion_spec(drag, root_x, root_y),
{
    match drag {
        None => MotionAction::UpdateHover,
        Some(DragState::Tab { .. }) => MotionAction::Nothing,
        Some(DragState::Resize { split_id, direction, split_start, total_size }) => {
            let mouse = match direction {
                SplitDirection::Horizontal => root_x,
                SplitDirection::Vertical => root_y,
            };
            if total_size == 0 && mouse == split_start {
                MotionAction::Nothing
            } else {
                MotionAction::SetSplitRatio { split_id, ratio: ratio_at(mouse, split_start, total_size) }
            }
        },
        Some(DragState::FloatMove { window, start_x, start_y, win_x, win_y }) => {
            let dx = root_x - start_x;
            let dy = root_y - start_y;
            MotionAction::MoveFloat { window, x: win_x + dx, y: win_y + dy }
        },
        Some(
            DragState::FloatResize {
                window,
                edge,
                start_x,
                start_y,
                original_x,
                original_y,
                original_w,
                original_h,
            },
        ) => {
            let dx = root_x - start_x;
            let dy = root_y - start_y;
            let (x, y, width, height) = float_resize(edge, original_x, original_y, original_w, original_h, dx, dy);
            MotionAction::ResizeFloat { window, x, y, width, height }
        },
    }
}

/// What the window manager does when the left button is released.
#[derive(Debug, Clone, Copy, PartialEq, Eq)]
pub enum ReleaseAction {
    /// A tab was dropped on its own frame at another position: move it
    /// there, then lay out and focus the window
    Reorder { frame: NodeId, from: usize, to: usize, window: u32 },
    /// A tab was dropped on another frame: move the window there, then lay
    /// out and focus it
    MoveToFrame { window: u32, source: NodeId, target: NodeId },
    /// A tab was dropped on its own place: lay out and focus the window
    Refocus { window: u32 },
    /// A tab was dropped outside every frame
    Cancelled,
    /// A resize or a floating move ended; nothing more to do
    Finished,
}

/// What releasing `drag` over `target_frame` (at tab `target_index`, if over
/// a tab) does.
pub open spec fn release_spec(drag: DragState, target_frame: Option<NodeId>, target_index: Option<usize>) -> ReleaseAction {
    match drag {
        DragState::Tab { window, source_frame, source_index } => match target_frame {
            None => ReleaseAction::Cancelled,
            Some(t) => if t == source_frame {
                match target_index {
                    Some(i) => if i != source_index {
                        ReleaseAction::Reorder { frame: t, from: source_index, to: i, window }
                    } else {
                        ReleaseAction::Refocus { window }
                    },
                    None => ReleaseAction::Refocus { window },
                }
            } else {
                ReleaseAction::MoveToFrame { window, source: source_frame, target: t }
            },
        },
        _ => ReleaseAction::Finished,
    }
}

/// What releasing the button ends: the drop of a tab, or a resize or move.
pub fn on_release(drag: DragState, target_frame: Option<NodeId>, target_index: Option<usize>) -> (r: ReleaseAction)
    ensures
        r == release_spec(drag, target_frame, target_index),
{
    match drag {
        DragState::Tab { window, source_frame, source_index } => match target_frame {
            None => ReleaseAction::Cancelled,
            Some(t) => {
                if t == source_frame {
                    match target_index {
                        Some(i) => {
                            if i != source_index {
                                ReleaseAction::Reorder { frame: t, from: source_index, to: i, window }
                            } else {
                                ReleaseAction::Refocus { window }
                            }
                        },
                        None => ReleaseAction::Refocus { window },
                    }
                } else {
                    ReleaseAction::MoveToFrame { window, source: source_frame, target: t }
                }
            },
        },
        _ => ReleaseAction::Finished,
    }
}

/// The point (`x`, `y`) lies inside `r`.
pub open spec fn rect_holds(r: Rect, x: int, y: int) -> bool {
    x >= r.x && x < r.x + r.width && y >= r.y && y < r.y + r.height
}

/// The first entry whose rectangle holds the point.
pub open spec fn first_rect_at(rects: Seq<(NodeId, Rect)>, x: int, y: int) -> Option<NodeId>
    decreases rects.len(),
{
    if rects.len() == 0 {
        None
    } else if rect_holds(rects[0].1, x, y) {
        Some(rects[0].0)
    } else {
        first_rect_at(rects.drop_first(), x, y)
    }
}

/// Rectangles whose right and bottom edges are `i32` values.
pub open spec fn rects_fit(rects: Seq<(NodeId, Rect)>) -> bool {
    forall|i: int|
        0 <= i < rects.len() ==> {
            let r = #[trigger] rects[i].1;
            &&& r.width <= i32::MAX && r.height <= i32::MAX
            &&& r.x + r.width <= i32::MAX && r.y + r.height <= i32::MAX
        }
}

/// The first frame, in the given order, whose rectangle holds the point.
pub fn frame_at_point(rects: &[(NodeId, Rect)], x: i32, y: i32) -> (r: Option<NodeId>)
    requires
        rects_fit(rects@),
    ensures
        r == first_rect_at(rects@, x as int, y as int),
{
    let mut i: usize = 0;
    proof {
        assert(rects@.subrange(0, rects@.len() as int) =~= rects@);
    }
    while i < rects.len()
        invariant
            i <= rects@.len(),
            rects_fit(rects@),
            first_rect_at(rects@, x as int, y as int) == first_rect_at(
                rects@.subrange(i as int, rects@.len() as int),
                x as int,
                y as int,
            ),
        decreases rects@.len() - i,
    {
        let (id, r) = rects[i];
        proof {
            let rest = rects@.subrange(i as int, rects@.len() as int);
            assert(rest[0] == rects@[i as int]);
            assert(rest.drop_first() =~= rects@.subrange(i + 1, rects@.len() as int));
        }
        if x >= r.x && x < r.x + r.width as i32 && y >= r.y && y < r.y + r.height as i32 {
            return Some(id);
        }
        i = i + 1;
    }
    proof {
        assert(rects@.subrange(i as int, rects@.len() as int) =~= Seq::<(NodeId, Rect)>::empty());
    }
    None
}

} // verus!
