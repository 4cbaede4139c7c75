//! Geometry types shared across the window manager.

use vstd::prelude::*;

verus! {

/// Rust's `/` on `i32` by two: rounds toward zero.
pub open spec fn half_toward_zero(v: i32) -> int {
    if v >= 0 {
        v as int / 2
    } else {
        -((-(v as int)) / 2)
    }
}

/// A rectangle representing geometry
#[derive(Debug, Clone, Copy, PartialEq, Eq, Structural)]
pub struct Rect {
    pub x: i32,
    pub y: i32,
    pub width: u32,
    pub height: u32,
}

impl Rect {
    /// The horizontal centre, as the window manager computes it.
    pub open spec fn spec_center_x(self) -> int {
        self.x + half_toward_zero(self.width as i32)
    }

    pub open spec fn spec_center_y(self) -> int {
        self.y + half_toward_zero(self.height as i32)
    }

    pub open spec fn center_fits(self) -> bool {
        &&& i32::MIN <= self.spec_center_x() <= i32::MAX
        &&& i32::MIN <= self.spec_center_y() <= i32::MAX
    }

    pub fn new(x: i32, y: i32, width: u32, height: u32) -> (r: Self)
        ensures
            r == (Rect { x, y, width, height }),
    {
        Rect { x, y, width, height }
    }

    /// Center X coordinate
    pub fn center_x(&self) -> (r: i32)
        requires
            i32::MIN <= self.spec_center_x() <= i32::MAX,
        ensures
            r == self.spec_center_x(),
    {
        self.x + (self.width as i32) / 2
    }

    /// Center Y coordinate
    pub fn center_y(&self) -> (r: i32)
        requires
            i32::MIN <= self.spec_center_y() <= i32::MAX,
        ensures
            r == self.spec_center_y(),
    {
        self.y + (self.height as i32) / 2
    }
}

/// A rectangle as reported to IPC clients.
#[derive(Debug, Clone, Copy, PartialEq, Eq, Structural)]
pub struct RectSnapshot {
    pub x: i32,
    pub y: i32,
    pub width: u32,
    pub height: u32,
}

impl From<Rect> for RectSnapshot {
    fn from(r: Rect) -> (s: Self) {
        RectSnapshot { x: r.x, y: r.y, width: r.width, height: r.height }
    }
}

impl vstd::std_specs::convert::FromSpecImpl<Rect> for RectSnapshot {
    open spec fn obeys_from_spec() -> bool {
        true
    }

    open spec fn from_spec(r: Rect) -> RectSnapshot {
        RectSnapshot { x: r.x, y: r.y, width: r.width, height: r.height }
    }
}

/// Space that a dock or panel reserves at the screen's edges (EWMH
/// `_NET_WM_STRUT_PARTIAL`), with the extent along each edge.
#[derive(Debug, Clone, Copy, PartialEq, Eq, Structural)]
pub struct StrutPartial {
    pub left: u32,
    pub right: u32,
    pub top: u32,
    pub bottom: u32,
    pub left_start_y: u32,
    pub left_end_y: u32,
    pub right_start_y: u32,
    pub right_end_y: u32,
    pub top_start_x: u32,
    pub top_end_x: u32,
    pub bottom_start_x: u32,
    pub bottom_end_x: u32,
}

impl Default for StrutPartial {
    fn default() -> (r: Self)
        ensures
            r == (StrutPartial {
                left: 0,
                right: 0,
                top: 0,
                bottom: 0,
                left_start_y: 0,
                left_end_y: 0,
                right_start_y: 0,
                right_end_y: 0,
                top_start_x: 0,
                top_end_x: 0,
                bottom_start_x: 0,
                bottom_end_x: 0,
            }),
    {
        StrutPartial {
            left: 0,
            right: 0,
            top: 0,
            bottom: 0,
            left_start_y: 0,
            left_end_y: 0,
            right_start_y: 0,
            right_end_y: 0,
            top_start_x: 0,
            top_end_x: 0,
            bottom_start_x: 0,
            bottom_end_x: 0,
        }
    }
}

pub open spec fn max_u32(a: u32, b: u32) -> u32 {
    if a >= b {
        a
    } else {
        b
    }
}

/// The space reserved at each edge (left, right, top, bottom) by a set of
/// docks: the largest reservation at that edge, or 0 where there is none.
pub open spec fn reserved_edges(struts: Seq<StrutPartial>) -> (u32, u32, u32, u32)
    decreases struts.len(),
{
    if struts.len() == 0 {
        (0, 0, 0, 0)
    } else {
        let a = reserved_edges(struts.drop_last());
        let s = struts.last();
        (max_u32(a.0, s.left), max_u32(a.1, s.right), max_u32(a.2, s.top), max_u32(a.3, s.bottom))
    }
}

/// The largest reservation at each edge (left, right, top, bottom).
pub fn strut_totals(struts: &Vec<StrutPartial>) -> (r: (u32, u32, u32, u32))
    ensures
        r == reserved_edges(struts@),
{
    let mut acc: (u32, u32, u32, u32) = (0, 0, 0, 0);
    let mut i: usize = 0;
    proof {
        assert(struts@.take(0) =~= Seq::<StrutPartial>::empty());
    }
    while i < struts.len()
        invariant
            i <= struts@.len(),
            acc == reserved_edges(struts@.take(i as int)),
        decreases struts@.len() - i,
    {
        let s = struts[i];
        proof {
            assert(struts@.take(i + 1).drop_last() =~= struts@.take(i as int));
        }
        acc = (
            if acc.0 >= s.left { acc.0 } else { s.left },
            if acc.1 >= s.right { acc.1 } else { s.right },
            if acc.2 >= s.top { acc.2 } else { s.top },
            if acc.3 >= s.bottom { acc.3 } else { s.bottom },
        );
        i = i + 1;
    }
    proof {
        assert(struts@.take(struts@.len() as int) =~= struts@);
    }
    acc
}

pub open spec fn saturating_sub_spec(a: u32, b: int) -> u32 {
    if a >= b {
        (a - b) as u32
    } else {
        0
    }
}

/// What `usable_area` gives: `base` shrunk by the outer gap on every side and
/// by the docks' reservations; a side that would go below zero becomes zero.
pub open spec fn usable_area_spec(base: Rect, outer_gap: u32, struts: Seq<StrutPartial>) -> Rect {
    let e = reserved_edges(struts);
    Rect {
        x: (base.x + outer_gap + e.0) as i32,
        y: (base.y + outer_gap + e.2) as i32,
        width: saturating_sub_spec(base.width, outer_gap * 2 + e.0 + e.1),
        height: saturating_sub_spec(base.height, outer_gap * 2 + e.2 + e.3),
    }
}

/// The numbers in `usable_area` stay within their types.
pub open spec fn usable_area_fits(base: Rect, outer_gap: u32, struts: Seq<StrutPartial>) -> bool {
    let e = reserved_edges(struts);
    &&& outer_gap <= i32::MAX
    &&& e.0 <= i32::MAX && e.2 <= i32::MAX
    &&& base.x + outer_gap + e.0 <= i32::MAX
    &&& base.y + outer_gap + e.2 <= i32::MAX
    &&& outer_gap * 2 + e.0 + e.1 <= u32::MAX
    &&& outer_gap * 2 + e.2 + e.3 <= u32::MAX
}

/// The area of a monitor that tiled windows may use: its geometry less the
/// outer gap and the space that docks reserve.
pub fn usable_area(base: Rect, outer_gap: u32, struts: &Vec<StrutPartial>) -> (r: Rect)
    requires
        usable_area_fits(base, outer_gap, struts@),
    ensures
        r == usable_area_spec(base, outer_gap, struts@),
{
    let (left, right, top, bottom) = strut_totals(struts);
    let horizontal = outer_gap * 2 + left + right;
    let vertical = outer_gap * 2 + top + bottom;
    Rect::new(
        base.x + outer_gap as i32 + left as i32,
        base.y + outer_gap as i32 + top as i32,
        base.width.saturating_sub(horizontal),
        base.height.saturating_sub(vertical),
    )
}

} // verus!
