//! What the operations that place things on screen are for, stated over
//! their inputs and results: a split shares its length by its ratio, a
//! dragged gap is found where the pointer is, docks keep their space, every
//! tab but the front one is hidden, and a dragged edge or corner moves the
//! sides it names.
use crate::drag::{float_resize_spec, ratio_at_spec, ResizeEdge, MIN_FLOAT_SIZE};
use crate::layout::{
    first_len, Frame, frame_seq, gap_at, gap_search_ok, geometry_ok, geometry_seq, in_gap, second_len, split_ok, split_rect_spec, Node, NodeEntry, NodeId,
    SplitDirection, RATIO_ONE,
};
use crate::placement::{client_area, others, placement_ok, window_rect, FramePlacement};
use crate::types::{reserved_edges, usable_area_fits, usable_area_spec, Rect, StrutPartial};
use vstd::prelude::*;

verus! {

/// The first child of a split of `total` pixels gets the ratio's share of
/// them, rounded down, less half the gap: `(first + gap / 2)` millionths-wide
/// slices fit in `total * ratio`, and one more does not. Where that share is
/// no more than half the gap, the first child gets nothing.
pub proof fn law_first_share_follows_ratio(total: u32, ratio: u32, gap: u32)
    requires
        ratio <= RATIO_ONE,
    ensures
        first_len(total, ratio, gap) >= 0,
        first_len(total, ratio, gap) <= total,
        first_len(total, ratio, gap) > 0 ==> (first_len(total, ratio, gap) + gap / 2) * RATIO_ONE <= total * ratio
            < (first_len(total, ratio, gap) + gap / 2 + 1) * RATIO_ONE,
        first_len(total, ratio, gap) == 0 ==> total * ratio < (gap / 2 + 1) * RATIO_ONE,
{
    let p = total as int * ratio as int;
    let q = p / RATIO_ONE as int;
    assert(q * 1_000_000 <= p < (q + 1) * 1_000_000) by (nonlinear_arith)
        requires
            q == p / 1_000_000,
            p >= 0,
    ;
    assert(p <= total as int * 1_000_000) by (nonlinear_arith)
        requires
            p == total as int * ratio as int,
            ratio <= 1_000_000,
            total >= 0,
    ;
    assert(q <= total) by (nonlinear_arith)
        requires
            q * 1_000_000 <= p,
            p <= total as int * 1_000_000,
    ;
}

/// A split of `r` cuts it across its direction: the two children sit side by
/// side (or one above the other) with the gap between them, keep `r`'s other
/// dimension, and the first child's length is its share by the ratio.
pub proof fn law_split_cuts_along_its_direction(r: Rect, dir: SplitDirection, ratio: u32, gap: u32)
    requires
        split_ok(r, dir, ratio, gap),
        r.width <= i32::MAX,
        r.height <= i32::MAX,
        gap <= i32::MAX,
    ensures
        ({
            let (a, b) = split_rect_spec(r, dir, ratio, gap);
            &&& a.x == r.x && a.y == r.y
            &&& dir == SplitDirection::Horizontal ==> {
                &&& a.height == r.height && b.height == r.height && b.y == r.y
                &&& a.width == first_len(r.width, ratio, gap)
                &&& b.x == r.x + a.width + gap
                &&& a.width + gap <= r.width ==> a.width + gap + b.width == r.width
                &&& a.width + gap > r.width ==> b.width == 0
            }
            &&& dir == SplitDirection::Vertical ==> {
                &&& a.width == r.width && b.width == r.width && b.x == r.x
                &&& a.height == first_len(r.height, ratio, gap)
                &&& b.y == r.y + a.height + gap
                &&& a.height + gap <= r.height ==> a.height + gap + b.height == r.height
                &&& a.height + gap > r.height ==> b.height == 0
            }
        }),
{
    law_first_share_follows_ratio(r.width, ratio, gap);
    law_first_share_follows_ratio(r.height, ratio, gap);
}

/// Filling `r` gives each frame under `id` one rectangle, in the tree's
/// left-to-right order of frames.
pub proof fn law_each_frame_gets_one_rectangle(m: Map<NodeId, NodeEntry>, id: NodeId, r: Rect, gap: u32, fuel: nat)
    ensures
        geometry_seq(m, id, r, gap, fuel).map_values(|p: (NodeId, Rect)| p.0) == frame_seq(m, id, fuel),
    decreases fuel,
{
    if fuel > 0 && m.contains_key(id) {
        match m[id].node {
            Node::Frame(_) => {
                assert(seq![(id, r)].map_values(|p: (NodeId, Rect)| p.0) =~= seq![id]);
            },
            Node::Split(s) => {
                let (a, b) = split_rect_spec(r, s.direction, s.ratio, gap);
                let ga = geometry_seq(m, s.first, a, gap, (fuel - 1) as nat);
                let gb = geometry_seq(m, s.second, b, gap, (fuel - 1) as nat);
                law_each_frame_gets_one_rectangle(m, s.first, a, gap, (fuel - 1) as nat);
                law_each_frame_gets_one_rectangle(m, s.second, b, gap, (fuel - 1) as nat);
                assert((ga + gb).map_values(|p: (NodeId, Rect)| p.0) =~= ga.map_values(|p: (NodeId, Rect)| p.0)
                    + gb.map_values(|p: (NodeId, Rect)| p.0));
            },
        }
    } else {
        assert(Seq::<(NodeId, Rect)>::empty().map_values(|p: (NodeId, Rect)| p.0) =~= Seq::<NodeId>::empty());
    }
}

/// Every frame's rectangle lies within the space the tree fills (as far as
/// it has any width or height).
pub proof fn law_frames_stay_inside(m: Map<NodeId, NodeEntry>, id: NodeId, r: Rect, gap: u32, fuel: nat)
    requires
        geometry_ok(m, id, r, gap, fuel),
        r.width <= i32::MAX,
        r.height <= i32::MAX,
        gap <= i32::MAX,
    ensures
        forall|i: int|
            0 <= i < geometry_seq(m, id, r, gap, fuel).len() ==> {
                let g = (#[trigger] geometry_seq(m, id, r, gap, fuel)[i]).1;
                &&& g.x >= r.x
                &&& g.y >= r.y
                &&& g.width <= r.width
                &&& g.height <= r.height
                &&& g.width > 0 ==> g.x + g.width <= r.x + r.width
                &&& g.height > 0 ==> g.y + g.height <= r.y + r.height
            },
    decreases fuel,
{
    if fuel > 0 && m.contains_key(id) {
        match m[id].node {
            Node::Frame(_) => {},
            Node::Split(s) => {
                let (a, b) = split_rect_spec(r, s.direction, s.ratio, gap);
                law_split_cuts_along_its_direction(r, s.direction, s.ratio, gap);
                law_first_share_follows_ratio(r.width, s.ratio, gap);
                law_first_share_follows_ratio(r.height, s.ratio, gap);
                let ga = geometry_seq(m, s.first, a, gap, (fuel - 1) as nat);
                let gb = geometry_seq(m, s.second, b, gap, (fuel - 1) as nat);
                law_frames_stay_inside(m, s.first, a, gap, (fuel - 1) as nat);
                law_frames_stay_inside(m, s.second, b, gap, (fuel - 1) as nat);
                assert forall|i: int| 0 <= i < (ga + gb).len() implies {
                    let g = (#[trigger] (ga + gb)[i]).1;
                    &&& g.x >= r.x
                    &&& g.y >= r.y
                    &&& g.width <= r.width
                    &&& g.height <= r.height
                    &&& g.width > 0 ==> g.x + g.width <= r.x + r.width
                    &&& g.height > 0 ==> g.y + g.height <= r.y + r.height
                } by {
                    if i < ga.len() {
                        assert((ga + gb)[i] == ga[i]);
                    } else {
                        assert((ga + gb)[i] == gb[i - ga.len()]);
                    }
                }
            },
        }
    }
}

/// A split whose gap the pointer is in is found with the start and length
/// of its own rectangle along its direction: its gap then lies right after
/// its first child's share of that length, and the pointer lies in it. So a
/// drag that measures the pointer from that start, against that length,
/// moves the divider it grabbed.
pub proof fn law_gap_found_under_the_pointer(
    m: Map<NodeId, NodeEntry>,
    id: NodeId,
    r: Rect,
    gap: u32,
    mx: i32,
    my: i32,
    fuel: nat,
)
    requires
        gap_search_ok(m, id, r, gap, mx, my, fuel),
        r.width <= i32::MAX,
        r.height <= i32::MAX,
        gap <= i32::MAX,
    ensures
        gap_at(m, id, r, gap, mx, my, fuel) matches Some((k, d, start, total)) ==> {
            &&& m.contains_key(k)
            &&& m[k].node is Split
            &&& m[k].node->Split_0.direction == d
            &&& {
                let along: int = if d is Horizontal { mx as int } else { my as int };
                let f = first_len(total, m[k].node->Split_0.ratio, gap);
                start + f <= along < start + f + gap
            }
        },
    decreases fuel,
{
    if fuel > 0 && m.contains_key(id) {
        match m[id].node {
            Node::Frame(_) => {},
            Node::Split(s) => {
                let (a, b) = split_rect_spec(r, s.direction, s.ratio, gap);
                law_split_cuts_along_its_direction(r, s.direction, s.ratio, gap);
                law_first_share_follows_ratio(r.width, s.ratio, gap);
                law_first_share_follows_ratio(r.height, s.ratio, gap);
                if !in_gap(r, a, b, s.direction, mx, my) {
                    assert(a.width <= r.width && a.height <= r.height);
                    assert(b.width <= r.width && b.height <= r.height);
                    law_gap_found_under_the_pointer(m, s.first, a, gap, mx, my, (fuel - 1) as nat);
                    if gap_at(m, s.first, a, gap, mx, my, (fuel - 1) as nat) is None {
                        law_gap_found_under_the_pointer(m, s.second, b, gap, mx, my, (fuel - 1) as nat);
                    }
                }
            },
        }
    }
}

/// The front window of a frame fills the frame, or the part of it below the
/// tab bar where there is one, inside its border on every side; where the
/// border (and bar) take more than the frame has, it gets no width (or
/// height).
pub proof fn law_front_window_fills_the_frame(rect: Rect, bar: bool, tab_bar_height: u32, border: u32)
    requires
        rect.y + tab_bar_height <= i32::MAX,
        border * 2 <= u32::MAX,
    ensures
        ({
            let w = window_rect(client_area(rect, bar, tab_bar_height), border);
            let top: int = if bar { tab_bar_height as int } else { 0 };
            &&& w.x == rect.x
            &&& w.y == rect.y + top
            &&& w.width == if rect.width >= 2 * border { rect.width - 2 * border } else { 0 }
            &&& w.height == if rect.height >= top + 2 * border { rect.height - top - 2 * border } else { 0 }
        }),
{
}

/// Dragging a gap sets the ratio to the pointer's share, in millionths
/// rounded down, of the split's length from its start: none before the
/// start, and at most `u32::MAX`.
pub proof fn law_drag_ratio_is_the_pointers_share(mouse: i32, start: i32, total: u32)
    requires
        total > 0,
    ensures
        mouse <= start ==> ratio_at_spec(mouse, start, total) == 0,
        mouse > start && ratio_at_spec(mouse, start, total) < u32::MAX ==> ratio_at_spec(mouse, start, total) * total
            <= (mouse - start) * RATIO_ONE < (ratio_at_spec(mouse, start, total) + 1) * total,
        mouse > start && ratio_at_spec(mouse, start, total) == u32::MAX ==> (mouse - start) * RATIO_ONE >= u32::MAX
            * total,
{
    if mouse > start {
        let p = (mouse - start) * (RATIO_ONE as int);
        let q = p / (total as int);
        assert(q * total <= p < (q + 1) * total) by (nonlinear_arith)
            requires
                q == p / (total as int),
                p >= 0,
                total > 0,
        ;
        if q > u32::MAX {
            assert(u32::MAX * total <= q * total) by (nonlinear_arith)
                requires
                    q > u32::MAX,
                    total > 0,
            ;
        }
    }
}

/// The windows a frame hides are all its windows but the front one, in
/// order; with no front window in range, all of them.
pub proof fn law_hidden_are_all_but_the_front(ws: Seq<u32>, front: int)
    ensures
        0 <= front < ws.len() ==> others(ws, front) == ws.remove(front),
        !(0 <= front < ws.len()) ==> others(ws, front) == ws,
    decreases ws.len(),
{
    if ws.len() > 0 {
        let init = ws.drop_last();
        law_hidden_are_all_but_the_front(init, front);
        if 0 <= front < ws.len() {
            if front == ws.len() - 1 {
                assert(init =~= ws.remove(front));
            } else {
                assert(init.remove(front).push(ws.last()) =~= ws.remove(front));
            }
        } else {
            assert(init.push(ws.last()) =~= ws);
        }
    } else {
        assert(ws =~= Seq::<u32>::empty());
    }
}

proof fn lemma_reserved_edges_are_the_largest(struts: Seq<StrutPartial>)
    ensures
        forall|i: int|
            0 <= i < struts.len() ==> {
                let e = reserved_edges(struts);
                &&& e.0 >= (#[trigger] struts[i]).left
                &&& e.1 >= struts[i].right
                &&& e.2 >= struts[i].top
                &&& e.3 >= struts[i].bottom
            },
    decreases struts.len(),
{
    if struts.len() > 0 {
        let init = struts.drop_last();
        lemma_reserved_edges_are_the_largest(init);
        assert forall|i: int| 0 <= i < struts.len() implies {
            let e = reserved_edges(struts);
            &&& e.0 >= (#[trigger] struts[i]).left
            &&& e.1 >= struts[i].right
            &&& e.2 >= struts[i].top
            &&& e.3 >= struts[i].bottom
        } by {
            if i < init.len() {
                assert(init[i] == struts[i]);
            }
        }
    }
}

/// What a dock reserves at an edge: 0 left, 1 right, 2 top, 3 bottom.
pub open spec fn reserved_at(s: StrutPartial, edge: int) -> u32 {
    if edge == 0 {
        s.left
    } else if edge == 1 {
        s.right
    } else if edge == 2 {
        s.top
    } else {
        s.bottom
    }
}

/// An edge's reservation is one that some dock asks for, or none.
pub open spec fn asked_by_a_dock(struts: Seq<StrutPartial>, v: u32, edge: int) -> bool {
    v == 0 || exists|i: int| 0 <= i < struts.len() && v == #[trigger] reserved_at(struts[i], edge)
}

proof fn lemma_reserved_edges_are_asked(struts: Seq<StrutPartial>)
    ensures
        asked_by_a_dock(struts, reserved_edges(struts).0, 0),
        asked_by_a_dock(struts, reserved_edges(struts).1, 1),
        asked_by_a_dock(struts, reserved_edges(struts).2, 2),
        asked_by_a_dock(struts, reserved_edges(struts).3, 3),
    decreases struts.len(),
{
    if struts.len() > 0 {
        let init = struts.drop_last();
        let n = struts.len() - 1;
        lemma_reserved_edges_are_asked(init);
        let e0 = reserved_edges(init);
        let e = reserved_edges(struts);
        assert forall|edge: int, v: u32| 0 <= edge < 4 && asked_by_a_dock(init, v, edge) implies asked_by_a_dock(
            struts,
            v,
            edge,
        ) by {
            if v != 0 {
                let i = choose|i: int| 0 <= i < init.len() && v == #[trigger] reserved_at(init[i], edge);
                assert(init[i] == struts[i]);
                assert(v == reserved_at(struts[i], edge));
            }
        }
        assert(struts[n] == struts.last());
        assert(asked_by_a_dock(struts, e.0, 0)) by {
            if e.0 != e0.0 {
                assert(e.0 == struts[n].left);
                assert(e.0 == reserved_at(struts[n], 0));
            } else {
                assert(asked_by_a_dock(init, e0.0, 0));
            }
        }
        assert(asked_by_a_dock(struts, e.1, 1)) by {
            if e.1 != e0.1 {
                assert(e.1 == struts[n].right);
                assert(e.1 == reserved_at(struts[n], 1));
            } else {
                assert(asked_by_a_dock(init, e0.1, 1));
            }
        }
        assert(asked_by_a_dock(struts, e.2, 2)) by {
            if e.2 != e0.2 {
                assert(e.2 == struts[n].top);
                assert(e.2 == reserved_at(struts[n], 2));
            } else {
                assert(asked_by_a_dock(init, e0.2, 2));
            }
        }
        assert(asked_by_a_dock(struts, e.3, 3)) by {
            if e.3 != e0.3 {
                assert(e.3 == struts[n].bottom);
                assert(e.3 == reserved_at(struts[n], 3));
            } else {
                assert(asked_by_a_dock(init, e0.3, 3));
            }
        }
    }
}

/// The usable area takes no more than it must: each of its sides sits at
/// the outer gap plus a reservation that some dock asks for (or none), so
/// it reaches as far as the docks let it.
pub proof fn law_usable_area_takes_what_the_docks_leave(base: Rect, outer_gap: u32, struts: Seq<StrutPartial>)
    requires
        usable_area_fits(base, outer_gap, struts),
    ensures
        ({
            let r = usable_area_spec(base, outer_gap, struts);
            &&& exists|v: u32| asked_by_a_dock(struts, v, 0) && r.x == base.x + outer_gap + v
            &&& exists|v: u32| asked_by_a_dock(struts, v, 2) && r.y == base.y + outer_gap + v
            &&& r.width > 0 ==> exists|v: u32|
                asked_by_a_dock(struts, v, 1) && r.x + r.width + outer_gap + v == base.x + base.width
            &&& r.height > 0 ==> exists|v: u32|
                asked_by_a_dock(struts, v, 3) && r.y + r.height + outer_gap + v == base.y + base.height
        }),
{
    lemma_reserved_edges_are_asked(struts);
    let e = reserved_edges(struts);
    let r = usable_area_spec(base, outer_gap, struts);
    assert(asked_by_a_dock(struts, e.0, 0) && r.x == base.x + outer_gap + e.0);
    assert(asked_by_a_dock(struts, e.2, 2) && r.y == base.y + outer_gap + e.2);
    if r.width > 0 {
        assert(asked_by_a_dock(struts, e.1, 1) && r.x + r.width + outer_gap + e.1 == base.x + base.width);
    }
    if r.height > 0 {
        assert(asked_by_a_dock(struts, e.3, 3) && r.y + r.height + outer_gap + e.3 == base.y + base.height);
    }
}

/// The usable area keeps clear of every dock: it starts past the outer gap
/// and each dock's reservation at the left and top, and, where it is not
/// empty, ends before the outer gap and each dock's reservation at the right
/// and bottom.
pub proof fn law_usable_area_clears_every_dock(base: Rect, outer_gap: u32, struts: Seq<StrutPartial>)
    requires
        usable_area_fits(base, outer_gap, struts),
    ensures
        forall|i: int|
            0 <= i < struts.len() ==> {
                let r = usable_area_spec(base, outer_gap, struts);
                &&& r.x >= base.x + outer_gap + (#[trigger] struts[i]).left
                &&& r.y >= base.y + outer_gap + struts[i].top
                &&& r.width > 0 ==> r.x + r.width + outer_gap + struts[i].right <= base.x + base.width
                &&& r.height > 0 ==> r.y + r.height + outer_gap + struts[i].bottom <= base.y + base.height
            },
        ({
            let r = usable_area_spec(base, outer_gap, struts);
            &&& r.x >= base.x + outer_gap
            &&& r.y >= base.y + outer_gap
            &&& r.width > 0 ==> r.x + r.width + outer_gap <= base.x + base.width
            &&& r.height > 0 ==> r.y + r.height + outer_gap <= base.y + base.height
        }),
{
    lemma_reserved_edges_are_the_largest(struts);
}

/// The length a side gets when it is dragged by `delta` away from the
/// window's middle: longer by `delta`, but never shorter than the minimum.
pub open spec fn dragged_length(len: int, delta: int) -> int {
    if len + delta >= MIN_FLOAT_SIZE {
        len + delta
    } else {
        MIN_FLOAT_SIZE as int
    }
}

/// Dragging an edge of a floating window moves that side alone. The right
/// and bottom edges grow the window by the pointer's motion; the left and
/// top edges move their side with the pointer while the opposite side stays
/// put; no side comes nearer the opposite one than the minimum size. A corner
/// moves the two sides it joins, each as its own edge would.
pub proof fn law_float_resize_moves_the_grabbed_sides(x: i32, y: i32, w: u32, h: u32, dx: int, dy: int)
    requires
        w >= MIN_FLOAT_SIZE,
        h >= MIN_FLOAT_SIZE,
    ensures
        float_resize_spec(ResizeEdge::Right, x, y, w, h, dx, dy) == (x as int, y as int, dragged_length(
            w as int,
            dx,
        ), h as int),
        float_resize_spec(ResizeEdge::Bottom, x, y, w, h, dx, dy) == (x as int, y as int, w as int, dragged_length(
            h as int,
            dy,
        )),
        ({
            let g = float_resize_spec(ResizeEdge::Left, x, y, w, h, dx, dy);
            &&& g.2 == dragged_length(w as int, -dx)
            &&& g.0 + g.2 == x + w
            &&& g.1 == y && g.3 == h
        }),
        ({
            let g = float_resize_spec(ResizeEdge::Top, x, y, w, h, dx, dy);
            &&& g.3 == dragged_length(h as int, -dy)
            &&& g.1 + g.3 == y + h
            &&& g.0 == x && g.2 == w
        }),
        ({
            let c = float_resize_spec(ResizeEdge::TopLeft, x, y, w, h, dx, dy);
            let s = float_resize_spec(ResizeEdge::Left, x, y, w, h, dx, dy);
            let t = float_resize_spec(ResizeEdge::Top, x, y, w, h, dx, dy);
            c == (s.0, t.1, s.2, t.3)
        }),
        ({
            let c = float_resize_spec(ResizeEdge::TopRight, x, y, w, h, dx, dy);
            let s = float_resize_spec(ResizeEdge::Right, x, y, w, h, dx, dy);
            let t = float_resize_spec(ResizeEdge::Top, x, y, w, h, dx, dy);
            c == (s.0, t.1, s.2, t.3)
        }),
        ({
            let c = float_resize_spec(ResizeEdge::BottomLeft, x, y, w, h, dx, dy);
            let s = float_resize_spec(ResizeEdge::Left, x, y, w, h, dx, dy);
            let t = float_resize_spec(ResizeEdge::Bottom, x, y, w, h, dx, dy);
            c == (s.0, t.1, s.2, t.3)
        }),
        ({
            let c = float_resize_spec(ResizeEdge::BottomRight, x, y, w, h, dx, dy);
            let s = float_resize_spec(ResizeEdge::Right, x, y, w, h, dx, dy);
            let t = float_resize_spec(ResizeEdge::Bottom, x, y, w, h, dx, dy);
            c == (s.0, t.1, s.2, t.3)
        }),
{
}

/// How a frame is placed: its tab bar shows when it holds two windows or
/// more, its front tab's window is shown (below the bar, if any) and every
/// other window is hidden, in order.
pub proof fn law_placement_shows_the_front_tab_only(
    p: FramePlacement,
    f: Frame,
    id: NodeId,
    rect: Rect,
    focused: NodeId,
    tab_bar_height: u32,
    border: u32,
)
    requires
        placement_ok(p, f, id, rect, focused, tab_bar_height, border),
        rect.y + tab_bar_height <= i32::MAX,
        border * 2 <= u32::MAX,
    ensures
        p.show_tab_bar <==> f.windows@.len() >= 2,
        p.is_empty <==> f.windows@.len() == 0,
        p.is_focused <==> id == focused,
        f.focused < f.windows@.len() ==> {
            &&& p.front matches Some((w, inner)) && w == f.windows@[f.focused as int] && inner.x == rect.x
                && inner.y == rect.y + if f.windows@.len() >= 2 { tab_bar_height as int } else { 0 }
            &&& p.hidden@ == f.windows@.remove(f.focused as int)
        },
        f.focused >= f.windows@.len() ==> p.front is None && p.hidden@ == f.windows@,
{
    law_hidden_are_all_but_the_front(f.windows@, f.focused as int);
    law_front_window_fills_the_frame(rect, f.windows@.len() >= 2, tab_bar_height, border);
}

} // verus!
