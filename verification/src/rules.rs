//! What a window's X11 properties say about it: whether it floats, is a
//! dock, wants attention or can be asked to close, and the screen space it
//! reserves. The property values are read by the caller.
use crate::types::StrutPartial;
use vstd::prelude::*;

verus! {

/// The urgency flag of the `WM_HINTS` flags word.
pub const URGENCY_HINT: u32 = 256;

/// Whether `v` is among `s`.
pub fn contains_u32(s: &[u32], v: u32) -> (r: bool)
    ensures
        r == s@.contains(v),
{
    let mut i: usize = 0;
    while i < s.len()
        invariant
            i <= s@.len(),
            forall|j: int| 0 <= j < i ==> s@[j] != v,
        decreases s@.len() - i,
    {
        if s[i] == v {
            assert(s@[i as int] == v);
            return true;
        }
        i = i + 1;
    }
    false
}

/// A window floats when one of its `_NET_WM_WINDOW_TYPE` values is one of
/// the floating types (dialog, splash, toolbar, utility, menus, tooltip,
/// notification), whose atoms are `floating_types`.
pub fn should_float(window_types: &[u32], floating_types: &[u32]) -> (r: bool)
    ensures
        r == exists|i: int| 0 <= i < window_types@.len() && floating_types@.contains(#[trigger] window_types@[i]),
{
    let mut i: usize = 0;
    while i < window_types.len()
        invariant
            i <= window_types@.len(),
            forall|j: int| 0 <= j < i ==> !floating_types@.contains(#[trigger] window_types@[j]),
        decreases window_types@.len() - i,
    {
        if contains_u32(floating_types, window_types[i]) {
            return true;
        }
        i = i + 1;
    }
    false
}

/// A window is a dock when one of its window types is the dock type.
pub fn is_dock_window(window_types: &[u32], dock_type: u32) -> (r: bool)
    ensures
        r == window_types@.contains(dock_type),
{
    contains_u32(window_types, dock_type)
}

/// A window wants attention when its `_NET_WM_STATE` holds the
/// demands-attention state, or the flags word of its `WM_HINTS` (the first
/// value) has the urgency flag.
pub fn is_window_urgent(states: &[u32], demands_attention: u32, hints: &[u32]) -> (r: bool)
    ensures
        r == (states@.contains(demands_attention) || (hints@.len() > 0 && hints@[0] & URGENCY_HINT
            != 0)),
{
    if contains_u32(states, demands_attention) {
        return true;
    }
    hints.len() > 0 && hints[0] & URGENCY_HINT != 0
}

/// A window can be asked to close when its `WM_PROTOCOLS` holds
/// `WM_DELETE_WINDOW`.
pub fn supports_delete_protocol(protocols: &[u32], delete_window: u32) -> (r: bool)
    ensures
        r == protocols@.contains(delete_window),
{
    contains_u32(protocols, delete_window)
}

/// The space a dock reserves: the twelve values of `_NET_WM_STRUT_PARTIAL`
/// where it has them; else the four edges of `_NET_WM_STRUT`, where it has
/// them; else nothing.
pub open spec fn struts_spec(partial: Seq<u32>, simple: Seq<u32>) -> StrutPartial {
    if partial.len() >= 12 {
        StrutPartial {
            left: partial[0],
            right: partial[1],
            top: partial[2],
            bottom: partial[3],
            left_start_y: partial[4],
            left_end_y: partial[5],
            right_start_y: partial[6],
            right_end_y: partial[7],
            top_start_x: partial[8],
            top_end_x: partial[9],
            bottom_start_x: partial[10],
            bottom_end_x: partial[11],
        }
    } else if simple.len() >= 4 {
        StrutPartial {
            left: simple[0],
            right: simple[1],
            top: simple[2],
            bottom: simple[3],
            left_start_y: 0,
            left_end_y: 0,
            right_start_y: 0,
            right_end_y: 0,
            top_start_x: 0,
            top_end_x: 0,
            bottom_start_x: 0,
            bottom_end_x: 0,
        }
    } else {
        StrutPartial {
            left: 0,
            right: 0,
            top: 0,
            bottom: 0,
            left_start_y: 0,
            left_end_y: 0,
            right_start_y: 0,
            right_end_y: 0,
            top_start_x: 0,
            top_end_x: 0,
            bottom_start_x: 0,
            bottom_end_x: 0,
        }
    }
}

/// Reads a dock's reservation from the values of its `_NET_WM_STRUT_PARTIAL`
/// and `_NET_WM_STRUT` properties (empty where a property is missing).
pub fn read_struts(partial: &[u32], simple: &[u32]) -> (r: StrutPartial)
    ensures
        r == struts_spec(partial@, simple@),
{
    if partial.len() >= 12 {
        StrutPartial {
            left: partial[0],
            right: partial[1],
            top: partial[2],
            bottom: partial[3],
            left_start_y: partial[4],
            left_end_y: partial[5],
            right_start_y: partial[6],
            right_end_y: partial[7],
            top_start_x: partial[8],
            top_end_x: partial[9],
            bottom_start_x: partial[10],
            bottom_end_x: partial[11],
        }
    } else if simple.len() >= 4 {
        StrutPartial { left: simple[0], right: simple[1], top: simple[2], bottom: simple[3], ..StrutPartial::default() }
    } else {
        StrutPartial::default()
    }
}

/// Whether a window should be fullscreen after a `_NET_WM_STATE` request
/// with `action` (0 remove, 1 add, 2 toggle; anything else leaves it).
pub open spec fn fullscreen_after_spec(action: u32, is_fullscreen: bool) -> bool {
    if action == 0 {
        false
    } else if action == 1 {
        true
    } else if action == 2 {
        !is_fullscreen
    } else {
        is_fullscreen
    }
}

/// Whether a window should be fullscreen after a `_NET_WM_STATE` request.
pub fn fullscreen_after(action: u32, is_fullscreen: bool) -> (r: bool)
    ensures
        r == fullscreen_after_spec(action, is_fullscreen),
{
    match action {
        0 => false,
        1 => true,
        2 => !is_fullscreen,
        _ => is_fullscreen,
    }
}

/// Where a new floating window goes: where it asked to be, or, when it
/// asked for the corner (0, 0), centred on the screen (but not above or
/// left of it).
pub open spec fn float_position_spec(x: i16, y: i16, width: u16, height: u16, screen_width: u16, screen_height: u16) -> (int, int) {
    if x == 0 && y == 0 {
        let cx = (screen_width - width) as i32;
        let cy = (screen_height - height) as i32;
        let hx = crate::types::half_toward_zero(cx);
        let hy = crate::types::half_toward_zero(cy);
        (if hx > 0 { hx } else { 0 }, if hy > 0 { hy } else { 0 })
    } else {
        (x as int, y as int)
    }
}

/// The position of a new floating window.
pub fn float_position(x: i16, y: i16, width: u16, height: u16, screen_width: u16, screen_height: u16) -> (r: (i32, i32))
    ensures
        r.0 == float_position_spec(x, y, width, height, screen_width, screen_height).0,
        r.1 == float_position_spec(x, y, width, height, screen_width, screen_height).1,
{
    if x == 0 && y == 0 {
        let cx = (screen_width as i32 - width as i32) / 2;
        let cy = (screen_height as i32 - height as i32) / 2;
        (if cx > 0 { cx } else { 0 }, if cy > 0 { cy } else { 0 })
    } else {
        (x as i32, y as i32)
    }
}

} // verus!
