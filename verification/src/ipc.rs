//! Values exchanged with IPC clients, and the parts of command handling that
//! only compute: the socket's path and the reading of direction names.
pub use crate::types::RectSnapshot;
use crate::config::{lowercase, str_eq};
use crate::layout::{Direction, SplitDirection};
use vstd::prelude::*;

verus! {

/// A managed window as reported to IPC clients.
#[derive(Debug, Clone)]
pub struct WindowInfo {
    pub id: u32,
    pub title: String,
    pub frame: String,
    pub tab_index: usize,
    pub is_focused: bool,
    pub is_visible: bool,
    pub is_tagged: bool,
    pub is_floating: bool,
    pub is_urgent: bool,
}

/// One entry of the event log.
#[derive(Debug)]
pub struct EventLogEntry {
    pub sequence: u64,
    pub timestamp_ms: u64,
    pub event_type: String,
    pub window: Option<u32>,
    pub details: String,
}

impl EventLogEntry {
    /// A copy of this entry.
    pub fn copy(&self) -> (r: EventLogEntry)
        ensures
            r == *self,
    {
        EventLogEntry {
            sequence: self.sequence,
            timestamp_ms: self.timestamp_ms,
            event_type: self.event_type.clone(),
            window: self.window,
            details: self.details.clone(),
        }
    }
}

/// `display` with each `:` and `.` replaced by `_`.
pub open spec fn sanitize_display(display: Seq<char>) -> Seq<char> {
    display.map_values(|c: char| if c == ':' || c == '.' { '_' } else { c })
}

/// The path of the IPC socket for an X display name such as ":0".
pub open spec fn socket_path_spec(display: Seq<char>) -> Seq<char> {
    "/tmp/ttwm"@ + sanitize_display(display) + ".sock"@
}

/// The IPC socket's path for the X display `display`: "/tmp/ttwm", the
/// display name with `:` and `.` made `_`, then ".sock".
pub fn socket_path_for(display: &str) -> (r: String)
    ensures
        r@ == socket_path_spec(display@),
{
    let mut path = String::from_str("/tmp/ttwm");
    let n = display.unicode_len();
    let mut i: usize = 0;
    let ghost prefix = "/tmp/ttwm"@;
    while i < n
        invariant
            n == display@.len(),
            i <= n,
            prefix == "/tmp/ttwm"@,
            path@ == prefix + sanitize_display(display@.take(i as int)),
        decreases n - i,
    {
        let c = display.get_char(i);
        let piece = if c == ':' || c == '.' {
            "_"
        } else {
            display.substring_char(i, i + 1)
        };
        proof {
            reveal_strlit("_");
            assert(display@.subrange(i as int, i + 1) =~= seq![c]);
            assert(sanitize_display(display@.take(i + 1)) =~= sanitize_display(display@.take(i as int)).push(
                if c == ':' || c == '.' { '_' } else { c },
            ));
        }
        path.append(piece);
        i = i + 1;
    }
    proof {
        assert(display@.take(n as int) =~= display@);
    }
    path.append(".sock");
    path
}

/// The direction a lowercase name gives: "left" or "l", "right" or "r", "up"
/// or "u", "down" or "d".
pub open spec fn direction_name_spec(name: Seq<char>) -> Option<Direction> {
    if name == "left"@ || name == "l"@ {
        Some(Direction::Left)
    } else if name == "right"@ || name == "r"@ {
        Some(Direction::Right)
    } else if name == "up"@ || name == "u"@ {
        Some(Direction::Up)
    } else if name == "down"@ || name == "d"@ {
        Some(Direction::Down)
    } else {
        None
    }
}

/// The split direction a lowercase name gives: "horizontal" or "h",
/// "vertical" or "v".
pub open spec fn split_name_spec(name: Seq<char>) -> Option<SplitDirection> {
    if name == "horizontal"@ || name == "h"@ {
        Some(SplitDirection::Horizontal)
    } else if name == "vertical"@ || name == "v"@ {
        Some(SplitDirection::Vertical)
    } else {
        None
    }
}

/// Reads a direction name that is already in lowercase.
pub fn direction_for_name(name: &str) -> (r: Option<Direction>)
    ensures
        r == direction_name_spec(name@),
{
    if str_eq(name, "left") || str_eq(name, "l") {
        Some(Direction::Left)
    } else if str_eq(name, "right") || str_eq(name, "r") {
        Some(Direction::Right)
    } else if str_eq(name, "up") || str_eq(name, "u") {
        Some(Direction::Up)
    } else if str_eq(name, "down") || str_eq(name, "d") {
        Some(Direction::Down)
    } else {
        None
    }
}

/// Reads a split direction name that is already in lowercase.
pub fn split_direction_for_name(name: &str) -> (r: Option<SplitDirection>)
    ensures
        r == split_name_spec(name@),
{
    if str_eq(name, "horizontal") || str_eq(name, "h") {
        Some(SplitDirection::Horizontal)
    } else if str_eq(name, "vertical") || str_eq(name, "v") {
        Some(SplitDirection::Vertical)
    } else {
        None
    }
}

/// Reads the direction of a `focus_frame` command, in any case.
pub fn parse_direction(name: &str) -> (r: Option<Direction>)
    ensures
        r == direction_name_spec(lowercase(name@)),
{
    let lower = crate::config::lowercase_string(name);
    direction_for_name(lower.as_str())
}

/// Reads the direction of a `split` command, in any case.
pub fn parse_split_direction(name: &str) -> (r: Option<SplitDirection>)
    ensures
        r == split_name_spec(lowercase(name@)),
{
    let lower = crate::config::lowercase_string(name);
    split_direction_for_name(lower.as_str())
}

/// A window id as `ttwmctl` reads it: after "0x", in base 16; otherwise in
/// base 10.
pub open spec fn window_id_spec(s: Seq<char>) -> Option<u32> {
    if s.len() >= 2 && s[0] == '0' && s[1] == 'x' {
        crate::config::radix_u32(s.subrange(2, s.len() as int), 16)
    } else {
        crate::config::radix_u32(s, 10)
    }
}

/// Reads a window id given in decimal or, after "0x", in hexadecimal.
pub fn parse_window_id(s: &str) -> (r: Option<u32>)
    ensures
        r == window_id_spec(s@),
{
    let n = s.unicode_len();
    if n >= 2 && s.get_char(0) == '0' && s.get_char(1) == 'x' {
        crate::config::parse_u32_from(s, 2, 16)
    } else {
        proof {
            assert(s@.subrange(0, s@.len() as int) =~= s@);
        }
        crate::config::parse_u32_from(s, 0, 10)
    }
}

} // verus!
