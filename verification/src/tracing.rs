//! A ring buffer of recent events, for debugging through IPC.
use crate::ipc::EventLogEntry;
use crate::state::{StateTransition, UnmanageReason};
use std::collections::VecDeque;
use std::time::Instant;
use vstd::prelude::*;

verus! {

/// How many entries a tracer keeps unless told otherwise.
pub const DEFAULT_MAX_ENTRIES: usize = 1000;

#[verifier::external_type_specification]
#[verifier::external_body]
pub struct ExInstant(Instant);

/// Calls `Instant::now`; nothing is promised of the time it reads.
#[verifier::external_body]
fn now() -> Instant {
    Instant::now()
}

/// Calls `Instant::elapsed` and gives the whole milliseconds since `start`,
/// cut to 64 bits; nothing is promised of the time it reads.
#[verifier::external_body]
fn millis_since(start: &Instant) -> u64 {
    start.elapsed().as_millis() as u64
}

/// The text of the decimal digit `d`.
pub open spec fn digit_text(d: nat) -> Seq<char> {
    if d == 0 {
        "0"@
    } else if d == 1 {
        "1"@
    } else if d == 2 {
        "2"@
    } else if d == 3 {
        "3"@
    } else if d == 4 {
        "4"@
    } else if d == 5 {
        "5"@
    } else if d == 6 {
        "6"@
    } else if d == 7 {
        "7"@
    } else if d == 8 {
        "8"@
    } else {
        "9"@
    }
}

/// `n` written in decimal, without leading zeros.
pub open spec fn decimal_text(n: nat) -> Seq<char>
    decreases n,
{
    if n < 10 {
        digit_text(n)
    } else {
        decimal_text(n / 10) + digit_text(n % 10)
    }
}

fn append_digit(s: &mut String, d: u64)
    requires
        d < 10,
    ensures
        final(s)@ == old(s)@ + digit_text(d as nat),
{
    if d == 0 {
        s.append("0");
    } else if d == 1 {
        s.append("1");
    } else if d == 2 {
        s.append("2");
    } else if d == 3 {
        s.append("3");
    } else if d == 4 {
        s.append("4");
    } else if d == 5 {
        s.append("5");
    } else if d == 6 {
        s.append("6");
    } else if d == 7 {
        s.append("7");
    } else if d == 8 {
        s.append("8");
    } else {
        s.append("9");
    }
}

fn append_decimal(s: &mut String, n: u64)
    ensures
        final(s)@ == old(s)@ + decimal_text(n as nat),
    decreases n,
{
    let ghost s0 = s@;
    if n >= 10 {
        append_decimal(s, n / 10);
    }
    append_digit(s, n % 10);
    proof {
        if n >= 10 {
            assert(s0 + decimal_text((n / 10) as nat) + digit_text((n % 10) as nat) =~= s0 + decimal_text(n as nat));
        }
    }
}

/// How `Debug` writes an optional window: `Some(<n>)` or `None`.
pub open spec fn option_text(o: Option<u32>) -> Seq<char> {
    match o {
        Some(w) => "Some("@ + decimal_text(w as nat) + ")"@,
        None => "None"@,
    }
}

/// How an unmanage reason is written in the event log: its JSON string.
pub open spec fn reason_text(r: UnmanageReason) -> Seq<char> {
    match r {
        UnmanageReason::ClientDestroyed => "\"client_destroyed\""@,
        UnmanageReason::ClientUnmapped => "\"client_unmapped\""@,
        UnmanageReason::WmClosed => "\"wm_closed\""@,
    }
}

/// A ratio of `m` millionths with two decimals, the last one rounded half
/// up: 550000 gives `0.55`.
pub open spec fn ratio_text(m: u32) -> Seq<char> {
    let h = (m as nat + 5000) / 10000;
    decimal_text(h / 100) + "."@ + digit_text((h % 100) / 10) + digit_text(h % 10)
}

/// The type, window and details of the event-log entry for a transition.
pub open spec fn transition_entry(t: StateTransition) -> (Seq<char>, Option<u32>, Seq<char>) {
    match t {
        StateTransition::WindowManaged { window, frame } => ("window_managed"@, Some(window), "frame="@ + frame@),
        StateTransition::WindowUnmanaged { window, reason } => ("window_unmanaged"@, Some(window), reason_text(reason)),
        StateTransition::FocusChanged { from, to } => ("focus_changed"@, to, "from="@ + option_text(from)),
        StateTransition::TabSwitched { frame, from, to } => (
            "tab_switched"@,
            None,
            "frame="@ + frame@ + " from="@ + decimal_text(from as nat) + " to="@ + decimal_text(to as nat),
        ),
        StateTransition::FrameSplit { original_frame, new_frame, direction } => (
            "frame_split"@,
            None,
            "original="@ + original_frame@ + " new="@ + new_frame@ + " dir="@ + direction@,
        ),
        StateTransition::SplitResized { split, old_ratio, new_ratio } => (
            "split_resized"@,
            None,
            "split="@ + split@ + " "@ + ratio_text(old_ratio) + "->"@ + ratio_text(new_ratio),
        ),
        StateTransition::WindowMoved { window, from_frame, to_frame } => (
            "window_moved"@,
            Some(window),
            "from="@ + from_frame@ + " to="@ + to_frame@,
        ),
        StateTransition::FrameRemoved { frame } => ("frame_removed"@, None, "frame="@ + frame@),
    }
}

fn append_option(s: &mut String, o: Option<u32>)
    ensures
        final(s)@ == old(s)@ + option_text(o),
{
    let ghost s0 = s@;
    match o {
        Some(w) => {
            s.append("Some(");
            append_decimal(s, w as u64);
            s.append(")");
            proof {
                assert(s@ =~= s0 + option_text(o));
            }
        },
        None => {
            s.append("None");
        },
    }
}

fn append_ratio(s: &mut String, m: u32)
    ensures
        final(s)@ == old(s)@ + ratio_text(m),
{
    let ghost s0 = s@;
    let h: u64 = (m as u64 + 5000) / 10000;
    append_decimal(s, h / 100);
    s.append(".");
    append_digit(s, (h % 100) / 10);
    append_digit(s, h % 10);
    proof {
        assert(s@ =~= s0 + ratio_text(m));
    }
}

/// The details text of the event-log entry for a transition.
fn transition_details(t: &StateTransition) -> (r: String)
    ensures
        r@ == transition_entry(*t).2,
{
    let mut d = String::new();
    match t {
        StateTransition::WindowManaged { frame, .. } => {
            d.append("frame=");
            d.append(frame.as_str());
        },
        StateTransition::WindowUnmanaged { reason, .. } => {
            match reason {
                UnmanageReason::ClientDestroyed => d.append("\"client_destroyed\""),
                UnmanageReason::ClientUnmapped => d.append("\"client_unmapped\""),
                UnmanageReason::WmClosed => d.append("\"wm_closed\""),
            }
        },
        StateTransition::FocusChanged { from, .. } => {
            d.append("from=");
            append_option(&mut d, *from);
        },
        StateTransition::TabSwitched { frame, from, to } => {
            d.append("frame=");
            d.append(frame.as_str());
            d.append(" from=");
            append_decimal(&mut d, *from as u64);
            d.append(" to=");
            append_decimal(&mut d, *to as u64);
        },
        StateTransition::FrameSplit { original_frame, new_frame, direction } => {
            d.append("original=");
            d.append(original_frame.as_str());
            d.append(" new=");
            d.append(new_frame.as_str());
            d.append(" dir=");
            d.append(direction.as_str());
        },
        StateTransition::SplitResized { split, old_ratio, new_ratio } => {
            d.append("split=");
            d.append(split.as_str());
            d.append(" ");
            append_ratio(&mut d, *old_ratio);
            d.append("->");
            append_ratio(&mut d, *new_ratio);
        },
        StateTransition::WindowMoved { from_frame, to_frame, .. } => {
            d.append("from=");
            d.append(from_frame.as_str());
            d.append(" to=");
            d.append(to_frame.as_str());
        },
        StateTransition::FrameRemoved { frame } => {
            d.append("frame=");
            d.append(frame.as_str());
        },
    }
    proof {
        assert(d@ =~= transition_entry(*t).2);
    }
    d
}

/// Keeps the last `max_entries` events, numbering them from 1 in the order
/// they come.
pub struct EventTracer {
    pub entries: VecDeque<EventLogEntry>,
    pub max_entries: usize,
    pub sequence: u64,
    pub start_time: Instant,
}

/// The entries after one more is added: the oldest goes when the buffer is
/// full, then the new one comes last.
pub open spec fn ring_push(entries: Seq<EventLogEntry>, max: usize, e: EventLogEntry) -> Seq<EventLogEntry> {
    let kept = if entries.len() >= max && entries.len() > 0 {
        entries.drop_first()
    } else {
        entries
    };
    kept.push(e)
}

impl EventTracer {
    pub open spec fn view(&self) -> Seq<EventLogEntry> {
        self.entries@
    }

    /// The entries are numbered one after another, the newest with the
    /// sequence number, and there are no more of them than the capacity
    /// (one, where the capacity is zero).
    pub open spec fn wf(&self) -> bool {
        &&& self.entries@.len() <= self.sequence
        &&& self.entries@.len() <= if self.max_entries == 0 { 1 } else { self.max_entries as int }
        &&& forall|i: int|
            0 <= i < self.entries@.len() ==> #[trigger] self.entries@[i].sequence == self.sequence
                - self.entries@.len() + 1 + i
    }

    /// A tracer that keeps the last 1000 events.
    pub fn new() -> (r: Self)
        ensures
            r.wf(),
            r@.len() == 0,
            r.max_entries == DEFAULT_MAX_ENTRIES,
            r.sequence == 0,
    {
        Self::with_capacity(DEFAULT_MAX_ENTRIES)
    }

    /// A tracer that keeps the last `max_entries` events.
    pub fn with_capacity(max_entries: usize) -> (r: Self)
        ensures
            r.wf(),
            r@.len() == 0,
            r.max_entries == max_entries,
            r.sequence == 0,
    {
        EventTracer { entries: VecDeque::new(), max_entries, sequence: 0, start_time: now() }
    }

    /// Milliseconds since the tracer was made.
    pub fn timestamp(&self) -> u64 {
        millis_since(&self.start_time)
    }

    /// Records an event: the next sequence number, the time, its type, window
    /// and details. When the buffer is full the oldest entry goes.
    pub fn add_entry(&mut self, event_type: String, window: Option<u32>, details: String)
        requires
            old(self).wf(),
            old(self).sequence < u64::MAX,
        ensures
            final(self).wf(),
            final(self).sequence == old(self).sequence + 1,
            final(self).max_entries == old(self).max_entries,
            final(self)@ == ring_push(old(self)@, old(self).max_entries, final(self)@.last()),
            final(self)@.last().sequence == final(self).sequence,
            final(self)@.last().event_type == event_type,
            final(self)@.last().window == window,
            final(self)@.last().details == details,
    {
        if self.entries.len() >= self.max_entries {
            let _ = self.entries.pop_front();
        }
        self.sequence = self.sequence + 1;
        let timestamp_ms = self.timestamp();
        self.entries.push_back(
            EventLogEntry { sequence: self.sequence, timestamp_ms, event_type, window, details },
        );
    }

    /// Records an X11 event.
    pub fn trace_x11_event(&mut self, event_type: &str, window: Option<u32>, details: &str)
        requires
            old(self).wf(),
            old(self).sequence < u64::MAX,
        ensures
            final(self).wf(),
            final(self).sequence == old(self).sequence + 1,
            final(self).max_entries == old(self).max_entries,
            final(self)@ == ring_push(old(self)@, old(self).max_entries, final(self)@.last()),
            final(self)@.last().sequence == final(self).sequence,
            final(self)@.last().event_type@ == event_type@,
            final(self)@.last().window == window,
            final(self)@.last().details@ == details@,
    {
        self.add_entry(event_type.to_string(), window, details.to_string());
    }

    /// Records an IPC command and its result, as "cmd=<command> result=<result>".
    pub fn trace_ipc(&mut self, command: &str, result: &str)
        requires
            old(self).wf(),
            old(self).sequence < u64::MAX,
        ensures
            final(self).wf(),
            final(self).sequence == old(self).sequence + 1,
            final(self).max_entries == old(self).max_entries,
            final(self)@ == ring_push(old(self)@, old(self).max_entries, final(self)@.last()),
            final(self)@.last().sequence == final(self).sequence,
            final(self)@.last().event_type@ == "ipc_command"@,
            final(self)@.last().window is None,
            final(self)@.last().details@ == "cmd="@ + command@ + " result="@ + result@,
    {
        let mut details = String::from_str("cmd=");
        details.append(command);
        details.append(" result=");
        details.append(result);
        self.add_entry(String::from_str("ipc_command"), None, details);
    }

    /// Records a change of state, with the type, window and details that
    /// `transition_entry` gives it.
    pub fn trace_transition(&mut self, transition: &StateTransition)
        requires
            old(self).wf(),
            old(self).sequence < u64::MAX,
        ensures
            final(self).wf(),
            final(self).sequence == old(self).sequence + 1,
            final(self).max_entries == old(self).max_entries,
            final(self)@ == ring_push(old(self)@, old(self).max_entries, final(self)@.last()),
            final(self)@.last().sequence == final(self).sequence,
            final(self)@.last().event_type@ == transition_entry(*transition).0,
            final(self)@.last().window == transition_entry(*transition).1,
            final(self)@.last().details@ == transition_entry(*transition).2,
    {
        let details = transition_details(transition);
        let (event_type, window) = match transition {
            StateTransition::WindowManaged { window, .. } => (String::from_str("window_managed"), Some(*window)),
            StateTransition::WindowUnmanaged { window, .. } => (String::from_str("window_unmanaged"), Some(*window)),
            StateTransition::FocusChanged { to, .. } => (String::from_str("focus_changed"), *to),
            StateTransition::TabSwitched { .. } => (String::from_str("tab_switched"), None),
            StateTransition::FrameSplit { .. } => (String::from_str("frame_split"), None),
            StateTransition::SplitResized { .. } => (String::from_str("split_resized"), None),
            StateTransition::WindowMoved { window, .. } => (String::from_str("window_moved"), Some(*window)),
            StateTransition::FrameRemoved { .. } => (String::from_str("frame_removed"), None),
        };
        self.add_entry(event_type, window, details);
    }

    /// The last `n` entries (all of them if there are fewer), oldest first.
    pub fn get_last(&self, n: usize) -> (r: Vec<EventLogEntry>)
        ensures
            r@ == self@.subrange(
                if self@.len() > n { self@.len() - n } else { 0 },
                self@.len() as int,
            ),
    {
        let len = self.entries.len();
        let start = if len > n {
            len - n
        } else {
            0
        };
        self.copy_range(start)
    }

    /// All entries, oldest first.
    pub fn get_all(&self) -> (r: Vec<EventLogEntry>)
        ensures
            r@ == self@,
    {
        let r = self.copy_range(0);
        assert(self@.subrange(0, self@.len() as int) =~= self@);
        r
    }

    fn copy_range(&self, start: usize) -> (r: Vec<EventLogEntry>)
        requires
            start <= self@.len(),
        ensures
            r@ == self@.subrange(start as int, self@.len() as int),
    {
        let mut out: Vec<EventLogEntry> = Vec::new();
        let mut i = start;
        while i < self.entries.len()
            invariant
                start <= i <= self@.len(),
                out@ =~= self@.subrange(start as int, i as int),
            decreases self@.len() - i,
        {
            out.push(self.entries[i].copy());
            i = i + 1;
        }
        out
    }

    /// Empties the buffer and starts the numbering again.
    pub fn clear(&mut self)
        ensures
            final(self).wf(),
            final(self)@.len() == 0,
            final(self).sequence == 0,
            final(self).max_entries == old(self).max_entries,
    {
        self.entries.clear();
        self.sequence = 0;
    }

    /// How many entries the buffer holds.
    pub fn len(&self) -> (r: usize)
        ensures
            r == self@.len(),
    {
        self.entries.len()
    }

    /// Whether the buffer holds no entry.
    pub fn is_empty(&self) -> (r: bool)
        ensures
            r == (self@.len() == 0),
    {
        self.entries.len() == 0
    }
}

impl Default for EventTracer {
    fn default() -> (r: Self)
        ensures
            r.wf(),
            r@.len() == 0,
            r.max_entries == DEFAULT_MAX_ENTRIES,
            r.sequence == 0,
    {
        Self::new()
    }
}

} // verus!
