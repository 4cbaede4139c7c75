//! Which frames show their tabs down the left side instead of along the
//! top, and where a frame's front window goes when they do.
use crate::layout::NodeId;
use crate::monitor::MonitorId;
use crate::placement::window_rect;
use crate::types::{saturating_sub_spec, Rect};
use vstd::prelude::*;

verus! {

/// A frame of one workspace of one monitor.
pub type FrameKey = (MonitorId, usize, NodeId);

/// The frames whose tabs are vertical; every other frame has horizontal tabs.
pub struct VerticalTabs {
    pub frames: Vec<FrameKey>,
}

fn same_key(a: &FrameKey, b: &FrameKey) -> (r: bool)
    ensures
        r == (*a == *b),
{
    a.0 == b.0 && a.1 == b.1 && a.2 == b.2
}

impl VerticalTabs {
    /// The frames with vertical tabs.
    pub open spec fn view(&self) -> Set<FrameKey> {
        self.frames@.to_set()
    }

    /// No frame is listed twice.
    pub open spec fn wf(&self) -> bool {
        self.frames@.no_duplicates()
    }

    /// No frame has vertical tabs.
    pub fn new() -> (r: Self)
        ensures
            r.wf(),
            r.view() == Set::<FrameKey>::empty(),
    {
        let r = VerticalTabs { frames: Vec::new() };
        assert(r.view() =~= Set::<FrameKey>::empty());
        r
    }

    fn index_of(&self, key: &FrameKey) -> (r: Option<usize>)
        ensures
            r matches Some(i) ==> i < self.frames@.len() && self.frames@[i as int] == *key,
            r is None ==> !self.frames@.contains(*key),
    {
        let mut i: usize = 0;
        while i < self.frames.len()
            invariant
                i <= self.frames@.len(),
                forall|j: int| 0 <= j < i ==> self.frames@[j] != *key,
            decreases self.frames@.len() - i,
        {
            if same_key(&self.frames[i], key) {
                return Some(i);
            }
            i = i + 1;
        }
        None
    }

    /// Whether the frame has vertical tabs.
    pub fn contains(&self, key: &FrameKey) -> (r: bool)
        ensures
            r == self.view().contains(*key),
    {
        self.index_of(key).is_some()
    }

    /// Switch the frame to the other orientation; returns whether its tabs
    /// are now vertical.
    pub fn toggle(&mut self, key: FrameKey) -> (r: bool)
        requires
            old(self).wf(),
        ensures
            final(self).wf(),
            r == !old(self).view().contains(key),
            final(self).view() == if r { old(self).view().insert(key) } else { old(self).view().remove(key) },
    {
        let ghost s0 = self.frames@;
        match self.index_of(&key) {
            Some(i) => {
                self.frames.remove(i);
                proof {
                    let s1 = self.frames@;
                    assert(s1 =~= s0.remove(i as int));
                    assert forall|a: int, b: int| 0 <= a < s1.len() && 0 <= b < s1.len() && a != b implies s1[a]
                        != s1[b] by {
                        let a0 = if a < i { a } else { a + 1 };
                        let b0 = if b < i { b } else { b + 1 };
                        assert(s1[a] == s0[a0] && s1[b] == s0[b0]);
                    }
                    assert forall|k: FrameKey| s1.to_set().contains(k) <==> s0.to_set().remove(key).contains(k) by {
                        if s1.contains(k) {
                            let a = choose|a: int| 0 <= a < s1.len() && s1[a] == k;
                            let a0 = if a < i { a } else { a + 1 };
                            assert(s0[a0] == k);
                            assert(a0 != i);
                        }
                        if s0.contains(k) && k != key {
                            let a = choose|a: int| 0 <= a < s0.len() && s0[a] == k;
                            if a < i {
                                assert(s1[a] == k);
                            } else {
                                assert(a != i);
                                assert(s1[a - 1] == k);
                            }
                        }
                    }
                    assert(s1.to_set() =~= s0.to_set().remove(key));
                    assert(s0.contains(key));
                }
                false
            },
            None => {
                self.frames.push(key);
                proof {
                    let s1 = self.frames@;
                    assert(s1 =~= s0.push(key));
                    assert forall|k: FrameKey| s1.to_set().contains(k) <==> s0.to_set().insert(key).contains(k) by {
                        if s1.contains(k) {
                            let a = choose|a: int| 0 <= a < s1.len() && s1[a] == k;
                            if a < s0.len() {
                                assert(s0[a] == k);
                            }
                        }
                        if s0.contains(k) {
                            let a = choose|a: int| 0 <= a < s0.len() && s0[a] == k;
                            assert(s1[a] == k);
                        }
                        if k == key {
                            assert(s1[s0.len() as int] == key);
                        }
                    }
                    assert(s1.to_set() =~= s0.to_set().insert(key));
                }
                true
            },
        }
    }

    /// Forget the frames of workspace `ws` of monitor `mon` that are not
    /// among `valid`, the frames that workspace still has.
    pub fn retain_frames(&mut self, mon: MonitorId, ws: usize, valid: &Vec<NodeId>)
        requires
            old(self).wf(),
        ensures
            final(self).wf(),
            final(self).view() == old(self).view().filter(
                |k: FrameKey| k.0 != mon || k.1 != ws || valid@.contains(k.2),
            ),
    {
        let ghost s0 = self.frames@;
        let ghost keep = |k: FrameKey| k.0 != mon || k.1 != ws || valid@.contains(k.2);
        let mut kept: Vec<FrameKey> = Vec::new();
        let mut i: usize = 0;
        while i < self.frames.len()
            invariant
                self.frames@ == s0,
                s0.no_duplicates(),
                i <= s0.len(),
                keep == (|k: FrameKey| k.0 != mon || k.1 != ws || valid@.contains(k.2)),
                kept@.no_duplicates(),
                forall|k: FrameKey| kept@.contains(k) <==> (s0.take(i as int).contains(k) && keep(k)),
            decreases s0.len() - i,
        {
            let k = self.frames[i];
            let mut in_valid = false;
            let mut j: usize = 0;
            while j < valid.len()
                invariant
                    j <= valid@.len(),
                    in_valid <==> valid@.take(j as int).contains(k.2),
                decreases valid@.len() - j,
            {
                let same = valid[j] == k.2;
                proof {
                    let t0 = valid@.take(j as int);
                    let t1 = valid@.take(j + 1);
                    assert(t1 =~= t0.push(valid@[j as int]));
                    if t0.contains(k.2) {
                        let a = choose|a: int| 0 <= a < t0.len() && t0[a] == k.2;
                        assert(t1[a] == k.2);
                    }
                    if same {
                        assert(t1[j as int] == k.2);
                    }
                    if t1.contains(k.2) && !same {
                        let a = choose|a: int| 0 <= a < t1.len() && t1[a] == k.2;
                        assert(a != j);
                        assert(t0[a] == k.2);
                    }
                }
                if same {
                    in_valid = true;
                }
                j = j + 1;
            }
            let ghost t0 = s0.take(i as int);
            let ghost t1 = s0.take(i + 1);
            proof {
                assert(valid@.take(valid@.len() as int) =~= valid@);
                assert(t1 =~= t0.push(k));
                assert(k == s0[i as int]);
                assert forall|x: FrameKey| t1.contains(x) <==> (t0.contains(x) || x == k) by {
                    if t0.contains(x) {
                        let a = choose|a: int| 0 <= a < t0.len() && t0[a] == x;
                        assert(t1[a] == x);
                    }
                    if x == k {
                        assert(t1[i as int] == k);
                    }
                    if t1.contains(x) && x != k {
                        let a = choose|a: int| 0 <= a < t1.len() && t1[a] == x;
                        assert(a != i);
                        assert(t0[a] == x);
                    }
                }
                assert(!t0.contains(k)) by {
                    if t0.contains(k) {
                        let a = choose|a: int| 0 <= a < t0.len() && t0[a] == k;
                        assert(s0[a] == s0[i as int]);
                    }
                }
            }
            let ghost kept0 = kept@;
            proof {
                assert(keep(k) == (k.0 != mon || k.1 != ws || valid@.contains(k.2)));
            }
            if k.0 != mon || k.1 != ws || in_valid {
                kept.push(k);
                proof {
                    assert(kept@ =~= kept0.push(k));
                    assert(!kept0.contains(k));
                    assert forall|a: int, b: int| 0 <= a < kept@.len() && 0 <= b < kept@.len() && a != b implies kept@[a]
                        != kept@[b] by {
                        if a == kept0.len() {
                            assert(kept0[b] == kept@[b]);
                        } else if b == kept0.len() {
                            assert(kept0[a] == kept@[a]);
                        } else {
                            assert(kept0[a] == kept@[a] && kept0[b] == kept@[b]);
                        }
                    }
                    assert forall|x: FrameKey| kept@.contains(x) <==> (kept0.contains(x) || x == k) by {
                        if kept0.contains(x) {
                            let a = choose|a: int| 0 <= a < kept0.len() && kept0[a] == x;
                            assert(kept@[a] == x);
                        }
                        if x == k {
                            assert(kept@[kept0.len() as int] == k);
                        }
                        if kept@.contains(x) && x != k {
                            let a = choose|a: int| 0 <= a < kept@.len() && kept@[a] == x;
                            assert(kept0[a] == x);
                        }
                    }
                }
            }
            proof {
                assert forall|x: FrameKey| kept@.contains(x) <==> (t1.contains(x) && keep(x)) by {
                    if x == k {
                    } else {
                        assert(kept@.contains(x) <==> kept0.contains(x));
                    }
                }
            }
            i = i + 1;
        }
        proof {
            assert(s0.take(s0.len() as int) =~= s0);
            assert(kept@.to_set() =~= s0.to_set().filter(keep));
        }
        self.frames = kept;
    }
}

/// The part of a frame's rectangle left to its windows when its tabs run
/// down its left side, `vertical_tab_width` pixels wide.
pub open spec fn vertical_client_area(rect: Rect, vertical_tab_width: u32) -> Rect {
    Rect {
        x: (rect.x + vertical_tab_width) as i32,
        y: rect.y,
        width: saturating_sub_spec(rect.width, vertical_tab_width as int),
        height: rect.height,
    }
}

/// The inside of the front window of a frame with vertical tabs, with a
/// border of `border` pixels.
pub fn vertical_window_rect(rect: Rect, vertical_tab_width: u32, border: u32) -> (r: Rect)
    requires
        vertical_tab_width <= i32::MAX,
        rect.x + vertical_tab_width <= i32::MAX,
        border * 2 <= u32::MAX,
    ensures
        r == window_rect(vertical_client_area(rect, vertical_tab_width), border),
{
    let width = rect.width.saturating_sub(vertical_tab_width);
    Rect {
        x: rect.x + vertical_tab_width as i32,
        y: rect.y,
        width: width.saturating_sub(border * 2),
        height: rect.height.saturating_sub(border * 2),
    }
}

} // verus!
