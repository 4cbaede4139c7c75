//! Windows asking for attention, oldest first.
use vstd::prelude::*;

verus! {

/// The windows that asked for attention, in the order they asked (oldest
/// first, so that focusing "the urgent window" takes the one that has waited
/// longest), each at most once; and the overlay window that signals them on
/// other workspaces.
pub struct UrgentManager {
    pub windows: Vec<u32>,
    pub indicator: Option<u32>,
}

pub open spec fn no_duplicates(s: Seq<u32>) -> bool {
    forall|i: int, j: int| 0 <= i < j < s.len() ==> s[i] != s[j]
}

impl UrgentManager {
    pub open spec fn view(&self) -> Seq<u32> {
        self.windows@
    }

    pub open spec fn wf(&self) -> bool {
        no_duplicates(self.windows@)
    }

    /// No urgent window and no indicator.
    pub fn new() -> (r: Self)
        ensures
            r.wf(),
            r@.len() == 0,
            r.indicator is None,
    {
        UrgentManager { windows: Vec::new(), indicator: None }
    }

    /// Adds `window` as the newest urgent window, unless it is already urgent.
    pub fn add(&mut self, window: u32)
        requires
            old(self).wf(),
        ensures
            final(self).wf(),
            final(self).indicator == old(self).indicator,
            final(self)@ == if old(self)@.contains(window) {
                old(self)@
            } else {
                old(self)@.push(window)
            },
    {
        if !self.contains(window) {
            self.windows.push(window);
        }
    }

    /// Removes `window` from the urgent windows; the others keep their order.
    pub fn remove(&mut self, window: u32)
        requires
            old(self).wf(),
        ensures
            final(self).wf(),
            final(self).indicator == old(self).indicator,
            final(self)@ == old(self)@.filter(|w: u32| w != window),
    {
        let mut kept: Vec<u32> = Vec::new();
        let mut i: usize = 0;
        while i < self.windows.len()
            invariant
                i <= self.windows@.len(),
                no_duplicates(self.windows@),
                kept@ == self.windows@.take(i as int).filter(|w: u32| w != window),
                forall|a: int, b: int|
                    0 <= a < kept@.len() && 0 <= b < self.windows@.len() && kept@[a]
                        == self.windows@[b] ==> b < i,
                no_duplicates(kept@),
            decreases self.windows@.len() - i,
        {
            let w = self.windows[i];
            proof {
                reveal(Seq::filter);
                assert(self.windows@.take(i + 1).drop_last() =~= self.windows@.take(i as int));
            }
            if w != window {
                kept.push(w);
            }
            i = i + 1;
        }
        proof {
            assert(self.windows@.take(self.windows@.len() as int) =~= self.windows@);
        }
        self.windows = kept;
    }

    /// Whether `window` is urgent.
    pub fn contains(&self, window: u32) -> (r: bool)
        ensures
            r == self@.contains(window),
    {
        let mut i: usize = 0;
        while i < self.windows.len()
            invariant
                i <= self.windows@.len(),
                forall|j: int| 0 <= j < i ==> self.windows@[j] != window,
            decreases self.windows@.len() - i,
        {
            if self.windows[i] == window {
                return true;
            }
            i = i + 1;
        }
        false
    }

    /// The urgent window that has waited longest.
    pub fn first(&self) -> (r: Option<u32>)
        ensures
            r == if self@.len() > 0 { Some(self@[0]) } else { None::<u32> },
    {
        if self.windows.len() > 0 {
            Some(self.windows[0])
        } else {
            None
        }
    }

    /// Whether no window is urgent.
    pub fn is_empty(&self) -> (r: bool)
        ensures
            r == (self@.len() == 0),
    {
        self.windows.len() == 0
    }

    /// The urgent windows, oldest first.
    pub fn windows(&self) -> (r: &[u32])
        ensures
            r@ == self@,
    {
        self.windows.as_slice()
    }

    /// The indicator window, if one was made.
    pub fn indicator(&self) -> (r: Option<u32>)
        ensures
            r == self.indicator,
    {
        self.indicator
    }

    /// Records the indicator window.
    pub fn set_indicator(&mut self, window: u32)
        ensures
            final(self).indicator == Some(window),
            final(self).windows == old(self).windows,
    {
        self.indicator = Some(window);
    }
}

impl Default for UrgentManager {
    fn default() -> (r: Self)
        ensures
            r.wf(),
            r@.len() == 0,
            r.indicator is None,
    {
        Self::new()
    }
}

} // verus!
