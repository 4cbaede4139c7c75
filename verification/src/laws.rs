//! Properties that relate several operations of the library, stated over
//! the spec functions that those operations' contracts use.
use crate::config::{hex_u32, skip_hashes};
use crate::layout::{
    first_len, frame_holds, reorder_focus, second_len, step_index, LayoutTree, NodeId, Window, RATIO_ONE,
};
use crate::render::{blue, brighten, green, red};
use crate::tracing::ring_push;
use crate::urgent::no_duplicates;
use crate::ipc::EventLogEntry;
use vstd::arithmetic::div_mod::{
    lemma_add_mod_noop_right, lemma_mod_add_multiples_vanish, lemma_mod_sub_multiples_vanish, lemma_small_mod,
};
use vstd::prelude::*;

verus! {

/// Cycling the tabs (or the workspaces, or moving a window to the adjacent
/// frame) one way and then the other comes back to where it started.
pub proof fn law_step_round_trip(i: int, n: int, forward: bool)
    requires
        0 <= i < n,
    ensures
        0 <= step_index(i, n, forward) < n,
        step_index(step_index(i, n, forward), n, !forward) == i,
{
    if forward {
        if i + 1 < n {
            assert((i + 1) % n == i + 1) by (nonlinear_arith)
                requires
                    0 <= i + 1 < n,
            ;
        } else {
            assert((i + 1) % n == 0) by (nonlinear_arith)
                requires
                    i + 1 == n,
                    n > 0,
            ;
        }
    } else {
        if i == 0 {
            assert((n - 1 + 1) % n == 0) by (nonlinear_arith)
                requires
                    n > 0,
            ;
        } else {
            assert((i - 1 + 1) % n == i) by (nonlinear_arith)
                requires
                    0 < i < n,
            ;
        }
    }
}

/// Where focus index `i` of `n` tabs is after `k` steps one way.
pub open spec fn steps_from(i: int, n: int, forward: bool, k: nat) -> int
    decreases k,
{
    if k == 0 {
        i
    } else {
        step_index(steps_from(i, n, forward, (k - 1) as nat), n, forward)
    }
}

proof fn lemma_steps_from(i: int, n: int, forward: bool, k: nat)
    requires
        0 <= i < n,
    ensures
        steps_from(i, n, forward, k) == if forward { (i + k) % n } else { (i - k) % n },
    decreases k,
{
    if k > 0 {
        lemma_steps_from(i, n, forward, (k - 1) as nat);
        let j = steps_from(i, n, forward, (k - 1) as nat);
        assert(steps_from(i, n, forward, k) == step_index(j, n, forward));
        if forward {
            assert(j == (i + (k - 1)) % n);
            lemma_add_mod_noop_right(1, i + (k - 1), n);
            assert((1 + j) % n == (1 + (i + (k - 1))) % n);
            assert(1 + (i + (k - 1)) == i + k);
            assert(step_index(j, n, true) == (j + 1) % n);
        } else {
            assert(j == (i - (k - 1)) % n);
            lemma_add_mod_noop_right(-1, i - (k - 1), n);
            assert((-1 + j) % n == (-1 + (i - (k - 1))) % n);
            assert(-1 + (i - (k - 1)) == i - k);
            if j == 0 {
                lemma_mod_add_multiples_vanish(-1, n);
                lemma_small_mod((n - 1) as nat, n as nat);
                assert((n + -1) % n == (-1) % n);
            } else {
                lemma_small_mod((j - 1) as nat, n as nat);
            }
        }
    } else {
        lemma_small_mod(i as nat, n as nat);
    }
}

/// Stepping through the tabs of a frame as many times as it has tabs, either
/// way, brings the focus back to the tab it started on.
pub proof fn law_full_cycle_returns(i: int, n: int, forward: bool)
    requires
        0 <= i < n,
    ensures
        steps_from(i, n, forward, n as nat) == i,
{
    lemma_steps_from(i, n, forward, n as nat);
    lemma_small_mod(i as nat, n as nat);
    if forward {
        lemma_mod_add_multiples_vanish(i, n);
        assert(n + i == i + n);
    } else {
        lemma_mod_sub_multiples_vanish(i, n);
        assert(-n + i == i - n);
    }
}

/// Adding a window that a frame does not hold and then removing it gives
/// the frame back its windows.
pub proof fn law_add_then_remove_window(windows: Seq<Window>, w: Window)
    requires
        !windows.contains(w),
    ensures
        windows.push(w).remove_value(w) == windows,
{
    let s = windows.push(w);
    assert(s.index_of_first(w) == Some(windows.len() as int)) by {
        s.index_of_first_ensures(w);
        assert(s[windows.len() as int] == w);
    }
    assert(s.remove(windows.len() as int) =~= windows);
}

proof fn lemma_reorder_index(windows: Seq<Window>, focused: usize, from: usize, to: usize)
    requires
        focused < windows.len(),
        from < windows.len(),
        to < windows.len(),
    ensures
        ({
            let moved = windows.remove(from as int).insert(to as int, windows[from as int]);
            &&& moved.len() == windows.len()
            &&& reorder_focus(focused, from, to) < windows.len()
            &&& moved[reorder_focus(focused, from, to) as int] == windows[focused as int]
        }),
{
    let x = windows[from as int];
    let removed = windows.remove(from as int);
    let moved = removed.insert(to as int, x);
    let f = focused as int;
    let r = reorder_focus(focused, from, to) as int;
    assert(moved.len() == windows.len());
    if focused == from {
        assert(moved[to as int] == x);
    } else {
        let fr = if f < from { f } else { f - 1 };
        assert(removed[fr] == windows[f]);
        if fr < to {
            assert(moved[fr] == removed[fr]);
            assert(r == fr);
        } else {
            assert(moved[fr + 1] == removed[fr]);
            assert(r == fr + 1);
        }
    }
}

/// Moving a tab keeps the frame's windows, in another order, and keeps the
/// focus on the window it was on.
#[verifier::spinoff_prover]
#[verifier::rlimit(30)]
pub proof fn law_reorder_keeps_focused_window(windows: Seq<Window>, focused: usize, from: usize, to: usize)
    requires
        focused < windows.len(),
        from < windows.len(),
        to < windows.len(),
    ensures
        ({
            let moved = windows.remove(from as int).insert(to as int, windows[from as int]);
            &&& moved.len() == windows.len()
            &&& moved.to_multiset() == windows.to_multiset()
            &&& reorder_focus(focused, from, to) < windows.len()
            &&& moved[reorder_focus(focused, from, to) as int] == windows[focused as int]
        }),
{
    lemma_reorder_index(windows, focused, from, to);
    let x = windows[from as int];
    let removed = windows.remove(from as int);
    let moved = removed.insert(to as int, x);
    broadcast use vstd::seq_lib::group_to_multiset_ensures;
    assert(windows =~= windows.subrange(0, from as int) + seq![x] + windows.subrange(from + 1, windows.len() as int));
    assert(removed =~= windows.subrange(0, from as int) + windows.subrange(from + 1, windows.len() as int));
    assert(moved =~= removed.subrange(0, to as int) + seq![x] + removed.subrange(to as int, removed.len() as int));
    assert(removed =~= removed.subrange(0, to as int) + removed.subrange(to as int, removed.len() as int));
    vstd::seq_lib::lemma_multiset_commutative(windows.subrange(0, from as int) + seq![x], windows.subrange(from + 1, windows.len() as int));
    vstd::seq_lib::lemma_multiset_commutative(windows.subrange(0, from as int), seq![x]);
    vstd::seq_lib::lemma_multiset_commutative(windows.subrange(0, from as int), windows.subrange(from + 1, windows.len() as int));
    vstd::seq_lib::lemma_multiset_commutative(removed.subrange(0, to as int) + seq![x], removed.subrange(to as int, removed.len() as int));
    vstd::seq_lib::lemma_multiset_commutative(removed.subrange(0, to as int), seq![x]);
    vstd::seq_lib::lemma_multiset_commutative(removed.subrange(0, to as int), removed.subrange(to as int, removed.len() as int));
}

/// A split hands out its whole length: where the first child and the gap
/// fit, the first child, the gap and the second child add up to the split.
pub proof fn law_split_fills_length(total: u32, ratio: u32, gap: u32)
    requires
        ratio <= RATIO_ONE,
        first_len(total, ratio, gap) + gap <= total,
    ensures
        first_len(total, ratio, gap) + gap + second_len(total, ratio, gap) == total,
        first_len(total, ratio, gap) <= total,
{
}

/// A colour may be written with or without a leading `#`.
pub proof fn law_color_hash_optional(digits: Seq<char>)
    ensures
        hex_u32(skip_hashes(seq!['#'] + digits)) == hex_u32(skip_hashes(digits)),
{
    assert((seq!['#'] + digits).drop_first() =~= digits);
}

/// Lightening by nothing keeps a 0xRRGGBB colour as it is.
pub proof fn law_lighten_by_zero(color: u32)
    requires
        color <= 0xFFFFFF,
    ensures
        brighten(red(color), 0) * 0x10000 + brighten(green(color), 0) * 0x100 + brighten(blue(color), 0)
            == color,
{
    assert(red(color) * 0x10000 + green(color) * 0x100 + blue(color) == color) by (nonlinear_arith)
        requires
            color <= 0xFFFFFF,
    {
        assert(red(color) == color / 0x10000);
        assert(green(color) == (color / 0x100) % 0x100);
    }
}

/// Marking a window urgent and then clearing it leaves the urgent windows
/// as they were.
pub proof fn law_urgent_add_then_remove(urgent: Seq<u32>, w: u32)
    requires
        no_duplicates(urgent),
        !urgent.contains(w),
    ensures
        urgent.push(w).filter(|x: u32| x != w) == urgent,
{
    reveal(Seq::filter);
    assert(urgent.push(w).drop_last() =~= urgent);
    lemma_filter_keeps(urgent, w);
}

proof fn lemma_filter_keeps(s: Seq<u32>, w: u32)
    requires
        !s.contains(w),
    ensures
        s.filter(|x: u32| x != w) == s,
    decreases s.len(),
{
    reveal(Seq::filter);
    if s.len() > 0 {
        assert(!s.drop_last().contains(w)) by {
            if s.drop_last().contains(w) {
                let i = choose|i: int| 0 <= i < s.drop_last().len() && s.drop_last()[i] == w;
                assert(s[i] == w);
            }
        }
        lemma_filter_keeps(s.drop_last(), w);
        assert(s.drop_last().push(s.last()) =~= s);
    } else {
        assert(s.filter(|x: u32| x != w) =~= s);
    }
}

/// The event log never holds more entries than its capacity (one, where the
/// capacity is zero).
pub proof fn law_ring_bounded(entries: Seq<EventLogEntry>, max: usize, e: EventLogEntry)
    requires
        entries.len() <= if max == 0 { 1 } else { max as int },
    ensures
        ring_push(entries, max, e).len() <= if max == 0 { 1 } else { max as int },
        ring_push(entries, max, e).last() == e,
{
}

/// A window just added to a tree is found in it: `add_window` leaves it in
/// the focused frame, and `find_window` gives no frame only when no frame
/// holds the window.
pub proof fn law_added_window_is_found(t0: LayoutTree, t1: LayoutTree, w: Window)
    requires
        t0.wf(),
        t1.wf(),
        t1.focused == t0.focused,
        t1.entries()[t1.focused].node is Frame,
        t1.spec_focused_frame().windows@ == t0.spec_focused_frame().windows@.push(w),
    ensures
        frame_holds(t1.entries(), t1.focused, w),
        !(forall|k: NodeId| !frame_holds(t1.entries(), k, w)),
{
    assert(t1.spec_focused_frame().windows@[t0.spec_focused_frame().windows@.len() as int] == w);
}

} // verus!
