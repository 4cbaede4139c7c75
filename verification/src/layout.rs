//! Layout tree for tiling window management.
//!
//! The layout is a binary tree kept in an arena:
//! - leaf nodes are frames, which hold windows as tabs;
//! - inner nodes are splits, which divide their space between two children.

use slotmap::{DefaultKey, Key, SlotMap};
use vstd::prelude::*;

use crate::types::{Rect, RectSnapshot};

verus! {

/// Unique identifier for a node in the layout tree
pub type NodeId = DefaultKey;

/// An X11 window id
pub type Window = u32;

/// Denominator of split ratios: a ratio of `RATIO_ONE` gives the whole
/// space to the first child.
pub const RATIO_ONE: u32 = 1_000_000;

/// Ratio of a fresh split (one half).
pub const RATIO_HALF: u32 = 500_000;

/// Smallest ratio a split can be resized to (one tenth).
pub const RATIO_MIN: u32 = 100_000;

/// Largest ratio a split can be resized to (nine tenths).
pub const RATIO_MAX: u32 = 900_000;

/// Direction of a split
#[derive(Debug, Clone, Copy, PartialEq, Eq, Structural)]
pub enum SplitDirection {
    /// Children arranged left-to-right
    Horizontal,
    /// Children arranged top-to-bottom
    Vertical,
}

/// Direction for spatial navigation
#[derive(Debug, Clone, Copy, PartialEq, Eq, Structural)]
pub enum Direction {
    Left,
    Right,
    Up,
    Down,
}

/// A frame is a leaf node that contains windows
#[derive(Debug, Clone)]
pub struct Frame {
    /// Windows in this frame, shown as tabs
    pub windows: Vec<Window>,
    /// Currently focused window index
    pub focused: usize,
}

/// A split node divides space between two children
#[derive(Debug, Clone)]
pub struct Split {
    pub direction: SplitDirection,
    /// First child (left or top)
    pub first: NodeId,
    /// Second child (right or bottom)
    pub second: NodeId,
    /// Share of the space given to the first child, in millionths
    pub ratio: u32,
}

/// A node in the layout tree
#[derive(Debug, Clone)]
pub enum Node {
    Frame(Frame),
    Split(Split),
}

/// What the arena stores per node: the node and its parent link.
#[derive(Debug, Clone)]
pub struct NodeEntry {
    pub node: Node,
    pub parent: Option<NodeId>,
}

// ---------------------------------------------------------------------------
// The node arena (outside crate `slotmap`)
// ---------------------------------------------------------------------------

/// Arena storage for the nodes of a layout tree.
#[verifier::external_body]
pub struct NodeArena {
    slots: SlotMap<NodeId, NodeEntry>,
}

/// The entries held by a node arena, by key.
pub uninterp spec fn arena_entries(m: NodeArena) -> Map<NodeId, NodeEntry>;

/// The order in which a node arena walks its keys.
pub uninterp spec fn arena_order(m: NodeArena) -> Seq<NodeId>;

/// `SlotMap::with_key`: a new arena holds nothing and walks nothing.
#[verifier::external_body]
fn arena_new() -> (m: NodeArena)
    ensures
        arena_entries(m).dom().is_empty(),
        arena_order(m) == Seq::<NodeId>::empty(),
{
    NodeArena { slots: SlotMap::with_key() }
}

/// `SlotMap::insert`: stores the value under a key the arena did not hold.
/// It fills one slot, a free one or a new last one, and leaves the others
/// alone, so the new key joins the walking order at some place and the
/// other keys keep theirs. It panics only when the arena already holds
/// `u32::MAX - 1` values, which the precondition rules out.
#[verifier::external_body]
fn arena_insert(m: &mut NodeArena, v: NodeEntry) -> (k: NodeId)
    requires
        arena_entries(*old(m)).dom().len() + 1 < u32::MAX,
    ensures
        !arena_entries(*old(m)).dom().contains(k),
        arena_entries(*final(m)) == arena_entries(*old(m)).insert(k, v),
        exists|i: int| 0 <= i <= arena_order(*old(m)).len() && arena_order(*final(m)) == arena_order(*old(m)).insert(i, k),
{
    m.slots.insert(v)
}

/// `SlotMap::get`: the value stored under the key, if any.
#[verifier::external_body]
fn arena_get(m: &NodeArena, k: NodeId) -> (r: Option<&NodeEntry>)
    ensures
        arena_entries(*m).dom().contains(k) ==> r == Some(&arena_entries(*m)[k]),
        !arena_entries(*m).dom().contains(k) ==> r is None,
{
    m.slots.get(k)
}

/// `SlotMap::index_mut`: a mutable borrow of the value under a key the arena
/// holds; what is written through it is what the arena then holds, and the
/// occupied slots, so the walking order, stay as they were.
#[verifier::external_body]
fn arena_get_mut(m: &mut NodeArena, k: NodeId) -> (r: &mut NodeEntry)
    requires
        arena_entries(*old(m)).dom().contains(k),
    ensures
        *r == arena_entries(*old(m))[k],
        arena_entries(*final(m)) == arena_entries(*old(m)).insert(k, *final(r)),
        arena_order(*final(m)) == arena_order(*old(m)),
{
    &mut m.slots[k]
}

/// `SlotMap::remove`: takes the value out from under the key, if any. It
/// frees that key's slot alone, so the key leaves the walking order and the
/// other keys keep their places.
#[verifier::external_body]
fn arena_remove(m: &mut NodeArena, k: NodeId) -> (r: Option<NodeEntry>)
    ensures
        arena_entries(*final(m)) == arena_entries(*old(m)).remove(k),
        arena_entries(*old(m)).dom().contains(k) ==> exists|i: int| 0 <= i < arena_order(*old(m)).len()
            && arena_order(*old(m))[i] == k && arena_order(*final(m)) == arena_order(*old(m)).remove(i),
        !arena_entries(*old(m)).dom().contains(k) ==> arena_order(*final(m)) == arena_order(*old(m)),
        arena_entries(*old(m)).dom().contains(k) ==> r == Some(arena_entries(*old(m))[k]),
        !arena_entries(*old(m)).dom().contains(k) ==> r is None,
{
    m.slots.remove(k)
}

/// `SlotMap::len`: how many values the arena holds.
#[verifier::external_body]
fn arena_len(m: &NodeArena) -> (r: usize)
    ensures
        r == arena_entries(*m).dom().len(),
{
    m.slots.len()
}

/// `SlotMap::keys`: every key the arena holds, once each, in the arena's
/// walking order.
#[verifier::external_body]
fn arena_keys(m: &NodeArena) -> (r: Vec<NodeId>)
    ensures
        r@ == arena_order(*m),
        r@.no_duplicates(),
        r@.to_set() == arena_entries(*m).dom(),
{
    m.slots.keys().collect()
}

} // verus!

verus! {

// ---------------------------------------------------------------------------
// Frames
// ---------------------------------------------------------------------------

/// A frame's focus index is in range, or zero when the frame holds nothing.
pub open spec fn frame_tabs_ok(f: Frame) -> bool {
    if f.windows@.len() == 0 {
        f.focused == 0
    } else {
        f.focused < f.windows@.len()
    }
}

/// What `Frame::remove_window` leaves as the focus index, given the old index
/// and the number of windows left.
pub open spec fn focus_after_removal(focused: usize, remaining: int) -> usize {
    if focused >= remaining && remaining > 0 {
        (remaining - 1) as usize
    } else {
        focused
    }
}

impl Frame {
    pub fn new() -> (f: Self)
        ensures
            f.windows@ == Seq::<Window>::empty(),
            f.focused == 0,
    {
        Frame { windows: Vec::new(), focused: 0 }
    }

    pub fn with_window(window: Window) -> (f: Self)
        ensures
            f.windows@ == seq![window],
            f.focused == 0,
    {
        let mut windows = Vec::new();
        windows.push(window);
        Frame { windows, focused: 0 }
    }

    /// The window of the focused tab, if the focus index is in range.
    pub open spec fn spec_focused_window(&self) -> Option<Window> {
        if self.focused < self.windows@.len() {
            Some(self.windows@[self.focused as int])
        } else {
            None
        }
    }

    pub fn focused_window(&self) -> (r: Option<Window>)
        ensures
            r == self.spec_focused_window(),
    {
        if self.focused < self.windows.len() {
            Some(self.windows[self.focused])
        } else {
            None
        }
    }

    /// Append a window as the last tab and focus it.
    pub fn add_window(&mut self, window: Window)
        ensures
            final(self).windows@ == old(self).windows@.push(window),
            final(self).focused == old(self).windows@.len(),
    {
        self.windows.push(window);
        self.focused = self.windows.len() - 1;
    }

    /// Remove the first tab showing `window`; keeps the focus index in range.
    pub fn remove_window(&mut self, window: Window) -> (removed: bool)
        ensures
            removed == old(self).windows@.contains(window),
            final(self).windows@ == old(self).windows@.remove_value(window),
            removed ==> final(self).focused == focus_after_removal(
                old(self).focused,
                old(self).windows@.len() - 1,
            ),
            !removed ==> final(self).focused == old(self).focused,
    {
        let mut i: usize = 0;
        while i < self.windows.len()
            invariant
                i <= self.windows@.len(),
                self.windows@ == old(self).windows@,
                self.focused == old(self).focused,
                forall|j: int| 0 <= j < i ==> self.windows@[j] != window,
            decreases self.windows@.len() - i,
        {
            if self.windows[i] == window {
                proof {
                    self.windows@.index_of_first_ensures(window);
                    let k = self.windows@.index_of_first(window)->0;
                    assert(k == i as int) by {
                        if k < i {
                        } else if k > i {
                        }
                    }
                }
                self.windows.remove(i);
                if self.focused >= self.windows.len() && self.windows.len() > 0 {
                    self.focused = self.windows.len() - 1;
                }
                return true;
            }
            i = i + 1;
        }
        proof {
            self.windows@.index_of_first_ensures(window);
        }
        false
    }

    pub fn is_empty(&self) -> (r: bool)
        ensures
            r == (self.windows@.len() == 0),
    {
        self.windows.len() == 0
    }
}

impl Node {
    pub fn as_frame(&self) -> (r: Option<&Frame>)
        ensures
            r == (match self {
                Node::Frame(f) => Some(f),
                _ => None,
            }),
    {
        match self {
            Node::Frame(f) => Some(f),
            _ => None,
        }
    }

    pub fn as_split(&self) -> (r: Option<&Split>)
        ensures
            r == (match self {
                Node::Split(s) => Some(s),
                _ => None,
            }),
    {
        match self {
            Node::Split(s) => Some(s),
            _ => None,
        }
    }
}

} // verus!

verus! {

// ---------------------------------------------------------------------------
// Tree structure over the arena's entries
// ---------------------------------------------------------------------------

/// The parent, children and rank links of node `k` agree with each other.
pub open spec fn node_links_ok(
    m: Map<NodeId, NodeEntry>,
    rank: Map<NodeId, nat>,
    root: NodeId,
    k: NodeId,
) -> bool {
    &&& rank.contains_key(k)
    &&& match m[k].node {
        Node::Split(s) => {
            &&& s.first != s.second
            &&& m.contains_key(s.first)
            &&& m.contains_key(s.second)
            &&& m[s.first].parent == Some(k)
            &&& m[s.second].parent == Some(k)
            &&& rank.contains_key(s.first)
            &&& rank.contains_key(s.second)
            &&& rank[s.first] < rank[k]
            &&& rank[s.second] < rank[k]
            &&& RATIO_MIN <= s.ratio <= RATIO_MAX
        },
        Node::Frame(f) => frame_tabs_ok(f),
    }
    &&& if k == root {
        m[k].parent is None
    } else {
        match m[k].parent {
            Some(p) => {
                &&& m.contains_key(p)
                &&& match m[p].node {
                    Node::Split(ps) => ps.first == k || ps.second == k,
                    Node::Frame(_) => false,
                }
            },
            None => false,
        }
    }
}

/// The arena's entries form one binary tree under `root`, with `focused`
/// one of its frames.
pub open spec fn tree_wf(
    m: Map<NodeId, NodeEntry>,
    root: NodeId,
    focused: NodeId,
    rank: Map<NodeId, nat>,
) -> bool {
    &&& tree_shape_wf(m, root, rank)
    &&& m.contains_key(focused)
    &&& m[focused].node is Frame
}

/// The arena's entries form one binary tree under `root`; `rank` strictly
/// decreases from a split to its children.
pub open spec fn tree_shape_wf(m: Map<NodeId, NodeEntry>, root: NodeId, rank: Map<NodeId, nat>) -> bool {
    &&& m.dom().finite()
    &&& m.contains_key(root)
    &&& forall|k: NodeId| #[trigger] m.contains_key(k) ==> node_links_ok(m, rank, root, k)
}

/// Frames under `id`, left to right, exploring at most `fuel` levels.
pub open spec fn frame_seq(m: Map<NodeId, NodeEntry>, id: NodeId, fuel: nat) -> Seq<NodeId>
    decreases fuel,
{
    if fuel == 0 || !m.contains_key(id) {
        Seq::empty()
    } else {
        match m[id].node {
            Node::Frame(_) => seq![id],
            Node::Split(s) => frame_seq(m, s.first, (fuel - 1) as nat) + frame_seq(
                m,
                s.second,
                (fuel - 1) as nat,
            ),
        }
    }
}

/// With enough fuel, the frames under a node no longer depend on the fuel.
pub proof fn lemma_frame_seq_fuel(
    m: Map<NodeId, NodeEntry>,
    root: NodeId,
    rank: Map<NodeId, nat>,
    id: NodeId,
    fuel: nat,
)
    requires
        tree_shape_wf(m, root, rank),
        m.contains_key(id),
        fuel > rank[id],
    ensures
        frame_seq(m, id, fuel) == frame_seq(m, id, rank[id] + 1),
    decreases rank[id],
{
    assert(node_links_ok(m, rank, root, id));
    match m[id].node {
        Node::Frame(_) => {},
        Node::Split(s) => {
            assert(node_links_ok(m, rank, root, s.first));
            assert(node_links_ok(m, rank, root, s.second));
            lemma_frame_seq_fuel(m, root, rank, s.first, (fuel - 1) as nat);
            lemma_frame_seq_fuel(m, root, rank, s.first, rank[id]);
            lemma_frame_seq_fuel(m, root, rank, s.second, (fuel - 1) as nat);
            lemma_frame_seq_fuel(m, root, rank, s.second, rank[id]);
        },
    }
}

/// The frames under node `id` of a well-formed tree.
pub open spec fn frames_under(
    m: Map<NodeId, NodeEntry>,
    rank: Map<NodeId, nat>,
    id: NodeId,
) -> Seq<NodeId> {
    frame_seq(m, id, rank[id] + 1)
}

/// Whether frame `k` of `m` holds window `w`.
pub open spec fn frame_holds(m: Map<NodeId, NodeEntry>, k: NodeId, w: Window) -> bool {
    m.contains_key(k) && match m[k].node {
        Node::Frame(f) => f.windows@.contains(w),
        Node::Split(_) => false,
    }
}

/// The first key of `order` naming a frame that holds `w`.
pub open spec fn first_holding(m: Map<NodeId, NodeEntry>, order: Seq<NodeId>, w: Window) -> Option<NodeId>
    decreases order.len(),
{
    if order.len() == 0 {
        None
    } else if frame_holds(m, order[0], w) {
        Some(order[0])
    } else {
        first_holding(m, order.drop_first(), w)
    }
}

/// The windows of the frames named by `order`, frame after frame.
pub open spec fn windows_along(m: Map<NodeId, NodeEntry>, order: Seq<NodeId>) -> Seq<Window>
    decreases order.len(),
{
    if order.len() == 0 {
        Seq::empty()
    } else {
        let rest = windows_along(m, order.drop_last());
        let k = order.last();
        match m[k].node {
            Node::Frame(f) => rest + f.windows@,
            Node::Split(_) => rest,
        }
    }
}

/// The windows that node `k` of `m` adds to `windows_along`.
pub open spec fn windows_of(m: Map<NodeId, NodeEntry>, k: NodeId) -> Seq<Window> {
    match m[k].node {
        Node::Frame(f) => f.windows@,
        Node::Split(_) => Seq::empty(),
    }
}

proof fn lemma_windows_along_last(m: Map<NodeId, NodeEntry>, o: Seq<NodeId>)
    requires
        o.len() > 0,
    ensures
        windows_along(m, o) == windows_along(m, o.drop_last()) + windows_of(m, o.last()),
{
    if m[o.last()].node is Split {
        assert(windows_along(m, o.drop_last()) + Seq::<Window>::empty() =~= windows_along(m, o.drop_last()));
    }
}

/// Two maps that give each key of `o` the same windows give the same
/// windows along `o`.
pub proof fn lemma_windows_along_agree(m0: Map<NodeId, NodeEntry>, m1: Map<NodeId, NodeEntry>, o: Seq<NodeId>)
    requires
        forall|j: int| 0 <= j < o.len() ==> windows_of(m1, #[trigger] o[j]) == windows_of(m0, o[j]),
    ensures
        windows_along(m1, o) == windows_along(m0, o),
    decreases o.len(),
{
    if o.len() > 0 {
        lemma_windows_along_agree(m0, m1, o.drop_last());
        lemma_windows_along_last(m0, o);
        lemma_windows_along_last(m1, o);
        assert(o.last() == o[o.len() - 1]);
    }
}

/// A key that holds no window adds nothing wherever it is put along `o`.
pub proof fn lemma_windows_along_insert(m: Map<NodeId, NodeEntry>, o: Seq<NodeId>, i: int, x: NodeId)
    requires
        0 <= i <= o.len(),
        windows_of(m, x).len() == 0,
    ensures
        windows_along(m, o.insert(i, x)) == windows_along(m, o),
    decreases o.len(),
{
    let o2 = o.insert(i, x);
    lemma_windows_along_last(m, o2);
    if i == o.len() {
        assert(o2.drop_last() =~= o);
        assert(o2.last() == x);
        assert(windows_along(m, o) + windows_of(m, x) =~= windows_along(m, o));
    } else {
        assert(o2.drop_last() =~= o.drop_last().insert(i, x));
        assert(o2.last() == o.last());
        lemma_windows_along_insert(m, o.drop_last(), i, x);
        lemma_windows_along_last(m, o);
    }
}

/// Inserting a key the order does not list keeps it free of repeats, and
/// adds the key to its set.
pub proof fn lemma_order_insert(o: Seq<NodeId>, i: int, x: NodeId)
    requires
        0 <= i <= o.len(),
        o.no_duplicates(),
        !o.contains(x),
    ensures
        o.insert(i, x).no_duplicates(),
        o.insert(i, x).to_set() == o.to_set().insert(x),
{
    let o2 = o.insert(i, x);
    assert forall|a: int, b: int| 0 <= a < o2.len() && 0 <= b < o2.len() && a != b implies o2[a] != o2[b] by {
        if o2[a] == x {
            assert(a == i) by {
                if a < i { assert(o[a] == x); } else if a > i { assert(o[a - 1] == x); }
            }
        }
        if o2[b] == x {
            assert(b == i) by {
                if b < i { assert(o[b] == x); } else if b > i { assert(o[b - 1] == x); }
            }
        }
        if a != i && b != i {
            let a0 = if a < i { a } else { a - 1 };
            let b0 = if b < i { b } else { b - 1 };
            assert(o2[a] == o[a0] && o2[b] == o[b0]);
        }
    }
    assert forall|y: NodeId| o2.to_set().contains(y) <==> o.to_set().insert(x).contains(y) by {
        if o2.contains(y) {
            let a = choose|a: int| 0 <= a < o2.len() && o2[a] == y;
            if a < i { assert(o[a] == y); } else if a > i { assert(o[a - 1] == y); }
        }
        if o.contains(y) {
            let a = choose|a: int| 0 <= a < o.len() && o[a] == y;
            if a < i { assert(o2[a] == y); } else { assert(o2[a + 1] == y); }
        }
        if y == x {
            assert(o2[i] == x);
        }
    }
    assert(o2.to_set() =~= o.to_set().insert(x));
}

/// Taking out the key at `i` of an order free of repeats keeps it so, and
/// takes the key out of its set.
pub proof fn lemma_order_remove(o: Seq<NodeId>, i: int)
    requires
        0 <= i < o.len(),
        o.no_duplicates(),
    ensures
        o.remove(i).no_duplicates(),
        o.remove(i).to_set() == o.to_set().remove(o[i]),
        o.remove(i).insert(i, o[i]) == o,
{
    let o2 = o.remove(i);
    assert(o2.insert(i, o[i]) =~= o);
    assert forall|a: int, b: int| 0 <= a < o2.len() && 0 <= b < o2.len() && a != b implies o2[a] != o2[b] by {
        let a0 = if a < i { a } else { a + 1 };
        let b0 = if b < i { b } else { b + 1 };
        assert(o2[a] == o[a0] && o2[b] == o[b0]);
    }
    assert forall|y: NodeId| o2.to_set().contains(y) <==> o.to_set().remove(o[i]).contains(y) by {
        if o2.contains(y) {
            let a = choose|a: int| 0 <= a < o2.len() && o2[a] == y;
            let a0 = if a < i { a } else { a + 1 };
            assert(o[a0] == y);
        }
        if o.contains(y) && y != o[i] {
            let a = choose|a: int| 0 <= a < o.len() && o[a] == y;
            if a < i { assert(o2[a] == y); } else { assert(o2[a - 1] == y); }
        }
    }
    assert(o2.to_set() =~= o.to_set().remove(o[i]));
}

/// A split adds an empty frame and a split node to the walking order, and
/// takes no window away nor adds one: the windows along the order stay.
proof fn lemma_split_windows(
    m0: Map<NodeId, NodeEntry>,
    m1: Map<NodeId, NodeEntry>,
    o0: Seq<NodeId>,
    o1: Seq<NodeId>,
    o2: Seq<NodeId>,
    f: NodeId,
    dir: SplitDirection,
    n: NodeId,
    s: NodeId,
)
    requires
        split_entries_ok(m0, m1, f, dir, n, s),
        m0[f].parent matches Some(pid) ==> m0[pid].node is Split,
        o0.no_duplicates(),
        o0.to_set() == m0.dom(),
        exists|i: int| 0 <= i <= o0.len() && o1 == o0.insert(i, n),
        exists|i: int| 0 <= i <= o1.len() && o2 == o1.insert(i, s),
    ensures
        o2.no_duplicates(),
        o2.to_set() == m1.dom(),
        windows_along(m1, o2) == windows_along(m0, o0),
{
    let i1 = choose|i: int| 0 <= i <= o0.len() && o1 == o0.insert(i, n);
    let i2 = choose|i: int| 0 <= i <= o1.len() && o2 == o1.insert(i, s);
    assert(!o0.contains(n)) by {
        if o0.contains(n) {
            assert(o0.to_set().contains(n));
        }
    }
    lemma_order_insert(o0, i1, n);
    assert(!o1.contains(s)) by {
        if o1.contains(s) {
            assert(o1.to_set().contains(s));
        }
    }
    lemma_order_insert(o1, i2, s);
    assert(o2.to_set() =~= m1.dom());
    lemma_windows_along_insert(m1, o1, i2, s);
    lemma_windows_along_insert(m1, o0, i1, n);
    assert forall|j: int| 0 <= j < o0.len() implies windows_of(m1, #[trigger] o0[j]) == windows_of(m0, o0[j]) by {
        let k = o0[j];
        assert(o0.to_set().contains(k));
        if k != f && Some(k) != m0[f].parent {
            assert(m1[k] == m0[k]);
        }
    }
    lemma_windows_along_agree(m0, m1, o0);
}

/// Taking an empty frame out with its parent split leaves every window in
/// its place along the walking order.
proof fn lemma_collapse_windows(
    m0: Map<NodeId, NodeEntry>,
    m1: Map<NodeId, NodeEntry>,
    o0: Seq<NodeId>,
    oa: Seq<NodeId>,
    ob: Seq<NodeId>,
    e: NodeId,
)
    requires
        collapse_entries_ok(m0, m1, e),
        empty_frame(m0, e),
        m0[e].parent is Some,
        m0[m0[e].parent->0].node is Split,
        m0[m0[e].parent->0].parent matches Some(g) ==> m0[g].node is Split,
        o0.no_duplicates(),
        o0.to_set() == m0.dom(),
        exists|i: int| 0 <= i < o0.len() && o0[i] == e && oa == o0.remove(i),
        exists|i: int| 0 <= i < oa.len() && oa[i] == m0[e].parent->0 && ob == oa.remove(i),
    ensures
        ob.no_duplicates(),
        ob.to_set() == m1.dom(),
        windows_along(m1, ob) == windows_along(m0, o0),
{
    let p = m0[e].parent->0;
    let ia = choose|i: int| 0 <= i < o0.len() && o0[i] == e && oa == o0.remove(i);
    let ib = choose|i: int| 0 <= i < oa.len() && oa[i] == p && ob == oa.remove(i);
    lemma_order_remove(o0, ia);
    lemma_order_remove(oa, ib);
    assert(ob.to_set() =~= m1.dom());
    lemma_windows_along_insert(m0, oa, ia, e);
    lemma_windows_along_insert(m0, ob, ib, p);
    assert forall|j: int| 0 <= j < ob.len() implies windows_of(m1, #[trigger] ob[j]) == windows_of(m0, ob[j]) by {
        let k = ob[j];
        assert(ob.to_set().contains(k));
    }
    lemma_windows_along_agree(m0, m1, ob);
}

/// `m1` and `m2` hold the same nodes, and agree on all of them but `k`.
pub open spec fn entries_same_except(m1: Map<NodeId, NodeEntry>, m2: Map<NodeId, NodeEntry>, k: NodeId) -> bool {
    &&& m1.dom() == m2.dom()
    &&& m1.contains_key(k) ==> m2[k].parent == m1[k].parent
    &&& forall|j: NodeId| #[trigger] m1.contains_key(j) && j != k ==> m2[j] == m1[j]
}

/// `m1` and `m2` have the same nodes, parents and splits' children: they
/// differ at most in frames' contents and splits' directions and ratios.
pub open spec fn same_shape(m1: Map<NodeId, NodeEntry>, m2: Map<NodeId, NodeEntry>) -> bool {
    &&& m1.dom() == m2.dom()
    &&& forall|k: NodeId| #[trigger] m1.contains_key(k) ==> {
        &&& m2[k].parent == m1[k].parent
        &&& match (m1[k].node, m2[k].node) {
            (Node::Frame(_), Node::Frame(_)) => true,
            (Node::Split(s1), Node::Split(s2)) => s1.first == s2.first && s1.second == s2.second,
            _ => false,
        }
    }
}

/// Changing a single entry, but not its kind, parent or children, keeps the
/// shape of the tree.
pub proof fn lemma_one_change_same_shape(m1: Map<NodeId, NodeEntry>, m2: Map<NodeId, NodeEntry>, k: NodeId)
    requires
        entries_same_except(m1, m2, k),
        m1.contains_key(k),
        match (m1[k].node, m2[k].node) {
            (Node::Frame(_), Node::Frame(_)) => true,
            (Node::Split(s1), Node::Split(s2)) => s1.first == s2.first && s1.second == s2.second,
            _ => false,
        },
    ensures
        same_shape(m1, m2),
{
    assert forall|j: NodeId| #[trigger] m1.contains_key(j) implies {
        &&& m2[j].parent == m1[j].parent
        &&& match (m1[j].node, m2[j].node) {
            (Node::Frame(_), Node::Frame(_)) => true,
            (Node::Split(s1), Node::Split(s2)) => s1.first == s2.first && s1.second == s2.second,
            _ => false,
        }
    } by {
        if j != k {
            assert(m2[j] == m1[j]);
        }
    }
}

/// Changing only what `same_shape` leaves free, with frames' tabs in range,
/// keeps a tree well formed.
pub proof fn lemma_same_shape_wf(
    m1: Map<NodeId, NodeEntry>,
    m2: Map<NodeId, NodeEntry>,
    root: NodeId,
    focused: NodeId,
    rank: Map<NodeId, nat>,
)
    requires
        tree_wf(m1, root, focused, rank),
        same_shape(m1, m2),
        forall|k: NodeId| #[trigger] m2.contains_key(k) && m2[k].node is Frame ==> frame_tabs_ok(
            m2[k].node->Frame_0,
        ),
        forall|k: NodeId| #[trigger] m2.contains_key(k) && m2[k].node is Split ==> RATIO_MIN
            <= m2[k].node->Split_0.ratio <= RATIO_MAX,
    ensures
        tree_wf(m2, root, focused, rank),
{
    assert forall|k: NodeId| #[trigger] m2.contains_key(k) implies node_links_ok(m2, rank, root, k) by {
        assert(m1.contains_key(k));
        assert(node_links_ok(m1, rank, root, k));
        match m1[k].node {
            Node::Split(s) => {
                assert(m1.contains_key(s.first));
                assert(m1.contains_key(s.second));
            },
            Node::Frame(_) => {},
        }
        if k != root {
            let p = m1[k].parent->0;
            assert(m1.contains_key(p));
        }
    }
}

/// Frames' contents do not change which frames lie under a node.
pub proof fn lemma_same_shape_frame_seq(
    m1: Map<NodeId, NodeEntry>,
    m2: Map<NodeId, NodeEntry>,
    id: NodeId,
    fuel: nat,
)
    requires
        same_shape(m1, m2),
    ensures
        frame_seq(m1, id, fuel) == frame_seq(m2, id, fuel),
    decreases fuel,
{
    if fuel > 0 && m1.contains_key(id) {
        match m1[id].node {
            Node::Split(s) => {
                lemma_same_shape_frame_seq(m1, m2, s.first, (fuel - 1) as nat);
                lemma_same_shape_frame_seq(m1, m2, s.second, (fuel - 1) as nat);
            },
            Node::Frame(_) => {},
        }
    }
}

/// Replacing one frame's contents by tabs in range keeps the tree well formed
/// and its frames where they were.
pub proof fn lemma_frame_update(
    m0: Map<NodeId, NodeEntry>,
    m1: Map<NodeId, NodeEntry>,
    root: NodeId,
    focused: NodeId,
    rank: Map<NodeId, nat>,
    k: NodeId,
)
    requires
        tree_wf(m0, root, focused, rank),
        m0.contains_key(k),
        m0[k].node is Frame,
        entries_same_except(m0, m1, k),
        m1[k].node is Frame,
        frame_tabs_ok(m1[k].node->Frame_0),
    ensures
        tree_wf(m1, root, focused, rank),
        same_shape(m0, m1),
        forall|id: NodeId, fuel: nat| frame_seq(m1, id, fuel) == frame_seq(m0, id, fuel),
{
    lemma_one_change_same_shape(m0, m1, k);
    assert forall|j: NodeId| #[trigger] m1.contains_key(j) && m1[j].node is Frame implies frame_tabs_ok(
        m1[j].node->Frame_0) by {
        if j != k {
            assert(node_links_ok(m0, rank, root, j));
        }
    }
    assert forall|j: NodeId| #[trigger] m1.contains_key(j) && m1[j].node is Split implies RATIO_MIN
        <= m1[j].node->Split_0.ratio <= RATIO_MAX by {
        assert(node_links_ok(m0, rank, root, j));
    }
    lemma_same_shape_wf(m0, m1, root, focused, rank);
    assert forall|id: NodeId, fuel: nat| frame_seq(m1, id, fuel) == frame_seq(m0, id, fuel) by {
        lemma_same_shape_frame_seq(m0, m1, id, fuel);
    }
}

/// Where the first `i` keys of `order` hold no frame with `w`, the search
/// for `w` starts at key `i`.
pub proof fn lemma_first_holding_skip(m: Map<NodeId, NodeEntry>, order: Seq<NodeId>, w: Window, i: int)
    requires
        0 <= i <= order.len(),
        forall|j: int| 0 <= j < i ==> !frame_holds(m, #[trigger] order[j], w),
    ensures
        first_holding(m, order, w) == first_holding(m, order.subrange(i, order.len() as int), w),
    decreases i,
{
    if i > 0 {
        assert(!frame_holds(m, order[0], w));
        let rest = order.drop_first();
        assert forall|j: int| 0 <= j < i - 1 implies !frame_holds(m, #[trigger] rest[j], w) by {
            assert(rest[j] == order[j + 1]);
        }
        lemma_first_holding_skip(m, rest, w, i - 1);
        assert(rest.subrange(i - 1, rest.len() as int) =~= order.subrange(i, order.len() as int));
    } else {
        assert(order.subrange(0, order.len() as int) =~= order);
    }
}

/// Removing a value a sequence holds shortens it by one.
pub proof fn lemma_remove_value_len(s: Seq<Window>, w: Window)
    requires
        s.contains(w),
    ensures
        s.remove_value(w).len() == s.len() - 1,
{
    s.index_of_first_ensures(w);
}

/// Replacing one split's direction or ratio, keeping its children and a
/// ratio in bounds, keeps the tree well formed and its frames where they were.
pub proof fn lemma_split_update(
    m0: Map<NodeId, NodeEntry>,
    m1: Map<NodeId, NodeEntry>,
    root: NodeId,
    focused: NodeId,
    rank: Map<NodeId, nat>,
    k: NodeId,
)
    requires
        tree_wf(m0, root, focused, rank),
        m0.contains_key(k),
        m0[k].node is Split,
        entries_same_except(m0, m1, k),
        m1[k].node is Split,
        m1[k].node->Split_0.first == m0[k].node->Split_0.first,
        m1[k].node->Split_0.second == m0[k].node->Split_0.second,
        RATIO_MIN <= m1[k].node->Split_0.ratio <= RATIO_MAX,
    ensures
        tree_wf(m1, root, focused, rank),
        same_shape(m0, m1),
        forall|id: NodeId, fuel: nat| frame_seq(m1, id, fuel) == frame_seq(m0, id, fuel),
{
    lemma_one_change_same_shape(m0, m1, k);
    assert forall|j: NodeId| #[trigger] m1.contains_key(j) && m1[j].node is Frame implies frame_tabs_ok(
        m1[j].node->Frame_0) by {
        assert(node_links_ok(m0, rank, root, j));
    }
    assert forall|j: NodeId| #[trigger] m1.contains_key(j) && m1[j].node is Split implies RATIO_MIN
        <= m1[j].node->Split_0.ratio <= RATIO_MAX by {
        if j != k {
            assert(node_links_ok(m0, rank, root, j));
        }
    }
    lemma_same_shape_wf(m0, m1, root, focused, rank);
    assert forall|id: NodeId, fuel: nat| frame_seq(m1, id, fuel) == frame_seq(m0, id, fuel) by {
        lemma_same_shape_frame_seq(m0, m1, id, fuel);
    }
}

/// Every node listed by `frame_seq` is a frame of the tree.
pub proof fn lemma_frame_seq_frames(m: Map<NodeId, NodeEntry>, id: NodeId, fuel: nat)
    ensures
        forall|i: int| 0 <= i < frame_seq(m, id, fuel).len() ==> {
            &&& m.contains_key(#[trigger] frame_seq(m, id, fuel)[i])
            &&& m[frame_seq(m, id, fuel)[i]].node is Frame
        },
    decreases fuel,
{
    if fuel > 0 && m.contains_key(id) {
        match m[id].node {
            Node::Split(s) => {
                lemma_frame_seq_frames(m, s.first, (fuel - 1) as nat);
                lemma_frame_seq_frames(m, s.second, (fuel - 1) as nat);
                let a = frame_seq(m, s.first, (fuel - 1) as nat);
                let b = frame_seq(m, s.second, (fuel - 1) as nat);
                assert forall|i: int| 0 <= i < (a + b).len() implies {
                    &&& m.contains_key(#[trigger] (a + b)[i])
                    &&& m[(a + b)[i]].node is Frame
                } by {
                    if i < a.len() {
                        assert((a + b)[i] == a[i]);
                    } else {
                        assert((a + b)[i] == b[i - a.len()]);
                    }
                }
            },
            Node::Frame(_) => {},
        }
    }
}

/// The ratio a split ends up with after being set to `v` (in millionths).
pub open spec fn clamp_ratio(v: int) -> u32 {
    if v < RATIO_MIN {
        RATIO_MIN
    } else if v > RATIO_MAX {
        RATIO_MAX
    } else {
        v as u32
    }
}

/// The position one step from `i` among `n` positions in a ring: forward
/// goes to the next one, backward to the previous one, wrapping at the ends.
pub open spec fn step_index(i: int, n: int, forward: bool) -> int {
    if forward {
        (i + 1) % n
    } else if i == 0 {
        n - 1
    } else {
        i - 1
    }
}

/// Where the focus index of a frame goes when its tab `from` moves to `to`.
pub open spec fn reorder_focus(focused: usize, from: usize, to: usize) -> usize {
    if focused == from {
        to
    } else if from < focused && to >= focused {
        (focused - 1) as usize
    } else if from > focused && to <= focused {
        (focused + 1) as usize
    } else {
        focused
    }
}

/// Node `k` of `m` is a frame holding exactly `windows`, focused at `focused`.
pub open spec fn frame_now(m: Map<NodeId, NodeEntry>, k: NodeId, windows: Seq<Window>, focused: int) -> bool {
    &&& m.contains_key(k)
    &&& m[k].node is Frame
    &&& m[k].node->Frame_0.windows@ == windows
    &&& m[k].node->Frame_0.focused == focused
}

/// Node `k` of `m` is a frame.
pub open spec fn is_frame(m: Map<NodeId, NodeEntry>, k: NodeId) -> bool {
    m.contains_key(k) && m[k].node is Frame
}

/// The frame stored under `k` in `m`.
pub open spec fn frame_of(m: Map<NodeId, NodeEntry>, k: NodeId) -> Frame {
    m[k].node->Frame_0
}

/// `m1` and `m2` hold the same nodes, and agree on all but `a` and `b`,
/// whose parents they keep.
pub open spec fn entries_same_except2(
    m1: Map<NodeId, NodeEntry>,
    m2: Map<NodeId, NodeEntry>,
    a: NodeId,
    b: NodeId,
) -> bool {
    &&& m1.dom() == m2.dom()
    &&& m1.contains_key(a) ==> m2[a].parent == m1[a].parent
    &&& m1.contains_key(b) ==> m2[b].parent == m1[b].parent
    &&& forall|j: NodeId| #[trigger] m1.contains_key(j) && j != a && j != b ==> m2[j] == m1[j]
}

/// `s` with `n` inserted right after every occurrence of `f`.
pub open spec fn insert_after(s: Seq<NodeId>, f: NodeId, n: NodeId) -> Seq<NodeId>
    decreases s.len(),
{
    if s.len() == 0 {
        s
    } else {
        insert_after(s.drop_last(), f, n) + (if s.last() == f {
            seq![f, n]
        } else {
            seq![s.last()]
        })
    }
}

pub proof fn lemma_insert_after_concat(a: Seq<NodeId>, b: Seq<NodeId>, f: NodeId, n: NodeId)
    ensures
        insert_after(a + b, f, n) == insert_after(a, f, n) + insert_after(b, f, n),
    decreases b.len(),
{
    if b.len() == 0 {
        assert(a + b =~= a);
        assert(insert_after(b, f, n) =~= Seq::<NodeId>::empty());
        assert(insert_after(a, f, n) + insert_after(b, f, n) =~= insert_after(a, f, n));
    } else {
        lemma_insert_after_concat(a, b.drop_last(), f, n);
        assert((a + b).drop_last() =~= a + b.drop_last());
        assert((a + b).last() == b.last());
        let tail = if b.last() == f { seq![f, n] } else { seq![b.last()] };
        assert(insert_after(a, f, n) + insert_after(b.drop_last(), f, n) + tail =~= insert_after(a, f, n) + (
        insert_after(b.drop_last(), f, n) + tail));
    }
}

pub proof fn lemma_insert_after_single(x: NodeId, f: NodeId, n: NodeId)
    ensures
        insert_after(seq![x], f, n) == (if x == f { seq![f, n] } else { seq![x] }),
{
    assert(seq![x].drop_last() =~= Seq::<NodeId>::empty());
    assert(insert_after(Seq::<NodeId>::empty(), f, n) =~= Seq::<NodeId>::empty());
    let t = if x == f { seq![f, n] } else { seq![x] };
    assert(Seq::<NodeId>::empty() + t =~= t);
}

/// The split `sp` with its child `old_child` replaced by `new_child`.
pub open spec fn replace_child(sp: Split, old_child: NodeId, new_child: NodeId) -> Split {
    if sp.first == old_child {
        Split { first: new_child, ..sp }
    } else {
        Split { second: new_child, ..sp }
    }
}

/// The entries after splitting frame `f` of `m0` with direction `dir`:
/// a new split `s` takes `f`'s place, with `f` and the new empty frame `n`
/// as its children.
pub open spec fn split_entries_ok(
    m0: Map<NodeId, NodeEntry>,
    m1: Map<NodeId, NodeEntry>,
    f: NodeId,
    dir: SplitDirection,
    n: NodeId,
    s: NodeId,
) -> bool {
    let p = m0[f].parent;
    &&& !m0.contains_key(n)
    &&& !m0.contains_key(s)
    &&& n != s
    &&& m1.dom() == m0.dom().insert(n).insert(s)
    &&& frame_now(m1, n, Seq::empty(), 0)
    &&& m1[n].parent == Some(s)
    &&& m1[s] == NodeEntry {
        node: Node::Split(Split { direction: dir, first: f, second: n, ratio: RATIO_HALF }),
        parent: p,
    }
    &&& m1[f] == NodeEntry { node: m0[f].node, parent: Some(s) }
    &&& p matches Some(pid) ==> m1[pid] == NodeEntry {
        node: Node::Split(replace_child(m0[pid].node->Split_0, f, s)),
        parent: m0[pid].parent,
    }
    &&& forall|k: NodeId| #[trigger] m0.contains_key(k) && k != f && Some(k) != p ==> m1[k] == m0[k]
}

/// The ranks after a split: old nodes are spread out to leave room for the
/// new split right above `f`.
pub open spec fn split_ranks(
    m1: Map<NodeId, NodeEntry>,
    rank: Map<NodeId, nat>,
    f: NodeId,
    n: NodeId,
    s: NodeId,
) -> Map<NodeId, nat> {
    Map::new(
        |k: NodeId| m1.contains_key(k),
        |k: NodeId|
            if k == n {
                0nat
            } else if k == s {
                2 * rank[f] + 3
            } else {
                2 * rank[k] + 2
            },
    )
}

pub proof fn lemma_split_wf(
    m0: Map<NodeId, NodeEntry>,
    m1: Map<NodeId, NodeEntry>,
    root: NodeId,
    f: NodeId,
    rank: Map<NodeId, nat>,
    dir: SplitDirection,
    n: NodeId,
    s: NodeId,
)
    requires
        tree_wf(m0, root, f, rank),
        split_entries_ok(m0, m1, f, dir, n, s),
    ensures
        tree_wf(m1, if m0[f].parent is None { s } else { root }, n, split_ranks(m1, rank, f, n, s)),
{
    let p = m0[f].parent;
    let root1 = if p is None { s } else { root };
    let rank1 = split_ranks(m1, rank, f, n, s);
    assert(node_links_ok(m0, rank, root, f));
    assert(m1.dom().finite());
    assert forall|k: NodeId| #[trigger] m1.contains_key(k) implies node_links_ok(m1, rank1, root1, k) by {
        if k == n {
        } else if k == s {
            if let Some(pid) = p {
                assert(node_links_ok(m0, rank, root, pid));
                assert(m1.contains_key(pid));
            }
        } else {
            assert(m0.contains_key(k));
            assert(node_links_ok(m0, rank, root, k));
            if p is None {
                assert(f == root);
            } else {
                assert(f != root);
                assert(m0.contains_key(root));
                assert(node_links_ok(m0, rank, root, root));
            }
            if k == f {
            } else if Some(k) == p {
                let sp = m0[k].node->Split_0;
                let other = if sp.first == f { sp.second } else { sp.first };
                assert(node_links_ok(m0, rank, root, other));
                assert(m1[other] == m0[other]);
                if k != root {
                    let q = m0[k].parent->0;
                    assert(node_links_ok(m0, rank, root, q));
                    assert(m1[q] == m0[q]);
                }
            } else {
                match m0[k].node {
                    Node::Split(sp) => {
                        assert(sp.first != f);
                        assert(sp.second != f);
                        if Some(sp.first) == p {
                        } else {
                            assert(m1[sp.first] == m0[sp.first]);
                        }
                        if Some(sp.second) == p {
                        } else {
                            assert(m1[sp.second] == m0[sp.second]);
                        }
                    },
                    Node::Frame(_) => {},
                }
                if k != root {
                    let q = m0[k].parent->0;
                    assert(node_links_ok(m0, rank, root, q));
                    if Some(q) == p {
                    } else {
                        assert(q != f);
                        assert(m1[q] == m0[q]);
                    }
                }
            }
        }
    }
}

/// After a split, the frames under an old node other than the split frame
/// are the old ones, with the new frame right after the split frame.
pub proof fn lemma_split_frames_under(
    m0: Map<NodeId, NodeEntry>,
    m1: Map<NodeId, NodeEntry>,
    root: NodeId,
    f: NodeId,
    rank: Map<NodeId, nat>,
    dir: SplitDirection,
    n: NodeId,
    s: NodeId,
    id: NodeId,
)
    requires
        tree_wf(m0, root, f, rank),
        split_entries_ok(m0, m1, f, dir, n, s),
        m0.contains_key(id),
        id != f,
    ensures
        frames_under(m1, split_ranks(m1, rank, f, n, s), id) == insert_after(frames_under(m0, rank, id), f, n),
    decreases rank[id],
{
    let p = m0[f].parent;
    let root1 = if p is None { s } else { root };
    let rank1 = split_ranks(m1, rank, f, n, s);
    lemma_split_wf(m0, m1, root, f, rank, dir, n, s);
    assert(node_links_ok(m0, rank, root, id));
    assert(node_links_ok(m0, rank, root, f));
    match m0[id].node {
        Node::Frame(_) => {
            assert(Some(id) != p);
            assert(m1[id] == m0[id]);
            lemma_insert_after_single(id, f, n);
        },
        Node::Split(sp) => {
            let sp1 = m1[id].node->Split_0;
            assert(m1.contains_key(id));
            assert(node_links_ok(m1, rank1, root1, id));
            // The children of `id` after the split.
            assert(m1[id].node is Split);
            lemma_frame_seq_fuel(m1, root1, rank1, sp1.first, rank1[id]);
            lemma_frame_seq_fuel(m1, root1, rank1, sp1.second, rank1[id]);
            lemma_frame_seq_fuel(m0, root, rank, sp.first, rank[id]);
            lemma_frame_seq_fuel(m0, root, rank, sp.second, rank[id]);
            assert(frames_under(m1, rank1, id) == frames_under(m1, rank1, sp1.first) + frames_under(
                m1,
                rank1,
                sp1.second,
            ));
            assert(frames_under(m0, rank, id) == frames_under(m0, rank, sp.first) + frames_under(
                m0,
                rank,
                sp.second,
            ));
            lemma_insert_after_concat(frames_under(m0, rank, sp.first), frames_under(m0, rank, sp.second), f, n);
            // Each child: either the split frame, now under `s`, or an old node.
            assert forall|c: NodeId| (c == sp.first || c == sp.second) implies frames_under(
                m1,
                rank1,
                if c == f { s } else { c },
            ) == insert_after(frames_under(m0, rank, c), f, n) by {
                assert(node_links_ok(m0, rank, root, c));
                if c == f {
                    assert(node_links_ok(m1, rank1, root1, s));
                    lemma_frame_seq_fuel(m1, root1, rank1, f, rank1[s]);
                    lemma_frame_seq_fuel(m1, root1, rank1, n, rank1[s]);
                    assert(frames_under(m1, rank1, f) == seq![f]);
                    assert(frames_under(m1, rank1, n) == seq![n]);
                    assert(frames_under(m1, rank1, s) == seq![f] + seq![n]);
                    assert(frames_under(m0, rank, f) == seq![f]);
                    lemma_insert_after_single(f, f, n);
                    assert(seq![f] + seq![n] =~= seq![f, n]);
                } else {
                    lemma_split_frames_under(m0, m1, root, f, rank, dir, n, s, c);
                }
            }
            if Some(id) == p {
                assert(m1[id].node == Node::Split(replace_child(sp, f, s)));
                if sp.first == f {
                    assert(sp1.first == s && sp1.second == sp.second);
                } else {
                    assert(sp.second == f);
                    assert(sp1.first == sp.first && sp1.second == s);
                }
            } else {
                assert(m1[id] == m0[id]);
                assert(sp.first != f);
                assert(sp.second != f);
            }
        },
    }
}

/// After a split, the tree's frames are the old ones with the new frame
/// right after the split frame.
pub proof fn lemma_split_frames(
    m0: Map<NodeId, NodeEntry>,
    m1: Map<NodeId, NodeEntry>,
    root: NodeId,
    f: NodeId,
    rank: Map<NodeId, nat>,
    dir: SplitDirection,
    n: NodeId,
    s: NodeId,
)
    requires
        tree_wf(m0, root, f, rank),
        split_entries_ok(m0, m1, f, dir, n, s),
    ensures
        frames_under(m1, split_ranks(m1, rank, f, n, s), if m0[f].parent is None { s } else { root })
            == insert_after(frames_under(m0, rank, root), f, n),
{
    let p = m0[f].parent;
    let root1 = if p is None { s } else { root };
    let rank1 = split_ranks(m1, rank, f, n, s);
    lemma_split_wf(m0, m1, root, f, rank, dir, n, s);
    assert(node_links_ok(m0, rank, root, f));
    if p is None {
        assert(f == root);
        assert(node_links_ok(m1, rank1, root1, s));
        lemma_frame_seq_fuel(m1, root1, rank1, f, rank1[s]);
        lemma_frame_seq_fuel(m1, root1, rank1, n, rank1[s]);
        assert(frames_under(m1, rank1, s) == seq![f] + seq![n]);
        assert(frames_under(m0, rank, f) == seq![f]);
        lemma_insert_after_single(f, f, n);
        assert(seq![f] + seq![n] =~= seq![f, n]);
    } else {
        assert(f != root);
        lemma_split_frames_under(m0, m1, root, f, rank, dir, n, s, root);
    }
}

// ---------------------------------------------------------------------------
// Removing empty frames
// ---------------------------------------------------------------------------

/// `s` without the key `e`.
pub open spec fn without(s: Seq<NodeId>, e: NodeId) -> Seq<NodeId> {
    s.filter(|x: NodeId| x != e)
}

/// Leaving out an element other than the first keeps the first.
pub proof fn lemma_filter_keeps_head(s: Seq<NodeId>, e: NodeId)
    requires
        s.len() > 0,
        s[0] != e,
    ensures
        without(s, e).len() > 0,
        without(s, e)[0] == s[0],
    decreases s.len(),
{
    reveal(Seq::filter);
    if s.len() > 1 {
        lemma_filter_keeps_head(s.drop_last(), e);
        assert(s.drop_last()[0] == s[0]);
    } else {
        assert(s.drop_last() =~= Seq::<NodeId>::empty());
        assert(s.drop_last().filter(|x: NodeId| x != e) =~= Seq::<NodeId>::empty());
    }
}

/// The elements of `s` that `m` holds.
pub open spec fn kept_in(s: Seq<NodeId>, m: Map<NodeId, NodeEntry>) -> Seq<NodeId> {
    s.filter(|x: NodeId| m.contains_key(x))
}

/// The child of split `sp` other than `c`.
pub open spec fn other_child(sp: Split, c: NodeId) -> NodeId {
    if sp.first == c { sp.second } else { sp.first }
}

/// Node `k` of `m` is a frame holding no window.
pub open spec fn empty_frame(m: Map<NodeId, NodeEntry>, k: NodeId) -> bool {
    is_frame(m, k) && frame_of(m, k).windows@.len() == 0
}

/// The first key of `order` naming an empty frame other than `root`.
pub open spec fn first_empty(m: Map<NodeId, NodeEntry>, order: Seq<NodeId>, root: NodeId) -> Option<NodeId>
    decreases order.len(),
{
    if order.len() == 0 {
        None
    } else if empty_frame(m, order[0]) && order[0] != root {
        Some(order[0])
    } else {
        first_empty(m, order.drop_first(), root)
    }
}

pub proof fn lemma_first_empty_skip(m: Map<NodeId, NodeEntry>, order: Seq<NodeId>, root: NodeId, i: int)
    requires
        0 <= i <= order.len(),
        forall|j: int| 0 <= j < i ==> !(empty_frame(m, #[trigger] order[j]) && order[j] != root),
    ensures
        first_empty(m, order, root) == first_empty(m, order.subrange(i, order.len() as int), root),
    decreases i,
{
    if i > 0 {
        let rest = order.drop_first();
        assert forall|j: int| 0 <= j < i - 1 implies !(empty_frame(m, #[trigger] rest[j]) && rest[j] != root) by {
            assert(rest[j] == order[j + 1]);
        }
        lemma_first_empty_skip(m, rest, root, i - 1);
        assert(rest.subrange(i - 1, rest.len() as int) =~= order.subrange(i, order.len() as int));
    } else {
        assert(order.subrange(0, order.len() as int) =~= order);
    }
}

/// When the search finds nothing, no key of `order` names an empty frame
/// other than `root`.
pub proof fn lemma_first_empty_none(m: Map<NodeId, NodeEntry>, order: Seq<NodeId>, root: NodeId)
    requires
        first_empty(m, order, root) is None,
    ensures
        forall|j: int| 0 <= j < order.len() ==> !(empty_frame(m, #[trigger] order[j]) && order[j] != root),
    decreases order.len(),
{
    if order.len() > 0 {
        lemma_first_empty_none(m, order.drop_first(), root);
        assert forall|j: int| 0 <= j < order.len() implies !(empty_frame(m, #[trigger] order[j]) && order[j] != root) by {
            if j > 0 {
                assert(order[j] == order.drop_first()[j - 1]);
            }
        }
    }
}

/// What the search for an empty frame finds is an empty frame other than
/// `root`.
pub proof fn lemma_first_empty_found(m: Map<NodeId, NodeEntry>, order: Seq<NodeId>, root: NodeId)
    ensures
        first_empty(m, order, root) matches Some(k) ==> empty_frame(m, k) && k != root,
    decreases order.len(),
{
    if order.len() > 0 {
        lemma_first_empty_found(m, order.drop_first(), root);
    }
}

/// The entries after removing empty frame `e` of `m0`: its parent split goes
/// too, and the other child of that split takes the split's place.
pub open spec fn collapse_entries_ok(m0: Map<NodeId, NodeEntry>, m1: Map<NodeId, NodeEntry>, e: NodeId) -> bool {
    let p = m0[e].parent->0;
    let sib = other_child(m0[p].node->Split_0, e);
    let gp = m0[p].parent;
    &&& m1.dom() == m0.dom().remove(e).remove(p)
    &&& m1[sib] == NodeEntry { node: m0[sib].node, parent: gp }
    &&& gp matches Some(g) ==> m1[g] == NodeEntry {
        node: Node::Split(replace_child(m0[g].node->Split_0, p, sib)),
        parent: m0[g].parent,
    }
    &&& forall|k: NodeId| #[trigger] m1.contains_key(k) && k != sib && Some(k) != gp ==> m1[k] == m0[k]
}

/// The root after removing frame `e`: the sibling of `e` when their parent
/// was the root.
pub open spec fn collapse_root(m0: Map<NodeId, NodeEntry>, root: NodeId, e: NodeId) -> NodeId {
    let p = m0[e].parent->0;
    if m0[p].parent is None {
        other_child(m0[p].node->Split_0, e)
    } else {
        root
    }
}

pub proof fn lemma_collapse_shape_wf(
    m0: Map<NodeId, NodeEntry>,
    m1: Map<NodeId, NodeEntry>,
    root: NodeId,
    rank: Map<NodeId, nat>,
    e: NodeId,
)
    requires
        tree_shape_wf(m0, root, rank),
        is_frame(m0, e),
        e != root,
        collapse_entries_ok(m0, m1, e),
    ensures
        tree_shape_wf(m1, collapse_root(m0, root, e), rank),
{
    let p = m0[e].parent->0;
    let sp = m0[p].node->Split_0;
    let sib = other_child(sp, e);
    let gp = m0[p].parent;
    let root1 = collapse_root(m0, root, e);
    assert(node_links_ok(m0, rank, root, e));
    assert(node_links_ok(m0, rank, root, p));
    assert(node_links_ok(m0, rank, root, sib));
    assert(gp is None <==> p == root);
    if let Some(g) = gp {
        assert(node_links_ok(m0, rank, root, g));
    }
    assert(m1.contains_key(sib));
    assert(m1.dom().finite());
    assert forall|k: NodeId| #[trigger] m1.contains_key(k) implies node_links_ok(m1, rank, root1, k) by {
        assert(m0.contains_key(k));
        assert(node_links_ok(m0, rank, root, k));
        if k == sib {
            match m0[sib].node {
                Node::Split(ss) => {
                    assert(node_links_ok(m0, rank, root, ss.first));
                    assert(node_links_ok(m0, rank, root, ss.second));
                    assert(ss.first != p && ss.second != p);
                    if let Some(g) = gp {
                        assert(ss.first != g && ss.second != g);
                    }
                    assert(m1[ss.first] == m0[ss.first]);
                    assert(m1[ss.second] == m0[ss.second]);
                },
                Node::Frame(_) => {},
            }
        } else if Some(k) == gp {
            let gs = m0[k].node->Split_0;
            let c2 = other_child(gs, p);
            assert(node_links_ok(m0, rank, root, c2));
            assert(m1[c2] == m0[c2]);
            if k != root {
                let q = m0[k].parent->0;
                assert(node_links_ok(m0, rank, root, q));
                assert(q != sib);
                assert(m1[q] == m0[q]);
            }
        } else {
            match m0[k].node {
                Node::Split(ks) => {
                    assert(ks.first != e && ks.second != e);
                    assert(ks.first != p && ks.second != p);
                    assert(node_links_ok(m0, rank, root, ks.first));
                    assert(node_links_ok(m0, rank, root, ks.second));
                    if Some(ks.first) != gp && ks.first != sib {
                        assert(m1[ks.first] == m0[ks.first]);
                    }
                    if Some(ks.second) != gp && ks.second != sib {
                        assert(m1[ks.second] == m0[ks.second]);
                    }
                },
                Node::Frame(_) => {},
            }
            if k != root1 {
                assert(k != root);
                let q = m0[k].parent->0;
                assert(node_links_ok(m0, rank, root, q));
                assert(q != p);
                if q != sib && Some(q) != gp {
                    assert(m1[q] == m0[q]);
                }
            }
        }
    }
}

pub proof fn lemma_without_other(id: NodeId, e: NodeId)
    requires
        id != e,
    ensures
        without(seq![id], e) == seq![id],
{
    reveal_with_fuel(Seq::filter, 2);
    assert(seq![id].drop_last() =~= Seq::<NodeId>::empty());
    assert(without(seq![id], e) =~= seq![id]);
}

pub proof fn lemma_without_self(e: NodeId)
    ensures
        without(seq![e], e) == Seq::<NodeId>::empty(),
{
    reveal_with_fuel(Seq::filter, 2);
    assert(seq![e].drop_last() =~= Seq::<NodeId>::empty());
    assert(without(seq![e], e) =~= Seq::<NodeId>::empty());
}

pub proof fn lemma_without_concat(a: Seq<NodeId>, b: Seq<NodeId>, e: NodeId)
    ensures
        without(a + b, e) == without(a, e) + without(b, e),
{
    Seq::filter_distributes_over_add(a, b, |x: NodeId| x != e);
}

/// Without `e`, the frames under `e`'s parent are those under its sibling.
pub proof fn lemma_parent_frames_without(m0: Map<NodeId, NodeEntry>, root: NodeId, rank: Map<NodeId, nat>, e: NodeId)
    requires
        tree_shape_wf(m0, root, rank),
        is_frame(m0, e),
        e != root,
    ensures
        without(frames_under(m0, rank, m0[e].parent->0), e) == without(
            frames_under(m0, rank, other_child(m0[m0[e].parent->0].node->Split_0, e)),
            e,
        ),
{
    let p = m0[e].parent->0;
    let sp = m0[p].node->Split_0;
    let sib = other_child(sp, e);
    assert(node_links_ok(m0, rank, root, e));
    assert(node_links_ok(m0, rank, root, p));
    lemma_frame_seq_fuel(m0, root, rank, e, rank[p]);
    lemma_frame_seq_fuel(m0, root, rank, sib, rank[p]);
    let fe = frames_under(m0, rank, e);
    let fs = frames_under(m0, rank, sib);
    assert(fe == seq![e]);
    lemma_without_self(e);
    lemma_without_concat(fe, fs, e);
    lemma_without_concat(fs, fe, e);
    assert(Seq::<NodeId>::empty() + without(fs, e) =~= without(fs, e));
    assert(without(fs, e) + Seq::<NodeId>::empty() =~= without(fs, e));
    if sp.first == e {
        assert(frames_under(m0, rank, p) == fe + fs);
    } else {
        assert(frames_under(m0, rank, p) == fs + fe);
    }
}

/// Removing frame `e` takes it out of the frames under every remaining node.
#[verifier::rlimit(100)]
#[verifier::spinoff_prover]
pub proof fn lemma_collapse_frames_under(
    m0: Map<NodeId, NodeEntry>,
    m1: Map<NodeId, NodeEntry>,
    root: NodeId,
    rank: Map<NodeId, nat>,
    e: NodeId,
    id: NodeId,
)
    requires
        tree_shape_wf(m0, root, rank),
        is_frame(m0, e),
        e != root,
        collapse_entries_ok(m0, m1, e),
        m1.contains_key(id),
    ensures
        frames_under(m1, rank, id) == without(frames_under(m0, rank, id), e),
    decreases rank[id],
{
    let p = m0[e].parent->0;
    let sp = m0[p].node->Split_0;
    let sib = other_child(sp, e);
    let gp = m0[p].parent;
    let root1 = collapse_root(m0, root, e);
    lemma_collapse_shape_wf(m0, m1, root, rank, e);
    assert(node_links_ok(m0, rank, root, e));
    assert(node_links_ok(m0, rank, root, id));
    assert(m0.contains_key(id));
    if m0[id].node is Frame {
        assert(m1[id].node == m0[id].node);
        lemma_without_other(id, e);
    } else {
        let ks = m0[id].node->Split_0;
        assert(node_links_ok(m1, rank, root1, id));
        let ks1 = m1[id].node->Split_0;
        assert(m1[id].node is Split);
        assert(frames_under(m1, rank, id) == frames_under(m1, rank, ks1.first) + frames_under(m1, rank, ks1.second))
            by {
            lemma_frame_seq_fuel(m1, root1, rank, ks1.first, rank[id]);
            lemma_frame_seq_fuel(m1, root1, rank, ks1.second, rank[id]);
        }
        assert(frames_under(m0, rank, id) == frames_under(m0, rank, ks.first) + frames_under(m0, rank, ks.second))
            by {
            lemma_frame_seq_fuel(m0, root, rank, ks.first, rank[id]);
            lemma_frame_seq_fuel(m0, root, rank, ks.second, rank[id]);
        }
        lemma_without_concat(frames_under(m0, rank, ks.first), frames_under(m0, rank, ks.second), e);
        assert forall|c: NodeId| c == ks.first || c == ks.second implies frames_under(
            m1,
            rank,
            if c == p { sib } else { c },
        ) == without(frames_under(m0, rank, c), e) by {
            assert(node_links_ok(m0, rank, root, c));
            if c == p {
                assert(node_links_ok(m0, rank, root, p));
                assert(m1.contains_key(sib));
                lemma_collapse_frames_under(m0, m1, root, rank, e, sib);
                lemma_parent_frames_without(m0, root, rank, e);
                lemma_filter_idempotent(frames_under(m0, rank, sib), e);
            } else {
                assert(c != e);
                assert(m1.contains_key(c));
                lemma_collapse_frames_under(m0, m1, root, rank, e, c);
            }
        }
        if Some(id) == gp {
            assert(m1[id].node == Node::Split(replace_child(ks, p, sib)));
        } else {
            assert(ks.first != p && ks.second != p);
            if id == sib {
                assert(m1[id].node == m0[id].node);
            } else {
                assert(m1[id] == m0[id]);
            }
        }
    }
}

pub proof fn lemma_filter_idempotent(s: Seq<NodeId>, e: NodeId)
    ensures
        without(without(s, e), e) == without(s, e),
    decreases s.len(),
{
    reveal(Seq::filter);
    if s.len() > 0 {
        lemma_filter_idempotent(s.drop_last(), e);
        let w = without(s.drop_last(), e);
        if s.last() != e {
            assert(without(s, e) == w.push(s.last()));
            assert(without(s, e).drop_last() =~= w);
            assert(without(s, e).last() == s.last());
        } else {
            assert(without(s, e) == w);
        }
    }
}

/// Under a well-formed tree, every node has at least one frame under it.
pub proof fn lemma_frames_under_nonempty(m: Map<NodeId, NodeEntry>, root: NodeId, rank: Map<NodeId, nat>, id: NodeId)
    requires
        tree_shape_wf(m, root, rank),
        m.contains_key(id),
    ensures
        frames_under(m, rank, id).len() > 0,
    decreases rank[id],
{
    assert(node_links_ok(m, rank, root, id));
    match m[id].node {
        Node::Split(s) => {
            assert(node_links_ok(m, rank, root, s.first));
            lemma_frames_under_nonempty(m, root, rank, s.first);
            lemma_frame_seq_fuel(m, root, rank, s.first, rank[id]);
        },
        Node::Frame(_) => {},
    }
}

/// What removing empty frame `e` keeps: remaining nodes were there before,
/// with the same kind, and frames with the same contents; every frame but
/// `e` remains.
pub proof fn lemma_collapse_keeps(
    cur: Map<NodeId, NodeEntry>,
    next: Map<NodeId, NodeEntry>,
    rank: Map<NodeId, nat>,
    root: NodeId,
    e: NodeId,
)
    requires
        tree_shape_wf(cur, root, rank),
        is_frame(cur, e),
        e != root,
        collapse_entries_ok(cur, next, e),
    ensures
        forall|k: NodeId| #[trigger] next.contains_key(k) ==> cur.contains_key(k),
        forall|k: NodeId| #[trigger] next.contains_key(k) ==> (next[k].node is Frame <==> cur[k].node is Frame),
        forall|k: NodeId| #[trigger] is_frame(next, k) ==> next[k].node == cur[k].node,
        forall|k: NodeId| #[trigger] is_frame(cur, k) && k != e ==> next.contains_key(k),
{
    let p = cur[e].parent->0;
    assert(node_links_ok(cur, rank, root, e));
    assert(node_links_ok(cur, rank, root, p));
    let gp = cur[p].parent;
    assert forall|k: NodeId| #[trigger] next.contains_key(k) implies (next[k].node is Frame <==> cur[k].node is Frame)
        && (next[k].node is Frame ==> next[k].node == cur[k].node) by {
        if let Some(g) = gp {
            if k == g {
                assert(node_links_ok(cur, rank, root, g));
            }
        }
    }
}

/// Keeping the elements still held after `e` and `p` leave, where `p` is
/// not an element, is dropping `e` from what was kept before.
pub proof fn lemma_kept_step(
    f: Seq<NodeId>,
    cur: Map<NodeId, NodeEntry>,
    next: Map<NodeId, NodeEntry>,
    e: NodeId,
    p: NodeId,
)
    requires
        next.dom() == cur.dom().remove(e).remove(p),
        !f.contains(p),
    ensures
        kept_in(f, next) == without(kept_in(f, cur), e),
    decreases f.len(),
{
    reveal(Seq::filter);
    if f.len() > 0 {
        let g = f.drop_last();
        assert(!g.contains(p)) by {
            if g.contains(p) {
                let i = choose|i: int| 0 <= i < g.len() && g[i] == p;
                assert(f[i] == p);
            }
        }
        assert(f.last() != p) by {
            assert(f[f.len() - 1] == f.last());
        }
        lemma_kept_step(g, cur, next, e, p);
        let x = f.last();
        let kc = kept_in(g, cur);
        if cur.contains_key(x) {
            assert(kept_in(f, cur) == kc.push(x));
            if x != e {
                assert(without(kc.push(x), e) == without(kc, e).push(x)) by {
                    assert(kc.push(x).drop_last() =~= kc);
                    assert(kc.push(x).last() == x);
                }
            } else {
                assert(without(kc.push(x), e) == without(kc, e)) by {
                    assert(kc.push(x).drop_last() =~= kc);
                    assert(kc.push(x).last() == x);
                }
            }
        } else {
            assert(kept_in(f, cur) == kc);
        }
    }
}

/// Keeping the elements a map holds keeps all of them when it holds them all.
pub proof fn lemma_kept_all(f: Seq<NodeId>, m: Map<NodeId, NodeEntry>)
    requires
        forall|i: int| 0 <= i < f.len() ==> m.contains_key(#[trigger] f[i]),
    ensures
        kept_in(f, m) == f,
    decreases f.len(),
{
    reveal(Seq::filter);
    if f.len() > 0 {
        let g = f.drop_last();
        assert forall|i: int| 0 <= i < g.len() implies m.contains_key(#[trigger] g[i]) by {
            assert(g[i] == f[i]);
        }
        lemma_kept_all(g, m);
        assert(m.contains_key(f[f.len() - 1]));
        assert(g.push(f.last()) =~= f);
    }
}

/// Whether `v` holds `w`.
fn holds_window(v: &Vec<Window>, w: Window) -> (r: bool)
    ensures
        r == v@.contains(w),
{
    let mut i: usize = 0;
    while i < v.len()
        invariant
            i <= v@.len(),
            forall|j: int| 0 <= j < i ==> v@[j] != w,
        decreases v@.len() - i,
    {
        if v[i] == w {
            return true;
        }
        i = i + 1;
    }
    false
}

// ---------------------------------------------------------------------------
// Geometry
// ---------------------------------------------------------------------------

/// `a - b`, or zero when `b` is larger.
pub open spec fn sat_sub(a: int, b: int) -> int {
    if a > b { a - b } else { 0 }
}

/// Length given to the first child of a split of `total` pixels.
pub open spec fn first_len(total: u32, ratio: u32, gap: u32) -> int {
    sat_sub((total as int * ratio as int) / RATIO_ONE as int, gap as int / 2)
}

/// Length given to the second child of a split of `total` pixels.
pub open spec fn second_len(total: u32, ratio: u32, gap: u32) -> int {
    sat_sub(total as int, first_len(total, ratio, gap) + gap)
}

/// Splitting `r` does not overflow: the lengths and the second child's
/// position fit their integer types.
pub open spec fn split_ok(r: Rect, dir: SplitDirection, ratio: u32, gap: u32) -> bool {
    let total = match dir {
        SplitDirection::Horizontal => r.width,
        SplitDirection::Vertical => r.height,
    };
    let pos = match dir {
        SplitDirection::Horizontal => r.x,
        SplitDirection::Vertical => r.y,
    };
    let first = first_len(total, ratio, gap);
    &&& ratio <= RATIO_ONE
    &&& first + gap <= u32::MAX
    &&& i32::MIN <= pos + (first as u32 as i32) <= i32::MAX
    &&& i32::MIN <= pos + (first as u32 as i32) + (gap as i32) <= i32::MAX
}

/// The two rectangles a split divides `r` into.
pub open spec fn split_rect_spec(r: Rect, dir: SplitDirection, ratio: u32, gap: u32) -> (Rect, Rect) {
    match dir {
        SplitDirection::Horizontal => {
            let first = first_len(r.width, ratio, gap);
            (
                Rect { x: r.x, y: r.y, width: first as u32, height: r.height },
                Rect {
                    x: (r.x + (first as u32 as i32) + (gap as i32)) as i32,
                    y: r.y,
                    width: second_len(r.width, ratio, gap) as u32,
                    height: r.height,
                },
            )
        },
        SplitDirection::Vertical => {
            let first = first_len(r.height, ratio, gap);
            (
                Rect { x: r.x, y: r.y, width: r.width, height: first as u32 },
                Rect {
                    x: r.x,
                    y: (r.y + (first as u32 as i32) + (gap as i32)) as i32,
                    width: r.width,
                    height: second_len(r.height, ratio, gap) as u32,
                },
            )
        },
    }
}

/// Every split under `id` can divide the space it gets without overflow.
pub open spec fn geometry_ok(m: Map<NodeId, NodeEntry>, id: NodeId, r: Rect, gap: u32, fuel: nat) -> bool
    decreases fuel,
{
    if fuel == 0 || !m.contains_key(id) {
        true
    } else {
        match m[id].node {
            Node::Frame(_) => true,
            Node::Split(s) => {
                let (a, b) = split_rect_spec(r, s.direction, s.ratio, gap);
                &&& split_ok(r, s.direction, s.ratio, gap)
                &&& geometry_ok(m, s.first, a, gap, (fuel - 1) as nat)
                &&& geometry_ok(m, s.second, b, gap, (fuel - 1) as nat)
            },
        }
    }
}

/// The frames under `id`, left to right, each with the rectangle it gets
/// when `id` gets `r`.
pub open spec fn geometry_seq(m: Map<NodeId, NodeEntry>, id: NodeId, r: Rect, gap: u32, fuel: nat) -> Seq<(NodeId, Rect)>
    decreases fuel,
{
    if fuel == 0 || !m.contains_key(id) {
        Seq::empty()
    } else {
        match m[id].node {
            Node::Frame(_) => seq![(id, r)],
            Node::Split(s) => {
                let (a, b) = split_rect_spec(r, s.direction, s.ratio, gap);
                geometry_seq(m, s.first, a, gap, (fuel - 1) as nat) + geometry_seq(
                    m,
                    s.second,
                    b,
                    gap,
                    (fuel - 1) as nat,
                )
            },
        }
    }
}

/// With enough fuel, geometry no longer depends on the fuel.
pub proof fn lemma_geometry_fuel(
    m: Map<NodeId, NodeEntry>,
    root: NodeId,
    rank: Map<NodeId, nat>,
    id: NodeId,
    r: Rect,
    gap: u32,
    fuel: nat,
)
    requires
        tree_shape_wf(m, root, rank),
        m.contains_key(id),
        fuel > rank[id],
    ensures
        geometry_seq(m, id, r, gap, fuel) == geometry_seq(m, id, r, gap, rank[id] + 1),
        geometry_ok(m, id, r, gap, fuel) == geometry_ok(m, id, r, gap, rank[id] + 1),
    decreases rank[id],
{
    assert(node_links_ok(m, rank, root, id));
    match m[id].node {
        Node::Frame(_) => {},
        Node::Split(s) => {
            let (a, b) = split_rect_spec(r, s.direction, s.ratio, gap);
            assert(node_links_ok(m, rank, root, s.first));
            assert(node_links_ok(m, rank, root, s.second));
            lemma_geometry_fuel(m, root, rank, s.first, a, gap, (fuel - 1) as nat);
            lemma_geometry_fuel(m, root, rank, s.first, a, gap, rank[id]);
            lemma_geometry_fuel(m, root, rank, s.second, b, gap, (fuel - 1) as nat);
            lemma_geometry_fuel(m, root, rank, s.second, b, gap, rank[id]);
        },
    }
}

/// What `find_split_at_gap` finds under `id`, when `id` gets `r`: the
/// split whose gap holds the point, looking at a split before its children
/// and at the first child before the second.
pub open spec fn gap_at(
    m: Map<NodeId, NodeEntry>,
    id: NodeId,
    r: Rect,
    gap: u32,
    mx: i32,
    my: i32,
    fuel: nat,
) -> Option<(NodeId, SplitDirection, i32, u32)>
    decreases fuel,
{
    if fuel == 0 || !m.contains_key(id) {
        None
    } else {
        match m[id].node {
            Node::Frame(_) => None,
            Node::Split(s) => {
                let (a, b) = split_rect_spec(r, s.direction, s.ratio, gap);
                if in_gap(r, a, b, s.direction, mx, my) {
                    Some(
                        match s.direction {
                            SplitDirection::Horizontal => (id, s.direction, r.x, r.width),
                            SplitDirection::Vertical => (id, s.direction, r.y, r.height),
                        },
                    )
                } else {
                    match gap_at(m, s.first, a, gap, mx, my, (fuel - 1) as nat) {
                        Some(found) => Some(found),
                        None => gap_at(m, s.second, b, gap, mx, my, (fuel - 1) as nat),
                    }
                }
            },
        }
    }
}

/// The point lies in the gap between the two children of a split of `r`.
pub open spec fn in_gap(r: Rect, a: Rect, b: Rect, dir: SplitDirection, mx: i32, my: i32) -> bool {
    match dir {
        SplitDirection::Horizontal => {
            &&& a.x + (a.width as i32) <= mx < b.x
            &&& r.y <= my < r.y + (r.height as i32)
        },
        SplitDirection::Vertical => {
            &&& a.y + (a.height as i32) <= my < b.y
            &&& r.x <= mx < r.x + (r.width as i32)
        },
    }
}

/// The search for a gap under `id` never overflows on the nodes it visits.
pub open spec fn gap_search_ok(
    m: Map<NodeId, NodeEntry>,
    id: NodeId,
    r: Rect,
    gap: u32,
    mx: i32,
    my: i32,
    fuel: nat,
) -> bool
    decreases fuel,
{
    if fuel == 0 || !m.contains_key(id) {
        true
    } else {
        match m[id].node {
            Node::Frame(_) => true,
            Node::Split(s) => {
                let (a, b) = split_rect_spec(r, s.direction, s.ratio, gap);
                &&& split_ok(r, s.direction, s.ratio, gap)
                &&& match s.direction {
                    SplitDirection::Horizontal => i32::MIN <= r.y + (r.height as i32) <= i32::MAX,
                    SplitDirection::Vertical => i32::MIN <= r.x + (r.width as i32) <= i32::MAX,
                }
                &&& !in_gap(r, a, b, s.direction, mx, my) ==> {
                    &&& gap_search_ok(m, s.first, a, gap, mx, my, (fuel - 1) as nat)
                    &&& (gap_at(m, s.first, a, gap, mx, my, (fuel - 1) as nat) is None ==> gap_search_ok(
                        m,
                        s.second,
                        b,
                        gap,
                        mx,
                        my,
                        (fuel - 1) as nat,
                    ))
                }
            },
        }
    }
}

pub proof fn lemma_gap_fuel(
    m: Map<NodeId, NodeEntry>,
    root: NodeId,
    rank: Map<NodeId, nat>,
    id: NodeId,
    r: Rect,
    gap: u32,
    mx: i32,
    my: i32,
    fuel: nat,
)
    requires
        tree_shape_wf(m, root, rank),
        m.contains_key(id),
        fuel > rank[id],
    ensures
        gap_at(m, id, r, gap, mx, my, fuel) == gap_at(m, id, r, gap, mx, my, rank[id] + 1),
        gap_search_ok(m, id, r, gap, mx, my, fuel) == gap_search_ok(m, id, r, gap, mx, my, rank[id] + 1),
    decreases rank[id],
{
    assert(node_links_ok(m, rank, root, id));
    match m[id].node {
        Node::Frame(_) => {},
        Node::Split(s) => {
            let (a, b) = split_rect_spec(r, s.direction, s.ratio, gap);
            assert(node_links_ok(m, rank, root, s.first));
            assert(node_links_ok(m, rank, root, s.second));
            lemma_gap_fuel(m, root, rank, s.first, a, gap, mx, my, (fuel - 1) as nat);
            lemma_gap_fuel(m, root, rank, s.first, a, gap, mx, my, rank[id]);
            lemma_gap_fuel(m, root, rank, s.second, b, gap, mx, my, (fuel - 1) as nat);
            lemma_gap_fuel(m, root, rank, s.second, b, gap, mx, my, rank[id]);
        },
    }
}

/// Divide `rect` between the two children of a split.
fn split_rect(rect: Rect, direction: SplitDirection, ratio: u32, gap: u32) -> (r: (Rect, Rect))
    requires
        split_ok(rect, direction, ratio, gap),
    ensures
        r == split_rect_spec(rect, direction, ratio, gap),
{
    match direction {
        SplitDirection::Horizontal => {
            let scaled = (rect.width as u64 * ratio as u64 / RATIO_ONE as u64) as u32;
            let first_width = scaled.saturating_sub(gap / 2);
            let second_width = rect.width.saturating_sub(first_width + gap);
            let first = Rect { x: rect.x, y: rect.y, width: first_width, height: rect.height };
            let second = Rect {
                x: rect.x + first_width as i32 + gap as i32,
                y: rect.y,
                width: second_width,
                height: rect.height,
            };
            (first, second)
        },
        SplitDirection::Vertical => {
            let scaled = (rect.height as u64 * ratio as u64 / RATIO_ONE as u64) as u32;
            let first_height = scaled.saturating_sub(gap / 2);
            let second_height = rect.height.saturating_sub(first_height + gap);
            let first = Rect { x: rect.x, y: rect.y, width: rect.width, height: first_height };
            let second = Rect {
                x: rect.x,
                y: rect.y + first_height as i32 + gap as i32,
                width: rect.width,
                height: second_height,
            };
            (first, second)
        },
    }
}

/// Whether splitting `rect` stays within the integer types, as `split_ok`
/// says.
fn split_fits(rect: Rect, direction: SplitDirection, ratio: u32, gap: u32) -> (r: bool)
    ensures
        r == split_ok(rect, direction, ratio, gap),
{
    if ratio > RATIO_ONE {
        return false;
    }
    let (total, pos) = match direction {
        SplitDirection::Horizontal => (rect.width, rect.x),
        SplitDirection::Vertical => (rect.height, rect.y),
    };
    assert(total as int * ratio as int <= total as int * RATIO_ONE as int) by (nonlinear_arith)
        requires
            ratio <= RATIO_ONE,
    ;
    let scaled: u64 = total as u64 * ratio as u64 / RATIO_ONE as u64;
    let half: u64 = (gap / 2) as u64;
    let first: u64 = if scaled > half { scaled - half } else { 0 };
    assert(first == first_len(total, ratio, gap));
    if first + gap as u64 > u32::MAX as u64 {
        return false;
    }
    let first_pos: i64 = pos as i64 + (first as u32 as i32) as i64;
    if first_pos < i32::MIN as i64 || first_pos > i32::MAX as i64 {
        return false;
    }
    let second_pos: i64 = first_pos + (gap as i32) as i64;
    second_pos >= i32::MIN as i64 && second_pos <= i32::MAX as i64
}

// ---------------------------------------------------------------------------
// Spatial navigation
// ---------------------------------------------------------------------------

/// A point whose centre is at (`cx`, `cy`) lies in `dir` from (`fx`, `fy`).
pub open spec fn lies_toward(dir: Direction, fx: int, fy: int, cx: int, cy: int) -> bool {
    match dir {
        Direction::Left => cx < fx,
        Direction::Right => cx > fx,
        Direction::Up => cy < fy,
        Direction::Down => cy > fy,
    }
}

pub open spec fn abs_int(v: int) -> int {
    if v < 0 { -v } else { v }
}

/// Distance along `dir`, plus half the distance across it.
pub open spec fn weighted_distance(dir: Direction, fx: int, fy: int, cx: int, cy: int) -> int {
    match dir {
        Direction::Left | Direction::Right => abs_int(fx - cx) + abs_int(fy - cy) / 2,
        Direction::Up | Direction::Down => abs_int(fy - cy) + abs_int(fx - cx) / 2,
    }
}

/// The closest candidate in `dir`, other than `skip`, with its distance;
/// the earliest one wins a tie.
pub open spec fn closest_toward(
    cands: Seq<(NodeId, Rect)>,
    skip: NodeId,
    dir: Direction,
    fx: int,
    fy: int,
) -> Option<(NodeId, int)>
    decreases cands.len(),
{
    if cands.len() == 0 {
        None
    } else {
        let best = closest_toward(cands.drop_last(), skip, dir, fx, fy);
        let (id, r) = cands.last();
        let cx = r.spec_center_x();
        let cy = r.spec_center_y();
        let d = weighted_distance(dir, fx, fy, cx, cy);
        if id != skip && lies_toward(dir, fx, fy, cx, cy) && (best is None || d < (best->0).1) {
            Some((id, d))
        } else {
            best
        }
    }
}

/// Searching `cands` overflows no `i32`.
pub open spec fn closest_fits(cands: Seq<(NodeId, Rect)>, skip: NodeId, dir: Direction, fx: int, fy: int) -> bool {
    forall|i: int|
        0 <= i < cands.len() && #[trigger] cands[i].0 != skip ==> {
            let r = cands[i].1;
            let cx = r.spec_center_x();
            let cy = r.spec_center_y();
            &&& r.center_fits()
            &&& lies_toward(dir, fx, fy, cx, cy) ==> {
                &&& i32::MIN < fx - cx <= i32::MAX
                &&& i32::MIN < fy - cy <= i32::MAX
                &&& weighted_distance(dir, fx, fy, cx, cy) <= i32::MAX
            }
        }
}

/// The rectangle of the first entry for `id`.
pub open spec fn rect_of(cands: Seq<(NodeId, Rect)>, id: NodeId) -> Option<Rect>
    decreases cands.len(),
{
    if cands.len() == 0 {
        None
    } else if cands[0].0 == id {
        Some(cands[0].1)
    } else {
        rect_of(cands.drop_first(), id)
    }
}

/// Find the closest entry of `cands` in `direction` from the point (`fx`,
/// `fy`), skipping the entries for `skip`.
pub fn closest_in_direction(
    direction: Direction,
    skip: NodeId,
    fx: i32,
    fy: i32,
    cands: &[(NodeId, Rect)],
) -> (r: Option<NodeId>)
    requires
        closest_fits(cands@, skip, direction, fx as int, fy as int),
    ensures
        r == (match closest_toward(cands@, skip, direction, fx as int, fy as int) {
            Some(best) => Some(best.0),
            None => None,
        }),
{
    let mut best: Option<(NodeId, i32)> = None;
    let mut i: usize = 0;
    while i < cands.len()
        invariant
            i <= cands@.len(),
            closest_fits(cands@, skip, direction, fx as int, fy as int),
            ({
                let b = closest_toward(cands@.take(i as int), skip, direction, fx as int, fy as int);
                match best {
                    Some(bb) => b == Some((bb.0, bb.1 as int)),
                    None => b is None,
                }
            }),
        decreases cands@.len() - i,
    {
        let (frame_id, rect) = cands[i];
        proof {
            assert(cands@.take(i + 1).drop_last() =~= cands@.take(i as int));
            assert(cands@.take(i + 1).last() == cands@[i as int]);
        }
        if frame_id != skip {
            let cx = rect.center_x();
            let cy = rect.center_y();
            let in_direction = match direction {
                Direction::Left => cx < fx,
                Direction::Right => cx > fx,
                Direction::Up => cy < fy,
                Direction::Down => cy > fy,
            };
            if in_direction {
                let dx = fx - cx;
                let dy = fy - cy;
                let adx = if dx < 0 { -dx } else { dx };
                let ady = if dy < 0 { -dy } else { dy };
                let (primary, secondary) = match direction {
                    Direction::Left | Direction::Right => (adx, ady),
                    Direction::Up | Direction::Down => (ady, adx),
                };
                let distance = primary + secondary / 2;
                let better = match best {
                    None => true,
                    Some((_, d)) => distance < d,
                };
                if better {
                    best = Some((frame_id, distance));
                }
            }
        }
        i = i + 1;
    }
    proof {
        assert(cands@.take(i as int) =~= cands@);
    }
    match best {
        Some((id, _)) => Some(id),
        None => None,
    }
}

/// The closest candidate is one of the candidates.
pub proof fn lemma_closest_is_candidate(cands: Seq<(NodeId, Rect)>, skip: NodeId, dir: Direction, fx: int, fy: int)
    ensures
        closest_toward(cands, skip, dir, fx, fy) matches Some(best) ==> exists|i: int|
            0 <= i < cands.len() && #[trigger] cands[i].0 == best.0,
    decreases cands.len(),
{
    if cands.len() > 0 {
        lemma_closest_is_candidate(cands.drop_last(), skip, dir, fx, fy);
        let best = closest_toward(cands.drop_last(), skip, dir, fx, fy);
        if let Some(b) = best {
            let i = choose|i: int| 0 <= i < cands.drop_last().len() && #[trigger] cands.drop_last()[i].0 == b.0;
            assert(cands[i].0 == b.0);
        }
        assert(cands[cands.len() - 1] == cands.last());
    }
}

/// Find the rectangle of the first entry for `id`.
fn find_rect(cands: &[(NodeId, Rect)], id: NodeId) -> (r: Option<Rect>)
    ensures
        r == rect_of(cands@, id),
{
    let mut i: usize = 0;
    proof {
        assert(cands@.subrange(0, cands@.len() as int) =~= cands@);
    }
    while i < cands.len()
        invariant
            i <= cands@.len(),
            rect_of(cands@, id) == rect_of(cands@.subrange(i as int, cands@.len() as int), id),
        decreases cands@.len() - i,
    {
        proof {
            let rest = cands@.subrange(i as int, cands@.len() as int);
            assert(rest.drop_first() =~= cands@.subrange(i + 1, cands@.len() as int));
        }
        if cands[i].0 == id {
            return Some(cands[i].1);
        }
        i = i + 1;
    }
    None
}

/// The layout tree manages the tiling structure
pub struct LayoutTree {
    /// Arena storage for all nodes
    pub nodes: NodeArena,
    /// Root node of the tree
    pub root: NodeId,
    /// Currently focused frame
    pub focused: NodeId,
    /// Height bound of each node, for reasoning about recursion
    pub rank: Ghost<Map<NodeId, nat>>,
}

impl LayoutTree {
    /// The nodes of the tree and their parent links, by id.
    pub open spec fn entries(&self) -> Map<NodeId, NodeEntry> {
        arena_entries(self.nodes)
    }

    /// The order in which the tree's arena walks its nodes.
    pub open spec fn walk_order(&self) -> Seq<NodeId> {
        arena_order(self.nodes)
    }

    pub open spec fn ranks(&self) -> Map<NodeId, nat> {
        self.rank@
    }

    /// The arena walks each of its nodes once.
    pub open spec fn order_ok(&self) -> bool {
        &&& self.walk_order().no_duplicates()
        &&& self.walk_order().to_set() == self.entries().dom()
    }

    /// The nodes form a well-formed binary tree under the root.
    pub open spec fn shape_wf(&self) -> bool {
        tree_shape_wf(self.entries(), self.root, self.ranks())
    }

    /// The tree is a well-formed binary tree whose focus is one of its frames.
    pub open spec fn wf(&self) -> bool {
        tree_wf(self.entries(), self.root, self.focused, self.ranks())
    }

    /// All frames of the tree, left to right.
    pub open spec fn frames(&self) -> Seq<NodeId> {
        frames_under(self.entries(), self.ranks(), self.root)
    }

    /// The frame stored under `k`.
    pub open spec fn frame_at(&self, k: NodeId) -> Frame {
        self.entries()[k].node->Frame_0
    }

    /// The focused frame.
    pub open spec fn spec_focused_frame(&self) -> Frame {
        self.frame_at(self.focused)
    }

    /// Create a new layout tree with a single empty frame
    pub fn new() -> (t: Self)
        ensures
            t.wf(),
            t.entries().dom() == set![t.root],
            t.entries()[t.root].parent is None,
            t.entries()[t.root].node is Frame,
            t.spec_focused_frame().windows@ == Seq::<Window>::empty(),
            t.spec_focused_frame().focused == 0,
            t.focused == t.root,
            t.frames() == seq![t.root],
            t.order_ok(),
    {
        let mut nodes = arena_new();
        let root = arena_insert(&mut nodes, NodeEntry { node: Node::Frame(Frame::new()), parent: None });
        let ghost rank = Map::<NodeId, nat>::empty().insert(root, 0);
        let t = LayoutTree { nodes, root, focused: root, rank: Ghost(rank) };
        assert(arena_entries(nodes).dom() =~= set![root]);
        proof {
            lemma_order_insert(Seq::<NodeId>::empty(), 0, root);
            assert(Seq::<NodeId>::empty().to_set() =~= Set::<NodeId>::empty());
        }
        assert(node_links_ok(t.entries(), rank, root, root));
        assert(frame_seq(t.entries(), root, 1) == seq![root]);
        t
    }

    /// How many nodes, frames and splits, the tree holds.
    pub fn node_count(&self) -> (r: usize)
        ensures
            r == self.entries().dom().len(),
    {
        arena_len(&self.nodes)
    }

    /// Add a window to the focused frame
    pub fn add_window(&mut self, window: Window)
        requires
            old(self).wf(),
        ensures
            final(self).wf(),
            final(self).root == old(self).root,
            final(self).focused == old(self).focused,
            final(self).frames() == old(self).frames(),
            entries_same_except(old(self).entries(), final(self).entries(), old(self).focused),
            final(self).entries()[final(self).focused].node is Frame,
            final(self).spec_focused_frame().windows@ == old(self).spec_focused_frame().windows@.push(window),
            final(self).spec_focused_frame().focused == old(self).spec_focused_frame().windows@.len(),
            final(self).walk_order() == old(self).walk_order(),
    {
        let ghost m0 = self.entries();
        proof {
            assert(node_links_ok(m0, self.rank@, self.root, self.focused));
        }
        let e = arena_get_mut(&mut self.nodes, self.focused);
        match &mut e.node {
            Node::Frame(f) => f.add_window(window),
            Node::Split(_) => {},
        }
        proof {
            let m1 = self.entries();
            assert(m1.dom() =~= m0.dom());
            lemma_one_change_same_shape(m0, m1, self.focused);
            lemma_frame_update(m0, m1, self.root, self.focused, self.rank@, self.focused);
        }
    }

    /// Whether node `k` is a frame holding `w`; reads the arena only.
    fn frame_holds_window(&self, k: NodeId, w: Window) -> (r: bool)
        ensures
            r == frame_holds(self.entries(), k, w),
    {
        match arena_get(&self.nodes, k) {
            Some(e) => match &e.node {
                Node::Frame(f) => holds_window(&f.windows, w),
                Node::Split(_) => false,
            },
            None => false,
        }
    }

    /// Remove `window` from frame `k`, which holds it.
    fn remove_window_from(&mut self, k: NodeId, window: Window)
        requires
            old(self).wf(),
            frame_holds(old(self).entries(), k, window),
        ensures
            final(self).wf(),
            final(self).root == old(self).root,
            final(self).focused == old(self).focused,
            final(self).rank == old(self).rank,
            final(self).frames() == old(self).frames(),
            final(self).walk_order() == old(self).walk_order(),
            entries_same_except(old(self).entries(), final(self).entries(), k),
            final(self).entries()[k].node is Frame,
            final(self).frame_at(k).windows@ == old(self).frame_at(k).windows@.remove_value(window),
            final(self).frame_at(k).focused == focus_after_removal(
                old(self).frame_at(k).focused,
                old(self).frame_at(k).windows@.len() - 1,
            ),
    {
        let ghost m0 = self.entries();
        proof {
            assert(node_links_ok(m0, self.rank@, self.root, k));
        }
        let e = arena_get_mut(&mut self.nodes, k);
        match &mut e.node {
            Node::Frame(f) => {
                proof {
                    lemma_remove_value_len(f.windows@, window);
                }
                f.remove_window(window);
            },
            Node::Split(_) => {},
        }
        proof {
            let m1 = self.entries();
            assert(m1.dom() =~= m0.dom());
            lemma_frame_update(m0, m1, self.root, self.focused, self.rank@, k);
        }
    }

    /// Remove a window from the first frame, in the arena's walking order,
    /// that holds it; that frame is returned.
    pub fn remove_window(&mut self, window: Window) -> (r: Option<NodeId>)
        requires
            old(self).wf(),
        ensures
            final(self).wf(),
            final(self).root == old(self).root,
            final(self).focused == old(self).focused,
            final(self).frames() == old(self).frames(),
            r == first_holding(old(self).entries(), old(self).walk_order(), window),
            r matches Some(k) ==> frame_holds(old(self).entries(), k, window),
            r is None <==> forall|k: NodeId| !frame_holds(old(self).entries(), k, window),
            final(self).walk_order() == old(self).walk_order(),
            old(self).order_ok() && final(self).order_ok(),
            r is None ==> final(self).entries() == old(self).entries(),
            r matches Some(k) ==> {
                &&& entries_same_except(old(self).entries(), final(self).entries(), k)
                &&& final(self).entries()[k].node is Frame
                &&& final(self).frame_at(k).windows@ == old(self).frame_at(k).windows@.remove_value(window)
                &&& final(self).frame_at(k).focused == focus_after_removal(
                    old(self).frame_at(k).focused,
                    old(self).frame_at(k).windows@.len() - 1,
                )
            },
    {
        let ghost m0 = self.entries();
        let keys = arena_keys(&self.nodes);
        let ghost order = keys@;
        let mut i: usize = 0;
        while i < keys.len()
            invariant
                self.wf(),
                self.entries() == m0,
                self.root == old(self).root,
                self.focused == old(self).focused,
                self.rank == old(self).rank,
                self.walk_order() == order,
                keys@ == order,
                m0 == old(self).entries(),
                order == old(self).walk_order(),
                order.to_set() == m0.dom(),
                order.no_duplicates(),
                i <= keys@.len(),
                forall|j: int| 0 <= j < i ==> !frame_holds(m0, #[trigger] order[j], window),
            decreases keys@.len() - i,
        {
            let k = keys[i];
            if self.frame_holds_window(k, window) {
                proof {
                    lemma_first_holding_skip(m0, order, window, i as int);
                    assert(order.subrange(i as int, order.len() as int)[0] == k);
                }
                self.remove_window_from(k, window);
                proof {
                    lemma_first_holding_is_holding(m0, order, window);
                    assert(self.entries().dom() == m0.dom());
                }
                return Some(k);
            }
            i = i + 1;
        }
        proof {
            assert forall|k: NodeId| !frame_holds(m0, k, window) by {
                if frame_holds(m0, k, window) {
                    assert(order.to_set().contains(k));
                    let j = order.index_of(k);
                    assert(order[j] == k);
                }
            }
        }
        proof {
            lemma_first_holding_skip(m0, order, window, i as int);
        }
        None
    }

    /// Find the first frame, in the arena's walking order, that holds a window
    pub fn find_window(&self, window: Window) -> (r: Option<NodeId>)
        ensures
            r == first_holding(self.entries(), self.walk_order(), window),
            r matches Some(k) ==> frame_holds(self.entries(), k, window),
            r is None <==> forall|k: NodeId| !frame_holds(self.entries(), k, window),
            self.order_ok(),
    {
        let keys = arena_keys(&self.nodes);
        let mut i: usize = 0;
        while i < keys.len()
            invariant
                keys@ == self.walk_order(),
                keys@.to_set() == self.entries().dom(),
                keys@.no_duplicates(),
                i <= keys@.len(),
                forall|j: int| 0 <= j < i ==> !frame_holds(self.entries(), #[trigger] keys@[j], window),
            decreases keys@.len() - i,
        {
            let k = keys[i];
            if self.frame_holds_window(k, window) {
                proof {
                    lemma_first_holding_skip(self.entries(), keys@, window, i as int);
                    assert(keys@.subrange(i as int, keys@.len() as int)[0] == k);
                }
                return Some(k);
            }
            i = i + 1;
        }
        proof {
            lemma_first_holding_skip(self.entries(), keys@, window, i as int);
            assert forall|k: NodeId| !frame_holds(self.entries(), k, window) by {
                if frame_holds(self.entries(), k, window) {
                    assert(keys@.to_set().contains(k));
                    let j = keys@.index_of(k);
                    assert(keys@[j] == k);
                }
            }
        }
        None
    }

    /// Get all windows in all frames, frame after frame in the arena's
    /// walking order
    pub fn all_windows(&self) -> (r: Vec<Window>)
        ensures
            r@ == windows_along(self.entries(), self.walk_order()),
            self.order_ok(),
    {
        let keys = arena_keys(&self.nodes);
        let mut windows: Vec<Window> = Vec::new();
        let mut i: usize = 0;
        while i < keys.len()
            invariant
                keys@ == self.walk_order(),
                keys@.to_set() == self.entries().dom(),
                i <= keys@.len(),
                windows@ == windows_along(self.entries(), keys@.take(i as int)),
            decreases keys@.len() - i,
        {
            let k = keys[i];
            proof {
                assert(keys@.take(i + 1).drop_last() =~= keys@.take(i as int));
                assert(keys@.take(i + 1).last() == k);
            }
            match arena_get(&self.nodes, k) {
                Some(e) => match &e.node {
                    Node::Frame(f) => {
                        let ghost before = windows@;
                        let mut j: usize = 0;
                        while j < f.windows.len()
                            invariant
                                j <= f.windows@.len(),
                                windows@ == before + f.windows@.take(j as int),
                            decreases f.windows@.len() - j,
                        {
                            windows.push(f.windows[j]);
                            proof {
                                assert(f.windows@.take(j + 1) =~= f.windows@.take(j as int).push(f.windows@[j as int]));
                            }
                            j = j + 1;
                        }
                        proof {
                            assert(f.windows@.take(j as int) =~= f.windows@);
                            assert(self.entries()[k].node == Node::Frame(*f));
                            assert(windows@ == windows_along(self.entries(), keys@.take(i + 1)));
                        }
                    },
                    Node::Split(_) => {
                        proof {
                            assert(windows@ == windows_along(self.entries(), keys@.take(i + 1)));
                        }
                    },
                },
                None => {
                    proof {
                        assert(keys@[i as int] == k);
                        assert(keys@.contains(k));
                        assert(keys@.to_set().contains(k));
                    }
                },
            }
            i = i + 1;
        }
        proof {
            assert(keys@.take(keys@.len() as int) =~= keys@);
        }
        windows
    }

    /// Get all frame IDs in the tree (in-order traversal)
    pub fn all_frames(&self) -> (r: Vec<NodeId>)
        requires
            self.shape_wf(),
        ensures
            r@ == self.frames(),
    {
        let mut frames = Vec::new();
        proof {
            assert(node_links_ok(self.entries(), self.rank@, self.root, self.root));
        }
        self.collect_frames(self.root, &mut frames);
        proof {
            assert(frames@ =~= self.frames());
        }
        frames
    }

    fn collect_frames(&self, node_id: NodeId, frames: &mut Vec<NodeId>)
        requires
            self.shape_wf(),
            self.entries().contains_key(node_id),
        ensures
            final(frames)@ == old(frames)@ + frames_under(self.entries(), self.rank@, node_id),
        decreases self.rank@[node_id],
    {
        let ghost m = self.entries();
        proof {
            assert(node_links_ok(m, self.rank@, self.root, node_id));
        }
        match arena_get(&self.nodes, node_id) {
            Some(e) => match &e.node {
                Node::Frame(_) => {
                    frames.push(node_id);
                    proof {
                        assert(frames_under(m, self.rank@, node_id) == seq![node_id]);
                    }
                },
                Node::Split(split) => {
                    let first = split.first;
                    let second = split.second;
                    self.collect_frames(first, frames);
                    self.collect_frames(second, frames);
                    proof {
                        let r = self.rank@;
                        lemma_frame_seq_fuel(m, self.root, r, first, r[node_id]);
                        lemma_frame_seq_fuel(m, self.root, r, second, r[node_id]);
                        assert(frames_under(m, r, node_id) == frames_under(m, r, first) + frames_under(m, r, second));
                        assert(final(frames)@ =~= old(frames)@ + frames_under(m, r, node_id));
                    }
                },
            },
            None => {},
        }
    }

    /// Cycle to the next/previous tab in the focused frame
    /// Returns the newly focused window (if any)
    pub fn cycle_tab(&mut self, forward: bool) -> (r: Option<Window>)
        requires
            old(self).wf(),
        ensures
            final(self).wf(),
            final(self).root == old(self).root,
            final(self).focused == old(self).focused,
            final(self).frames() == old(self).frames(),
            entries_same_except(old(self).entries(), final(self).entries(), old(self).focused),
            final(self).entries()[final(self).focused].node is Frame,
            final(self).spec_focused_frame().windows@ == old(self).spec_focused_frame().windows@,
            ({
                let old_frame = old(self).spec_focused_frame();
                let n = old_frame.windows@.len() as int;
                let new_focus = final(self).spec_focused_frame().focused as int;
                &&& n == 0 ==> r is None && new_focus == old_frame.focused
                &&& n > 0 ==> {
                    &&& new_focus == step_index(old_frame.focused as int, n, forward)
                    &&& r == Some(old_frame.windows@[new_focus])
                }
            }),
    {
        let ghost m0 = self.entries();
        proof {
            assert(node_links_ok(m0, self.rank@, self.root, self.focused));
        }
        let e = arena_get_mut(&mut self.nodes, self.focused);
        let r = match &mut e.node {
            Node::Frame(frame) => {
                if frame.windows.len() == 0 {
                    None
                } else {
                    let len = frame.windows.len();
                    frame.focused = if forward {
                        (frame.focused + 1) % len
                    } else {
                        if frame.focused == 0 { len - 1 } else { frame.focused - 1 }
                    };
                    frame.focused_window()
                }
            },
            Node::Split(_) => None,
        };
        proof {
            let m1 = self.entries();
            assert(m1.dom() =~= m0.dom());
            lemma_frame_update(m0, m1, self.root, self.focused, self.rank@, self.focused);
        }
        r
    }

    /// Focus a specific tab by index (0-based) in the focused frame
    /// Returns the newly focused window (if any)
    pub fn focus_tab(&mut self, index: usize) -> (r: Option<Window>)
        requires
            old(self).wf(),
        ensures
            final(self).wf(),
            final(self).root == old(self).root,
            final(self).focused == old(self).focused,
            final(self).frames() == old(self).frames(),
            entries_same_except(old(self).entries(), final(self).entries(), old(self).focused),
            final(self).entries()[final(self).focused].node is Frame,
            final(self).spec_focused_frame().windows@ == old(self).spec_focused_frame().windows@,
            index < old(self).spec_focused_frame().windows@.len() ==> {
                &&& final(self).spec_focused_frame().focused == index
                &&& r == Some(old(self).spec_focused_frame().windows@[index as int])
            },
            index >= old(self).spec_focused_frame().windows@.len() ==> {
                &&& r is None
                &&& final(self).entries() == old(self).entries()
            },
    {
        let ghost m0 = self.entries();
        proof {
            assert(node_links_ok(m0, self.rank@, self.root, self.focused));
        }
        let in_range = match arena_get(&self.nodes, self.focused) {
            Some(e) => match &e.node {
                Node::Frame(frame) => index < frame.windows.len(),
                Node::Split(_) => false,
            },
            None => false,
        };
        if !in_range {
            return None;
        }
        let e = arena_get_mut(&mut self.nodes, self.focused);
        let r = match &mut e.node {
            Node::Frame(frame) => {
                frame.focused = index;
                frame.focused_window()
            },
            Node::Split(_) => None,
        };
        proof {
            let m1 = self.entries();
            assert(m1.dom() =~= m0.dom());
            lemma_frame_update(m0, m1, self.root, self.focused, self.rank@, self.focused);
        }
        r
    }

    /// Get number of tabs in the focused frame
    pub fn tab_count(&self) -> (r: usize)
        requires
            self.wf(),
        ensures
            r == self.spec_focused_frame().windows@.len(),
    {
        match self.focused_frame() {
            Some(f) => f.windows.len(),
            None => 0,
        }
    }

    /// Whether node `k` is a frame; reads the arena only.
    fn is_frame_node(&self, k: NodeId) -> (r: bool)
        ensures
            r == is_frame(self.entries(), k),
    {
        match arena_get(&self.nodes, k) {
            Some(e) => match &e.node {
                Node::Frame(_) => true,
                Node::Split(_) => false,
            },
            None => false,
        }
    }

    /// Reorder a tab within a frame (move from_index to to_index)
    #[verifier::rlimit(30)]
    #[verifier::spinoff_prover]
    pub fn reorder_tab(&mut self, frame_id: NodeId, from_index: usize, to_index: usize) -> (r: bool)
        requires
            old(self).wf(),
        ensures
            final(self).wf(),
            final(self).root == old(self).root,
            final(self).focused == old(self).focused,
            final(self).frames() == old(self).frames(),
            r == (is_frame(old(self).entries(), frame_id)
                && from_index < frame_of(old(self).entries(), frame_id).windows@.len()
                && to_index < frame_of(old(self).entries(), frame_id).windows@.len()
                && from_index != to_index),
            !r ==> final(self).entries() == old(self).entries(),
            r ==> {
                let f = frame_of(old(self).entries(), frame_id);
                &&& entries_same_except(old(self).entries(), final(self).entries(), frame_id)
                &&& frame_now(
                    final(self).entries(),
                    frame_id,
                    f.windows@.remove(from_index as int).insert(to_index as int, f.windows@[from_index as int]),
                    reorder_focus(f.focused, from_index, to_index) as int,
                )
            },
    {
        let ghost m0 = self.entries();
        let ok = match arena_get(&self.nodes, frame_id) {
            Some(e) => match &e.node {
                Node::Frame(frame) => {
                    from_index < frame.windows.len() && to_index < frame.windows.len()
                        && from_index != to_index
                },
                Node::Split(_) => false,
            },
            None => false,
        };
        if !ok {
            return false;
        }
        proof {
            assert(node_links_ok(m0, self.rank@, self.root, frame_id));
        }
        let e = arena_get_mut(&mut self.nodes, frame_id);
        match &mut e.node {
            Node::Frame(frame) => {
                let window = frame.windows.remove(from_index);
                frame.windows.insert(to_index, window);
                if frame.focused == from_index {
                    frame.focused = to_index;
                } else if from_index < frame.focused && to_index >= frame.focused {
                    frame.focused = frame.focused - 1;
                } else if from_index > frame.focused && to_index <= frame.focused {
                    frame.focused = frame.focused + 1;
                }
            },
            Node::Split(_) => {},
        }
        proof {
            let m1 = self.entries();
            assert(m1.dom() =~= m0.dom());
            lemma_frame_update(m0, m1, self.root, self.focused, self.rank@, frame_id);
        }
        true
    }

    /// Move a window from source frame to target frame. The window leaves the
    /// source before the target is looked at: a target that is no frame
    /// loses the window.
    #[verifier::rlimit(40)]
    #[verifier::spinoff_prover]
    pub fn move_window_to_frame(&mut self, window: Window, source_frame: NodeId, target_frame: NodeId) -> (r: bool)
        requires
            old(self).wf(),
        ensures
            final(self).wf(),
            final(self).root == old(self).root,
            final(self).frames() == old(self).frames(),
            ({
                let m0 = old(self).entries();
                let m1 = final(self).entries();
                let src_ok = is_frame(m0, source_frame) && frame_of(m0, source_frame).windows@.contains(window);
                let tgt_ok = is_frame(m0, target_frame);
                let sf = frame_of(m0, source_frame);
                let removed = sf.windows@.remove_value(window);
                let removed_focus = focus_after_removal(sf.focused, removed.len() as int);
                &&& r == (src_ok && tgt_ok)
                &&& !src_ok ==> m1 == m0 && final(self).focused == old(self).focused
                &&& src_ok && !tgt_ok ==> {
                    &&& final(self).focused == old(self).focused
                    &&& entries_same_except(m0, m1, source_frame)
                    &&& frame_now(m1, source_frame, removed, removed_focus as int)
                }
                &&& r ==> final(self).focused == target_frame
                &&& r && source_frame == target_frame ==> {
                    &&& entries_same_except(m0, m1, source_frame)
                    &&& frame_now(m1, source_frame, removed.push(window), removed.len() as int)
                }
                &&& r && source_frame != target_frame ==> {
                    let tf = frame_of(m0, target_frame);
                    &&& entries_same_except2(m0, m1, source_frame, target_frame)
                    &&& frame_now(m1, source_frame, removed, removed_focus as int)
                    &&& frame_now(m1, target_frame, tf.windows@.push(window), tf.windows@.len() as int)
                }
            }),
    {
        let ghost m0 = self.entries();
        if !self.frame_holds_window(source_frame, window) {
            return false;
        }
        proof {
            assert(node_links_ok(m0, self.rank@, self.root, source_frame));
        }
        let e = arena_get_mut(&mut self.nodes, source_frame);
        match &mut e.node {
            Node::Frame(frame) => {
                proof {
                    lemma_remove_value_len(frame.windows@, window);
                }
                frame.remove_window(window);
            },
            Node::Split(_) => {},
        }
        let ghost m1 = self.entries();
        proof {
            assert(m1.dom() =~= m0.dom());
            lemma_frame_update(m0, m1, self.root, self.focused, self.rank@, source_frame);
        }
        if !self.is_frame_node(target_frame) {
            return false;
        }
        proof {
            assert(node_links_ok(m1, self.rank@, self.root, target_frame));
        }
        let e = arena_get_mut(&mut self.nodes, target_frame);
        match &mut e.node {
            Node::Frame(frame) => frame.add_window(window),
            Node::Split(_) => {},
        }
        proof {
            let m2 = self.entries();
            assert(m2.dom() =~= m1.dom());
            lemma_frame_update(m1, m2, self.root, self.focused, self.rank@, target_frame);
        }
        self.focused = target_frame;
        true
    }

    /// Resize the split containing the focused frame; `delta` (in millionths)
    /// grows the focused frame when positive and shrinks it when negative.
    pub fn resize_focused_split(&mut self, delta: i32) -> (r: bool)
        requires
            old(self).wf(),
        ensures
            final(self).wf(),
            final(self).root == old(self).root,
            final(self).focused == old(self).focused,
            final(self).frames() == old(self).frames(),
            r == (old(self).focused != old(self).root),
            !r ==> final(self).entries() == old(self).entries(),
            r ==> {
                let m0 = old(self).entries();
                let p = m0[old(self).focused].parent->0;
                let s = m0[p].node->Split_0;
                let adjustment = if s.first == old(self).focused { delta as int } else { -delta };
                &&& entries_same_except(m0, final(self).entries(), p)
                &&& final(self).entries()[p].node == Node::Split(Split { ratio: clamp_ratio(s.ratio + adjustment), ..s })
            },
    {
        let ghost m0 = self.entries();
        proof {
            assert(node_links_ok(m0, self.rank@, self.root, self.focused));
        }
        let parent_id = match self.parent(self.focused) {
            Some(id) => id,
            None => return false,
        };
        proof {
            assert(node_links_ok(m0, self.rank@, self.root, parent_id));
        }
        let focused = self.focused;
        let e = arena_get_mut(&mut self.nodes, parent_id);
        match &mut e.node {
            Node::Split(split) => {
                let is_first = split.first == focused;
                let adjustment: i64 = if is_first { delta as i64 } else { -(delta as i64) };
                let v: i64 = split.ratio as i64 + adjustment;
                split.ratio = if v < RATIO_MIN as i64 {
                    RATIO_MIN
                } else if v > RATIO_MAX as i64 {
                    RATIO_MAX
                } else {
                    v as u32
                };
            },
            Node::Frame(_) => {},
        }
        proof {
            let m1 = self.entries();
            assert(m1.dom() =~= m0.dom());
            lemma_split_update(m0, m1, self.root, self.focused, self.rank@, parent_id);
        }
        true
    }

    /// Set the ratio (in millionths) of a specific split node, clamped to
    /// bounds. Returns true if the split was found and updated
    pub fn set_split_ratio(&mut self, split_id: NodeId, ratio: u32) -> (r: bool)
        requires
            old(self).wf(),
        ensures
            final(self).wf(),
            final(self).root == old(self).root,
            final(self).focused == old(self).focused,
            final(self).frames() == old(self).frames(),
            r == (old(self).entries().contains_key(split_id) && old(self).entries()[split_id].node is Split),
            !r ==> final(self).entries() == old(self).entries(),
            r ==> {
                let s = old(self).entries()[split_id].node->Split_0;
                &&& entries_same_except(old(self).entries(), final(self).entries(), split_id)
                &&& final(self).entries()[split_id].node == Node::Split(Split { ratio: clamp_ratio(ratio as int), ..s })
            },
    {
        let ghost m0 = self.entries();
        let is_split = match arena_get(&self.nodes, split_id) {
            Some(e) => match &e.node {
                Node::Split(_) => true,
                Node::Frame(_) => false,
            },
            None => false,
        };
        if !is_split {
            return false;
        }
        proof {
            assert(node_links_ok(m0, self.rank@, self.root, split_id));
        }
        let e = arena_get_mut(&mut self.nodes, split_id);
        match &mut e.node {
            Node::Split(split) => {
                split.ratio = if ratio < RATIO_MIN {
                    RATIO_MIN
                } else if ratio > RATIO_MAX {
                    RATIO_MAX
                } else {
                    ratio
                };
            },
            Node::Frame(_) => {},
        }
        proof {
            let m1 = self.entries();
            assert(m1.dom() =~= m0.dom());
            lemma_split_update(m0, m1, self.root, self.focused, self.rank@, split_id);
        }
        true
    }

    /// Move the focused window to the next (or previous) frame in in-order
    /// traversal, wrapping around, and focus that frame.
    /// Returns the window that was moved (if any)
    pub fn move_window_to_adjacent(&mut self, forward: bool) -> (r: Option<Window>)
        requires
            old(self).wf(),
        ensures
            final(self).wf(),
            final(self).root == old(self).root,
            final(self).frames() == old(self).frames(),
            ({
                let fs = old(self).frames();
                let n = fs.len() as int;
                let m0 = old(self).entries();
                let m1 = final(self).entries();
                let f0 = old(self).spec_focused_frame();
                let ci = fs.index_of_first(old(self).focused);
                if n <= 1 || f0.spec_focused_window() is None || ci is None {
                    &&& r is None
                    &&& m1 == m0
                    &&& final(self).focused == old(self).focused
                } else {
                    let c = ci->0;
                    let ai = step_index(c, n, forward);
                    let adj = fs[ai];
                    let win = f0.spec_focused_window()->0;
                    let removed = f0.windows@.remove_value(win);
                    let removed_focus = focus_after_removal(f0.focused, removed.len() as int);
                    &&& r == Some(win)
                    &&& final(self).focused == adj
                    &&& adj == old(self).focused ==> {
                        &&& entries_same_except(m0, m1, adj)
                        &&& frame_now(m1, adj, removed.push(win), removed.len() as int)
                    }
                    &&& adj != old(self).focused ==> {
                        let af = frame_of(m0, adj);
                        &&& entries_same_except2(m0, m1, old(self).focused, adj)
                        &&& frame_now(m1, old(self).focused, removed, removed_focus as int)
                        &&& frame_now(m1, adj, af.windows@.push(win), af.windows@.len() as int)
                    }
                }
            }),
    {
        let ghost m0 = self.entries();
        let frames = self.all_frames();
        let ghost fs = frames@;
        proof {
            fs.index_of_first_ensures(self.focused);
        }
        if frames.len() <= 1 {
            return None;
        }
        let window = match self.focused_frame() {
            Some(f) => match f.focused_window() {
                Some(w) => w,
                None => return None,
            },
            None => return None,
        };
        let mut idx: usize = 0;
        while idx < frames.len() && frames[idx] != self.focused
            invariant
                frames@ == fs,
                idx <= fs.len(),
                forall|j: int| 0 <= j < idx ==> fs[j] != self.focused,
            decreases fs.len() - idx,
        {
            idx = idx + 1;
        }
        if idx == frames.len() {
            return None;
        }
        let current_idx = idx;
        proof {
            let c = fs.index_of_first(self.focused)->0;
            assert(c == current_idx) by {
                if c < current_idx {
                } else if c > current_idx {
                }
            }
        }
        let adjacent_idx = if forward {
            (current_idx + 1) % frames.len()
        } else {
            if current_idx == 0 { frames.len() - 1 } else { current_idx - 1 }
        };
        let adjacent_frame_id = frames[adjacent_idx];
        proof {
            lemma_frame_seq_frames(m0, self.root, self.rank@[self.root] + 1);
            assert(fs[adjacent_idx as int] == adjacent_frame_id);
            assert(node_links_ok(m0, self.rank@, self.root, self.focused));
        }
        let focused = self.focused;
        let e = arena_get_mut(&mut self.nodes, focused);
        match &mut e.node {
            Node::Frame(frame) => {
                proof {
                    assert(frame.windows@[frame.focused as int] == window);
                    lemma_remove_value_len(frame.windows@, window);
                }
                frame.remove_window(window);
            },
            Node::Split(_) => {},
        }
        let ghost m1 = self.entries();
        proof {
            assert(m1.dom() =~= m0.dom());
            lemma_frame_update(m0, m1, self.root, self.focused, self.rank@, focused);
            assert(node_links_ok(m1, self.rank@, self.root, adjacent_frame_id));
        }
        let e = arena_get_mut(&mut self.nodes, adjacent_frame_id);
        match &mut e.node {
            Node::Frame(frame) => frame.add_window(window),
            Node::Split(_) => {},
        }
        proof {
            let m2 = self.entries();
            assert(m2.dom() =~= m1.dom());
            lemma_frame_update(m1, m2, self.root, self.focused, self.rank@, adjacent_frame_id);
        }
        self.focused = adjacent_frame_id;
        Some(window)
    }

    /// Split the focused frame: a new split takes its place, with the frame
    /// and a new empty frame as children, and the new frame takes the focus.
    pub fn split_focused(&mut self, direction: SplitDirection) -> (r: NodeId)
        requires
            old(self).wf(),
            old(self).entries().dom().len() + 2 < u32::MAX,
        ensures
            final(self).wf(),
            final(self).focused == r,
            final(self).entries()[r].parent matches Some(s) && {
                &&& split_entries_ok(old(self).entries(), final(self).entries(), old(self).focused, direction, r, s)
                &&& final(self).root == (if old(self).entries()[old(self).focused].parent is None {
                    s
                } else {
                    old(self).root
                })
            },
            final(self).frames() == insert_after(old(self).frames(), old(self).focused, r),
            old(self).order_ok() ==> final(self).order_ok(),
            old(self).order_ok() ==> windows_along(final(self).entries(), final(self).walk_order())
                == windows_along(old(self).entries(), old(self).walk_order()),
    {
        let ghost m0 = self.entries();
        let ghost o0 = self.walk_order();
        let ghost rank0 = self.rank@;
        let old_focused = self.focused;
        proof {
            assert(node_links_ok(m0, rank0, self.root, old_focused));
        }
        let parent = self.parent(old_focused);

        // Create new empty frame
        let new_frame_id = arena_insert(
            &mut self.nodes,
            NodeEntry { node: Node::Frame(Frame::new()), parent: None },
        );
        let ghost o1 = self.walk_order();
        // Create split node
        let split = Split { direction, first: old_focused, second: new_frame_id, ratio: RATIO_HALF };
        let split_id = arena_insert(&mut self.nodes, NodeEntry { node: Node::Split(split), parent });
        let ghost o2 = self.walk_order();

        // Update parent pointers
        match parent {
            Some(parent_id) => {
                proof {
                    assert(node_links_ok(m0, rank0, self.root, parent_id));
                }
                let e = arena_get_mut(&mut self.nodes, parent_id);
                match &mut e.node {
                    Node::Split(parent_split) => {
                        if parent_split.first == old_focused {
                            parent_split.first = split_id;
                        } else {
                            parent_split.second = split_id;
                        }
                    },
                    Node::Frame(_) => {},
                }
            },
            None => {
                // old_focused was root
                self.root = split_id;
            },
        }

        // Set parent of old focused and new frame to the split
        let e = arena_get_mut(&mut self.nodes, old_focused);
        e.parent = Some(split_id);
        let e = arena_get_mut(&mut self.nodes, new_frame_id);
        e.parent = Some(split_id);

        // Focus the new frame
        self.focused = new_frame_id;
        proof {
            let m1 = self.entries();
            assert(m1.dom() =~= m0.dom().insert(new_frame_id).insert(split_id));
            assert(split_entries_ok(m0, m1, old_focused, direction, new_frame_id, split_id));
            lemma_split_wf(m0, m1, old(self).root, old_focused, rank0, direction, new_frame_id, split_id);
            lemma_split_frames(m0, m1, old(self).root, old_focused, rank0, direction, new_frame_id, split_id);
            self.rank = Ghost(split_ranks(m1, rank0, old_focused, new_frame_id, split_id));
            if old(self).order_ok() {
                lemma_split_windows(m0, m1, o0, o1, o2, old_focused, direction, new_frame_id, split_id);
            }
        }
        new_frame_id
    }

    /// The rectangle each frame gets when the tree fills `screen`, with `gap`
    /// pixels between siblings.
    pub open spec fn spec_geometries(&self, screen: Rect, gap: u32) -> Seq<(NodeId, Rect)> {
        geometry_seq(self.entries(), self.root, screen, gap, self.ranks()[self.root] + 1)
    }

    /// Filling `screen` overflows no coordinate.
    pub open spec fn geometries_fit(&self, screen: Rect, gap: u32) -> bool {
        geometry_ok(self.entries(), self.root, screen, gap, self.ranks()[self.root] + 1)
    }

    /// Calculate geometries for all frames
    pub fn calculate_geometries(&self, screen: Rect, gap: u32) -> (r: Vec<(NodeId, Rect)>)
        requires
            self.wf(),
            self.geometries_fit(screen, gap),
        ensures
            r@ == self.spec_geometries(screen, gap),
    {
        let mut result = Vec::new();
        proof {
            assert(node_links_ok(self.entries(), self.rank@, self.root, self.root));
        }
        self.calc_node_geometry(self.root, screen, gap, &mut result);
        proof {
            assert(result@ =~= self.spec_geometries(screen, gap));
        }
        result
    }

    fn calc_node_geometry(&self, node_id: NodeId, available: Rect, gap: u32, result: &mut Vec<(NodeId, Rect)>)
        requires
            self.wf(),
            self.entries().contains_key(node_id),
            geometry_ok(self.entries(), node_id, available, gap, self.rank@[node_id] + 1),
        ensures
            final(result)@ == old(result)@ + geometry_seq(
                self.entries(),
                node_id,
                available,
                gap,
                self.rank@[node_id] + 1,
            ),
        decreases self.rank@[node_id],
    {
        let ghost m = self.entries();
        let ghost rk = self.rank@;
        proof {
            assert(node_links_ok(m, rk, self.root, node_id));
        }
        match arena_get(&self.nodes, node_id) {
            Some(e) => match &e.node {
                Node::Frame(_) => {
                    result.push((node_id, available));
                },
                Node::Split(split) => {
                    let (first_rect, second_rect) = split_rect(available, split.direction, split.ratio, gap);
                    let first = split.first;
                    let second = split.second;
                    proof {
                        lemma_geometry_fuel(m, self.root, rk, first, first_rect, gap, rk[node_id]);
                        lemma_geometry_fuel(m, self.root, rk, second, second_rect, gap, rk[node_id]);
                    }
                    self.calc_node_geometry(first, first_rect, gap, result);
                    self.calc_node_geometry(second, second_rect, gap, result);
                    proof {
                        assert(final(result)@ =~= old(result)@ + geometry_seq(m, node_id, available, gap, rk[node_id] + 1));
                    }
                },
            },
            None => {},
        }
    }

    /// Whether filling `screen` keeps every coordinate within its integer
    /// type, so that `calculate_geometries` may be called.
    pub fn geometries_fit_check(&self, screen: Rect, gap: u32) -> (r: bool)
        requires
            self.wf(),
        ensures
            r == self.geometries_fit(screen, gap),
    {
        proof {
            assert(node_links_ok(self.entries(), self.rank@, self.root, self.root));
        }
        self.geometry_fits_under(self.root, screen, gap)
    }

    fn geometry_fits_under(&self, node_id: NodeId, available: Rect, gap: u32) -> (r: bool)
        requires
            self.wf(),
            self.entries().contains_key(node_id),
        ensures
            r == geometry_ok(self.entries(), node_id, available, gap, self.rank@[node_id] + 1),
        decreases self.rank@[node_id],
    {
        let ghost m = self.entries();
        let ghost rk = self.rank@;
        proof {
            assert(node_links_ok(m, rk, self.root, node_id));
        }
        match arena_get(&self.nodes, node_id) {
            Some(e) => match &e.node {
                Node::Frame(_) => true,
                Node::Split(split) => {
                    if !split_fits(available, split.direction, split.ratio, gap) {
                        return false;
                    }
                    let (first_rect, second_rect) = split_rect(available, split.direction, split.ratio, gap);
                    let first = split.first;
                    let second = split.second;
                    proof {
                        lemma_geometry_fuel(m, self.root, rk, first, first_rect, gap, rk[node_id]);
                        lemma_geometry_fuel(m, self.root, rk, second, second_rect, gap, rk[node_id]);
                    }
                    self.geometry_fits_under(first, first_rect, gap) && self.geometry_fits_under(
                        second,
                        second_rect,
                        gap,
                    )
                },
            },
            None => true,
        }
    }

    /// Whether looking for the gap under (`mouse_x`, `mouse_y`) keeps every
    /// coordinate within its integer type, so that `find_split_at_gap` may
    /// be called.
    pub fn gap_search_check(&self, screen: Rect, gap: u32, mouse_x: i32, mouse_y: i32) -> (r: bool)
        requires
            self.wf(),
        ensures
            r == gap_search_ok(self.entries(), self.root, screen, gap, mouse_x, mouse_y, self.ranks()[self.root] + 1),
    {
        proof {
            assert(node_links_ok(self.entries(), self.rank@, self.root, self.root));
        }
        self.gap_search_fits_under(self.root, screen, gap, mouse_x, mouse_y)
    }

    fn gap_search_fits_under(&self, node_id: NodeId, available: Rect, gap: u32, mouse_x: i32, mouse_y: i32) -> (r: bool)
        requires
            self.wf(),
            self.entries().contains_key(node_id),
        ensures
            r == gap_search_ok(self.entries(), node_id, available, gap, mouse_x, mouse_y, self.rank@[node_id] + 1),
        decreases self.rank@[node_id],
    {
        let ghost m = self.entries();
        let ghost rk = self.rank@;
        proof {
            assert(node_links_ok(m, rk, self.root, node_id));
        }
        match arena_get(&self.nodes, node_id) {
            Some(e) => match &e.node {
                Node::Frame(_) => true,
                Node::Split(split) => {
                    if !split_fits(available, split.direction, split.ratio, gap) {
                        return false;
                    }
                    let across_end: i64 = match split.direction {
                        SplitDirection::Horizontal => available.y as i64 + (available.height as i32) as i64,
                        SplitDirection::Vertical => available.x as i64 + (available.width as i32) as i64,
                    };
                    if across_end < i32::MIN as i64 || across_end > i32::MAX as i64 {
                        return false;
                    }
                    let (first_rect, second_rect) = split_rect(available, split.direction, split.ratio, gap);
                    let inside = match split.direction {
                        SplitDirection::Horizontal => {
                            first_rect.x + first_rect.width as i32 <= mouse_x && mouse_x < second_rect.x
                                && available.y <= mouse_y && mouse_y < available.y + available.height as i32
                        },
                        SplitDirection::Vertical => {
                            first_rect.y + first_rect.height as i32 <= mouse_y && mouse_y < second_rect.y
                                && available.x <= mouse_x && mouse_x < available.x + available.width as i32
                        },
                    };
                    if inside {
                        return true;
                    }
                    let first = split.first;
                    let second = split.second;
                    proof {
                        lemma_gap_fuel(m, self.root, rk, first, first_rect, gap, mouse_x, mouse_y, rk[node_id]);
                        lemma_gap_fuel(m, self.root, rk, second, second_rect, gap, mouse_x, mouse_y, rk[node_id]);
                    }
                    if !self.gap_search_fits_under(first, first_rect, gap, mouse_x, mouse_y) {
                        return false;
                    }
                    match self.find_gap_recursive(first, first_rect, gap, mouse_x, mouse_y) {
                        Some(_) => true,
                        None => self.gap_search_fits_under(second, second_rect, gap, mouse_x, mouse_y),
                    }
                },
            },
            None => true,
        }
    }

    /// What `find_split_at_gap` finds when the tree fills `screen`.
    pub open spec fn spec_gap_at(&self, screen: Rect, gap: u32, mouse_x: i32, mouse_y: i32) -> Option<(NodeId, SplitDirection, i32, u32)> {
        gap_at(self.entries(), self.root, screen, gap, mouse_x, mouse_y, self.ranks()[self.root] + 1)
    }

    /// Find a split whose gap contains the given mouse coordinates
    /// Returns (split_id, direction, gap_start_position, total_size_in_split_direction)
    pub fn find_split_at_gap(&self, screen: Rect, gap: u32, mouse_x: i32, mouse_y: i32) -> (r: Option<
        (NodeId, SplitDirection, i32, u32),
    >)
        requires
            self.wf(),
            gap_search_ok(self.entries(), self.root, screen, gap, mouse_x, mouse_y, self.ranks()[self.root] + 1),
        ensures
            r == self.spec_gap_at(screen, gap, mouse_x, mouse_y),
    {
        proof {
            assert(node_links_ok(self.entries(), self.rank@, self.root, self.root));
        }
        self.find_gap_recursive(self.root, screen, gap, mouse_x, mouse_y)
    }

    fn find_gap_recursive(&self, node_id: NodeId, available: Rect, gap: u32, mouse_x: i32, mouse_y: i32) -> (r:
        Option<(NodeId, SplitDirection, i32, u32)>)
        requires
            self.wf(),
            self.entries().contains_key(node_id),
            gap_search_ok(self.entries(), node_id, available, gap, mouse_x, mouse_y, self.rank@[node_id] + 1),
        ensures
            r == gap_at(self.entries(), node_id, available, gap, mouse_x, mouse_y, self.rank@[node_id] + 1),
        decreases self.rank@[node_id],
    {
        let ghost m = self.entries();
        let ghost rk = self.rank@;
        proof {
            assert(node_links_ok(m, rk, self.root, node_id));
        }
        match arena_get(&self.nodes, node_id) {
            Some(e) => match &e.node {
                Node::Frame(_) => None,
                Node::Split(split) => {
                    let (first_rect, second_rect) = split_rect(available, split.direction, split.ratio, gap);
                    // The gap region and the mouse position along and across the split
                    let (gap_start, gap_end, perpendicular_start, perpendicular_end) = match split.direction {
                        SplitDirection::Horizontal => {
                            (
                                first_rect.x + first_rect.width as i32,
                                second_rect.x,
                                available.y,
                                available.y + available.height as i32,
                            )
                        },
                        SplitDirection::Vertical => {
                            (
                                first_rect.y + first_rect.height as i32,
                                second_rect.y,
                                available.x,
                                available.x + available.width as i32,
                            )
                        },
                    };
                    let (mouse_parallel, mouse_perpendicular) = match split.direction {
                        SplitDirection::Horizontal => (mouse_x, mouse_y),
                        SplitDirection::Vertical => (mouse_y, mouse_x),
                    };
                    if mouse_parallel >= gap_start && mouse_parallel < gap_end && mouse_perpendicular
                        >= perpendicular_start && mouse_perpendicular < perpendicular_end {
                        let (split_start, total_size) = match split.direction {
                            SplitDirection::Horizontal => (available.x, available.width),
                            SplitDirection::Vertical => (available.y, available.height),
                        };
                        return Some((node_id, split.direction, split_start, total_size));
                    }
                    let first = split.first;
                    let second = split.second;
                    proof {
                        lemma_gap_fuel(m, self.root, rk, first, first_rect, gap, mouse_x, mouse_y, rk[node_id]);
                        lemma_gap_fuel(m, self.root, rk, second, second_rect, gap, mouse_x, mouse_y, rk[node_id]);
                    }
                    if let Some(result) = self.find_gap_recursive(first, first_rect, gap, mouse_x, mouse_y) {
                        return Some(result);
                    }
                    if let Some(result) = self.find_gap_recursive(second, second_rect, gap, mouse_x, mouse_y) {
                        return Some(result);
                    }
                    None
                },
            },
            None => None,
        }
    }

    /// What `find_frame_in_direction` finds among `geometries`.
    pub open spec fn spec_frame_in_direction(&self, direction: Direction, geometries: Seq<(NodeId, Rect)>) -> Option<NodeId> {
        match rect_of(geometries, self.focused) {
            Some(fr) => match closest_toward(geometries, self.focused, direction, fr.spec_center_x(), fr.spec_center_y()) {
                Some(best) => Some(best.0),
                None => None,
            },
            None => None,
        }
    }

    /// The search for a frame in `direction` overflows no `i32`.
    pub open spec fn direction_fits(&self, direction: Direction, geometries: Seq<(NodeId, Rect)>) -> bool {
        rect_of(geometries, self.focused) matches Some(fr) ==> {
            &&& fr.center_fits()
            &&& closest_fits(geometries, self.focused, direction, fr.spec_center_x(), fr.spec_center_y())
        }
    }

    /// Find the closest frame in the given direction from the focused frame:
    /// the one whose centre lies that way and is nearest along the direction,
    /// counting half the distance across it.
    pub fn find_frame_in_direction(&self, direction: Direction, geometries: &[(NodeId, Rect)]) -> (r: Option<NodeId>)
        requires
            self.direction_fits(direction, geometries@),
        ensures
            r == self.spec_frame_in_direction(direction, geometries@),
    {
        let focused_rect = match find_rect(geometries, self.focused) {
            Some(rect) => rect,
            None => return None,
        };
        let focused_cx = focused_rect.center_x();
        let focused_cy = focused_rect.center_y();
        closest_in_direction(direction, self.focused, focused_cx, focused_cy, geometries)
    }

    /// Focus the frame in the given spatial direction
    pub fn focus_spatial(&mut self, direction: Direction, geometries: &[(NodeId, Rect)]) -> (r: bool)
        requires
            old(self).wf(),
            old(self).direction_fits(direction, geometries@),
            forall|i: int| 0 <= i < geometries@.len() ==> is_frame(old(self).entries(), #[trigger] geometries@[i].0),
        ensures
            final(self).wf(),
            final(self).entries() == old(self).entries(),
            final(self).root == old(self).root,
            final(self).frames() == old(self).frames(),
            r == old(self).spec_frame_in_direction(direction, geometries@) is Some,
            final(self).focused == (match old(self).spec_frame_in_direction(direction, geometries@) {
                Some(t) => t,
                None => old(self).focused,
            }),
    {
        if let Some(target) = self.find_frame_in_direction(direction, geometries) {
            proof {
                lemma_closest_is_candidate(geometries@, self.focused, direction, 
                    rect_of(geometries@, self.focused)->0.spec_center_x(),
                    rect_of(geometries@, self.focused)->0.spec_center_y());
            }
            self.focused = target;
            return true;
        }
        false
    }

    /// The first empty frame other than the root, in the arena's walking order.
    fn find_empty_frame(&self) -> (r: Option<NodeId>)
        ensures
            r == first_empty(self.entries(), self.walk_order(), self.root),
            self.walk_order().to_set() == self.entries().dom(),
    {
        let keys = arena_keys(&self.nodes);
        let mut i: usize = 0;
        while i < keys.len()
            invariant
                keys@ == self.walk_order(),
                keys@.to_set() == self.entries().dom(),
                i <= keys@.len(),
                forall|j: int| 0 <= j < i ==> !(empty_frame(self.entries(), #[trigger] keys@[j]) && keys@[j] != self.root),
            decreases keys@.len() - i,
        {
            let k = keys[i];
            let empty = match arena_get(&self.nodes, k) {
                Some(e) => match &e.node {
                    Node::Frame(f) => f.windows.len() == 0,
                    Node::Split(_) => false,
                },
                None => false,
            };
            if empty && k != self.root {
                proof {
                    lemma_first_empty_skip(self.entries(), keys@, self.root, i as int);
                    assert(keys@.subrange(i as int, keys@.len() as int)[0] == k);
                }
                return Some(k);
            }
            i = i + 1;
        }
        proof {
            lemma_first_empty_skip(self.entries(), keys@, self.root, i as int);
        }
        None
    }

    /// Remove empty frame `frame_id` and its parent split; the frame's sibling
    /// takes the split's place. Leaves the focus alone.
    #[verifier::rlimit(50)]
    #[verifier::spinoff_prover]
    fn collapse_frame(&mut self, frame_id: NodeId)
        requires
            old(self).shape_wf(),
            empty_frame(old(self).entries(), frame_id),
            frame_id != old(self).root,
        ensures
            final(self).shape_wf(),
            collapse_entries_ok(old(self).entries(), final(self).entries(), frame_id),
            final(self).root == collapse_root(old(self).entries(), old(self).root, frame_id),
            final(self).rank == old(self).rank,
            final(self).focused == old(self).focused,
            final(self).frames() == without(old(self).frames(), frame_id),
            old(self).order_ok() ==> final(self).order_ok(),
            old(self).order_ok() ==> windows_along(final(self).entries(), final(self).walk_order())
                == windows_along(old(self).entries(), old(self).walk_order()),
    {
        let ghost m0 = self.entries();
        let ghost o0 = self.walk_order();
        let ghost rk = self.rank@;
        proof {
            assert(node_links_ok(m0, rk, self.root, frame_id));
        }
        let parent_id = match self.parent(frame_id) {
            Some(id) => id,
            None => {
                proof {
                    assert(false);
                }
                return ;
            },
        };
        proof {
            assert(node_links_ok(m0, rk, self.root, parent_id));
        }
        let sibling_id = match self.get(parent_id) {
            Some(Node::Split(split)) => if split.first == frame_id {
                split.second
            } else {
                split.first
            },
            _ => {
                proof {
                    assert(false);
                }
                return ;
            },
        };
        let grandparent_id = self.parent(parent_id);
        match grandparent_id {
            Some(gp_id) => {
                proof {
                    assert(node_links_ok(m0, rk, self.root, gp_id));
                }
                // Update grandparent's child reference
                let e = arena_get_mut(&mut self.nodes, gp_id);
                match &mut e.node {
                    Node::Split(gp_split) => {
                        if gp_split.first == parent_id {
                            gp_split.first = sibling_id;
                        } else {
                            gp_split.second = sibling_id;
                        }
                    },
                    Node::Frame(_) => {},
                }
                // Update sibling's parent
                let e = arena_get_mut(&mut self.nodes, sibling_id);
                e.parent = Some(gp_id);
            },
            None => {
                // Parent was root, sibling becomes new root
                self.root = sibling_id;
                let e = arena_get_mut(&mut self.nodes, sibling_id);
                e.parent = None;
            },
        }
        // Remove the empty frame and the parent split
        let ghost om = self.walk_order();
        arena_remove(&mut self.nodes, frame_id);
        let ghost oa = self.walk_order();
        arena_remove(&mut self.nodes, parent_id);
        proof {
            let m1 = self.entries();
            assert(m1.dom() =~= m0.dom().remove(frame_id).remove(parent_id));
            assert(collapse_entries_ok(m0, m1, frame_id));
            lemma_collapse_shape_wf(m0, m1, old(self).root, rk, frame_id);
            assert(node_links_ok(m1, rk, self.root, self.root));
            lemma_collapse_frames_under(m0, m1, old(self).root, rk, frame_id, self.root);
            let p = parent_id;
            if grandparent_id is None {
                assert(p == old(self).root);
                lemma_parent_frames_without(m0, old(self).root, rk, frame_id);
                lemma_filter_idempotent(frames_under(m0, rk, sibling_id), frame_id);
            }
            if old(self).order_ok() {
                assert(om == o0);
                lemma_collapse_windows(m0, m1, o0, oa, self.walk_order(), frame_id);
            }
        }
    }

    /// Remove empty frame `frame_id`, as `collapse_frame` does, and move the
    /// focus to the first frame if it was there.
    fn remove_one_empty(&mut self, frame_id: NodeId)
        requires
            old(self).wf(),
            empty_frame(old(self).entries(), frame_id),
            frame_id != old(self).root,
        ensures
            final(self).wf(),
            collapse_entries_ok(old(self).entries(), final(self).entries(), frame_id),
            final(self).frames() == without(old(self).frames(), frame_id),
            final(self).entries().dom().len() < old(self).entries().dom().len(),
            old(self).focused != frame_id ==> final(self).focused == old(self).focused,
            old(self).focused == frame_id ==> final(self).frames().len() > 0 && final(self).focused
                == final(self).frames()[0],
            old(self).focused != frame_id && old(self).frames().len() > 0 && old(self).focused == old(
                self,
            ).frames()[0] ==> final(self).frames().len() > 0 && final(self).focused == final(self).frames()[0],
            old(self).order_ok() ==> final(self).order_ok(),
            old(self).order_ok() ==> windows_along(final(self).entries(), final(self).walk_order())
                == windows_along(old(self).entries(), old(self).walk_order()),
    {
        let ghost cur = self.entries();
        let ghost cur_frames = self.frames();
        proof {
            assert(node_links_ok(cur, self.rank@, self.root, frame_id));
        }
        self.collapse_frame(frame_id);
        proof {
            assert(cur.dom().remove(frame_id).len() == cur.dom().len() - 1);
        }
        if self.focused == frame_id {
            // Focus the first frame we can find
            let frames = self.all_frames();
            proof {
                lemma_frames_under_nonempty(self.entries(), self.root, self.rank@, self.root);
                lemma_frame_seq_frames(self.entries(), self.root, self.rank@[self.root] + 1);
            }
            self.focused = if frames.len() > 0 { frames[0] } else { self.root };
        } else {
            proof {
                let p = cur[frame_id].parent->0;
                assert(node_links_ok(cur, self.rank@, old(self).root, p));
                assert(self.focused != p);
                if cur_frames.len() > 0 && self.focused == cur_frames[0] {
                    lemma_filter_keeps_head(cur_frames, frame_id);
                }
            }
        }
    }

    /// Remove empty frames from the tree, other than a lone root frame: each
    /// goes with its parent split, whose other child takes the split's place.
    /// Returns true if any cleanup was performed
    #[verifier::rlimit(100)]
    #[verifier::spinoff_prover]
    pub fn remove_empty_frames(&mut self) -> (changed: bool)
        requires
            old(self).wf(),
        ensures
            final(self).wf(),
            changed == first_empty(old(self).entries(), old(self).walk_order(), old(self).root) is Some,
            changed <==> exists|k: NodeId| #[trigger] empty_frame(old(self).entries(), k) && k != old(self).root,
            !changed ==> {
                &&& final(self).entries() == old(self).entries()
                &&& final(self).root == old(self).root
                &&& final(self).focused == old(self).focused
            },
            forall|k: NodeId| #[trigger] final(self).entries().contains_key(k) ==> old(self).entries().contains_key(k),
            forall|k: NodeId| #[trigger] is_frame(final(self).entries(), k) ==> final(self).entries()[k].node == old(
                self,
            ).entries()[k].node,
            forall|k: NodeId| #[trigger] final(self).entries().contains_key(k) && k != final(self).root
                ==> !empty_frame(final(self).entries(), k),
            forall|k: NodeId| #[trigger] is_frame(old(self).entries(), k) && !empty_frame(old(self).entries(), k)
                ==> final(self).entries().contains_key(k),
            final(self).frames() == kept_in(old(self).frames(), final(self).entries()),
            !empty_frame(old(self).entries(), old(self).focused) ==> final(self).focused == old(self).focused,
            empty_frame(old(self).entries(), old(self).focused) ==> final(self).focused == final(self).frames()[0],
            old(self).order_ok() ==> final(self).order_ok(),
            old(self).order_ok() ==> windows_along(final(self).entries(), final(self).walk_order())
                == windows_along(old(self).entries(), old(self).walk_order()),
    {
        let ghost m0 = self.entries();
        let ghost f0 = self.frames();
        proof {
            lemma_frame_seq_frames(m0, self.root, self.rank@[self.root] + 1);
            lemma_kept_all(f0, m0);
        }
        let mut changed = false;
        loop
            invariant_except_break
                self.wf(),
                m0 == old(self).entries(),
                f0 == old(self).frames(),
                forall|i: int| 0 <= i < f0.len() ==> is_frame(m0, #[trigger] f0[i]),
                self.entries().dom().finite(),
                forall|k: NodeId| #[trigger] self.entries().contains_key(k) ==> m0.contains_key(k),
                forall|k: NodeId| #[trigger] self.entries().contains_key(k) ==> (self.entries()[k].node is Frame
                    <==> m0[k].node is Frame),
                forall|k: NodeId| #[trigger] is_frame(self.entries(), k) ==> self.entries()[k].node == m0[k].node,
                forall|k: NodeId| #[trigger] is_frame(m0, k) && !empty_frame(m0, k) ==> self.entries().contains_key(k),
                self.frames() == kept_in(f0, self.entries()),
                !empty_frame(m0, old(self).focused) ==> self.focused == old(self).focused,
                self.focused == old(self).focused || (self.frames().len() > 0 && self.focused
                    == self.frames()[0]),
                !changed ==> {
                    &&& self.nodes == old(self).nodes
                    &&& self.root == old(self).root
                    &&& self.focused == old(self).focused
                    &&& self.rank == old(self).rank
                },
                changed ==> first_empty(m0, old(self).walk_order(), old(self).root) is Some,
                old(self).order_ok() ==> self.order_ok(),
                old(self).order_ok() ==> windows_along(self.entries(), self.walk_order())
                    == windows_along(m0, old(self).walk_order()),
            ensures
                self.wf(),
                old(self).order_ok() ==> self.order_ok(),
                old(self).order_ok() ==> windows_along(self.entries(), self.walk_order())
                    == windows_along(m0, old(self).walk_order()),
                forall|k: NodeId| #[trigger] self.entries().contains_key(k) ==> m0.contains_key(k),
                forall|k: NodeId| #[trigger] is_frame(self.entries(), k) ==> self.entries()[k].node == m0[k].node,
                forall|k: NodeId| #[trigger] is_frame(m0, k) && !empty_frame(m0, k) ==> self.entries().contains_key(k),
                self.frames() == kept_in(f0, self.entries()),
                !empty_frame(m0, old(self).focused) ==> self.focused == old(self).focused,
                empty_frame(m0, old(self).focused) ==> self.frames().len() > 0 && self.focused == self.frames()[0],
                !changed ==> {
                    &&& self.nodes == old(self).nodes
                    &&& self.root == old(self).root
                    &&& self.focused == old(self).focused
                },
                changed == first_empty(m0, old(self).walk_order(), old(self).root) is Some,
                forall|k: NodeId| #[trigger] self.entries().contains_key(k) && k != self.root
                    ==> !empty_frame(self.entries(), k),
            decreases self.entries().dom().len(),
        {
            let empty_frame_id = self.find_empty_frame();
            let frame_id = match empty_frame_id {
                Some(id) => id,
                None => {
                    proof {
                        lemma_first_empty_none(self.entries(), self.walk_order(), self.root);
                        assert forall|k: NodeId| #[trigger] self.entries().contains_key(k) && k != self.root
                            implies !empty_frame(self.entries(), k) by {
                            assert(self.walk_order().to_set().contains(k));
                            let j = choose|j: int| 0 <= j < self.walk_order().len() && self.walk_order()[j] == k;
                        }
                        if empty_frame(m0, old(self).focused) && self.focused == old(self).focused {
                            assert(is_frame(self.entries(), self.focused));
                            assert(self.entries()[self.focused].node == m0[self.focused].node);
                            assert(self.focused == self.root);
                            assert(self.frames() == seq![self.root]);
                        }
                    }
                    break;
                },
            };
            let ghost cur = self.entries();
            let ghost cur_root = self.root;
            let ghost cur_rank = self.rank@;
            let ghost p = cur[frame_id].parent->0;
            proof {
                lemma_first_empty_found(cur, self.walk_order(), self.root);
                assert(node_links_ok(cur, self.rank@, self.root, frame_id));
            }
            self.remove_one_empty(frame_id);
            proof {
                let next = self.entries();
                lemma_collapse_keeps(cur, next, cur_rank, cur_root, frame_id);
                assert(!f0.contains(p)) by {
                    if f0.contains(p) {
                        let i = choose|i: int| 0 <= i < f0.len() && f0[i] == p;
                        assert(is_frame(m0, f0[i]));
                    }
                }
                lemma_kept_step(f0, cur, next, frame_id, p);
                assert forall|k: NodeId| #[trigger] next.contains_key(k) implies m0.contains_key(k) && (
                next[k].node is Frame <==> m0[k].node is Frame) by {
                    assert(cur.contains_key(k));
                }
                assert forall|k: NodeId| #[trigger] is_frame(next, k) implies next[k].node == m0[k].node by {
                    assert(cur.contains_key(k));
                    assert(is_frame(cur, k));
                }
                assert forall|k: NodeId| #[trigger] is_frame(m0, k) && !empty_frame(m0, k) implies next.contains_key(
                    k) by {
                    assert(cur.contains_key(k));
                    assert(is_frame(cur, k));
                    assert(cur[k].node == m0[k].node);
                    assert(k != frame_id);
                }
            }
            changed = true;
        }
        proof {
            lemma_first_empty_found(m0, old(self).walk_order(), old(self).root);
            if changed {
                let k = first_empty(m0, old(self).walk_order(), old(self).root)->0;
                assert(empty_frame(m0, k) && k != old(self).root);
            } else {
                assert forall|k: NodeId| !(#[trigger] empty_frame(m0, k) && k != old(self).root) by {
                    if empty_frame(m0, k) && k != old(self).root {
                        assert(self.entries().contains_key(k));
                    }
                }
            }
        }
        changed
    }

    /// Get a node by ID
    pub fn get(&self, id: NodeId) -> (r: Option<&Node>)
        ensures
            self.entries().contains_key(id) ==> r == Some(&self.entries()[id].node),
            !self.entries().contains_key(id) ==> r is None,
    {
        match arena_get(&self.nodes, id) {
            Some(e) => Some(&e.node),
            None => None,
        }
    }

    /// Get parent of a node
    pub fn parent(&self, id: NodeId) -> (r: Option<NodeId>)
        ensures
            self.entries().contains_key(id) ==> r == self.entries()[id].parent,
            !self.entries().contains_key(id) ==> r is None,
    {
        match arena_get(&self.nodes, id) {
            Some(e) => e.parent,
            None => None,
        }
    }

    /// Get the focused frame
    pub fn focused_frame(&self) -> (r: Option<&Frame>)
        ensures
            self.entries().contains_key(self.focused) && self.entries()[self.focused].node is Frame
                ==> r == Some(&self.spec_focused_frame()),
            !(self.entries().contains_key(self.focused) && self.entries()[self.focused].node is Frame)
                ==> r is None,
    {
        match arena_get(&self.nodes, self.focused) {
            Some(e) => e.node.as_frame(),
            None => None,
        }
    }
}

} // verus!

verus! {

/// A workspace (virtual desktop) containing an independent layout tree
pub struct Workspace {
    /// Unique identifier (1-9)
    pub id: usize,
    /// The layout tree for this workspace
    pub layout: LayoutTree,
    /// The last focused window in this workspace (for focus restoration)
    pub last_focused_window: Option<Window>,
}

impl Workspace {
    /// Create a new workspace with the given id
    pub fn new(id: usize) -> (w: Self)
        ensures
            w.id == id,
            w.layout.wf(),
            w.layout.frames() == seq![w.layout.root],
            w.layout.focused == w.layout.root,
            w.layout.spec_focused_frame().windows@ == Seq::<Window>::empty(),
            w.last_focused_window is None,
    {
        let layout = LayoutTree::new();
        Workspace { id, layout, last_focused_window: None }
    }
}

} // verus!

verus! {

// ---------------------------------------------------------------------------
// Snapshots for IPC
// ---------------------------------------------------------------------------

/// The `Debug` text of a key's data (`KeyData`): its slot index and
/// version, as in `1v1`, or `null`.
pub uninterp spec fn key_data_debug(k: NodeId) -> Seq<char>;

/// Formats the data of a node id with `Debug`; the text is named by
/// `key_data_debug`.
#[verifier::external_body]
fn key_data_string(k: NodeId) -> (r: String)
    ensures
        r@ == key_data_debug(k),
{
    format!("{:?}", k.data())
}

/// How a node id reads in snapshots: `NodeId(` and `)` around the key's
/// data, as `Debug` prints a slotmap key type named `NodeId`.
pub open spec fn node_id_text(k: NodeId) -> Seq<char> {
    "NodeId("@ + key_data_debug(k) + ")"@
}

/// A node id as text, as snapshots and the event log show it.
pub fn node_id_string(k: NodeId) -> (r: String)
    ensures
        r@ == node_id_text(k),
{
    let mut text = String::from_str("NodeId(");
    let data = key_data_string(k);
    text.append(data.as_str());
    text.append(")");
    text
}

/// A node of the layout tree as reported to IPC clients. A split's ratio is
/// in millionths.
pub enum NodeSnapshot {
    Frame { id: String, windows: Vec<u32>, focused_tab: usize, geometry: Option<RectSnapshot> },
    Split { id: String, direction: String, ratio: u32, first: Box<NodeSnapshot>, second: Box<NodeSnapshot> },
}

/// The layout tree as reported to IPC clients.
pub struct LayoutSnapshot {
    pub root: NodeSnapshot,
}

/// The name of a split direction in snapshots.
pub open spec fn direction_name(d: SplitDirection) -> Seq<char> {
    match d {
        SplitDirection::Horizontal => "horizontal"@,
        SplitDirection::Vertical => "vertical"@,
    }
}

/// The geometry reported for frame `id`: its first rectangle in `geoms`,
/// where geometries were given.
pub open spec fn snapshot_geometry(geoms: Option<Seq<(NodeId, Rect)>>, id: NodeId) -> Option<RectSnapshot> {
    match geoms {
        Some(g) => match rect_of(g, id) {
            Some(r) => Some(RectSnapshot { x: r.x, y: r.y, width: r.width, height: r.height }),
            None => None,
        },
        None => None,
    }
}

/// `s` reports node `id` of `m` and, within `fuel` levels, everything under
/// it: a frame with its id, windows, focused tab and geometry; a split with
/// its id, direction, ratio and both children. An id the tree does not hold
/// is reported as an empty frame named "invalid".
pub open spec fn snapshot_matches(s: NodeSnapshot, m: Map<NodeId, NodeEntry>, id: NodeId, geoms: Option<Seq<(NodeId, Rect)>>, fuel: nat) -> bool
    decreases fuel,
{
    if fuel == 0 {
        false
    } else if !m.contains_key(id) {
        s matches NodeSnapshot::Frame { id: sid, windows, focused_tab, geometry } && sid@ == "invalid"@
            && windows@.len() == 0 && focused_tab == 0 && geometry is None
    } else {
        match m[id].node {
            Node::Frame(f) => s matches NodeSnapshot::Frame { id: sid, windows, focused_tab, geometry }
                && sid@ == node_id_text(id) && windows@ == f.windows@ && focused_tab == f.focused
                && geometry == snapshot_geometry(geoms, id),
            Node::Split(sp) => s matches NodeSnapshot::Split { id: sid, direction, ratio, first, second }
                && sid@ == node_id_text(id) && direction@ == direction_name(sp.direction) && ratio
                == sp.ratio && snapshot_matches(*first, m, sp.first, geoms, (fuel - 1) as nat)
                && snapshot_matches(*second, m, sp.second, geoms, (fuel - 1) as nat),
        }
    }
}

pub open spec fn geoms_view(geometries: Option<&[(NodeId, Rect)]>) -> Option<Seq<(NodeId, Rect)>> {
    match geometries {
        Some(g) => Some(g@),
        None => None,
    }
}

fn copy_windows(v: &Vec<u32>) -> (r: Vec<u32>)
    ensures
        r@ == v@,
{
    let mut out: Vec<u32> = Vec::new();
    let mut i: usize = 0;
    while i < v.len()
        invariant
            i <= v@.len(),
            out@ =~= v@.take(i as int),
        decreases v@.len() - i,
    {
        out.push(v[i]);
        i = i + 1;
    }
    proof {
        assert(v@.take(v@.len() as int) =~= v@);
    }
    out
}

impl LayoutTree {
    fn snapshot_node(&self, node_id: NodeId, geometries: Option<&[(NodeId, Rect)]>) -> (r: NodeSnapshot)
        requires
            self.wf(),
            self.entries().contains_key(node_id),
        ensures
            snapshot_matches(r, self.entries(), node_id, geoms_view(geometries), self.rank@[node_id] + 1),
        decreases self.rank@[node_id],
    {
        let ghost m = self.entries();
        let ghost rk = self.rank@;
        proof {
            assert(node_links_ok(m, rk, self.root, node_id));
        }
        match arena_get(&self.nodes, node_id) {
            Some(e) => match &e.node {
                Node::Frame(frame) => {
                    let geometry = match geometries {
                        Some(g) => match find_rect(g, node_id) {
                            Some(r) => Some(RectSnapshot::from(r)),
                            None => None,
                        },
                        None => None,
                    };
                    NodeSnapshot::Frame {
                        id: node_id_string(node_id),
                        windows: copy_windows(&frame.windows),
                        focused_tab: frame.focused,
                        geometry,
                    }
                },
                Node::Split(split) => {
                    let direction = match split.direction {
                        SplitDirection::Horizontal => String::from_str("horizontal"),
                        SplitDirection::Vertical => String::from_str("vertical"),
                    };
                    let first = self.snapshot_node(split.first, geometries);
                    let second = self.snapshot_node(split.second, geometries);
                    proof {
                        lemma_snapshot_fuel(first, m, rk, self.root, split.first, geoms_view(geometries), (rk[split.first] + 1) as nat, rk[node_id]);
                        lemma_snapshot_fuel(second, m, rk, self.root, split.second, geoms_view(geometries), (rk[split.second] + 1) as nat, rk[node_id]);
                    }
                    NodeSnapshot::Split {
                        id: node_id_string(node_id),
                        direction,
                        ratio: split.ratio,
                        first: Box::new(first),
                        second: Box::new(second),
                    }
                },
            },
            None => NodeSnapshot::Frame {
                id: String::from_str("invalid"),
                windows: Vec::new(),
                focused_tab: 0,
                geometry: None,
            },
        }
    }

    /// The tree as reported to IPC clients, with each frame's rectangle
    /// where `geometries` gives one.
    pub fn snapshot(&self, geometries: Option<&[(NodeId, Rect)]>) -> (r: LayoutSnapshot)
        requires
            self.wf(),
        ensures
            snapshot_matches(r.root, self.entries(), self.root, geoms_view(geometries), self.ranks()[self.root] + 1),
    {
        proof {
            assert(node_links_ok(self.entries(), self.rank@, self.root, self.root));
        }
        LayoutSnapshot { root: self.snapshot_node(self.root, geometries) }
    }

    /// The focused frame's id, as text for IPC.
    pub fn focused_frame_id(&self) -> (r: String)
        ensures
            r@ == node_id_text(self.focused),
    {
        node_id_string(self.focused)
    }
}

/// More fuel than a subtree's rank does not change what its snapshot is.
proof fn lemma_snapshot_fuel(s: NodeSnapshot, m: Map<NodeId, NodeEntry>, rk: Map<NodeId, nat>, root: NodeId, id: NodeId, geoms: Option<Seq<(NodeId, Rect)>>, fuel: nat, more: nat)
    requires
        tree_shape_wf(m, root, rk),
        m.contains_key(id),
        rk[id] < fuel <= more,
        snapshot_matches(s, m, id, geoms, fuel),
    ensures
        snapshot_matches(s, m, id, geoms, more),
    decreases fuel,
{
    assert(node_links_ok(m, rk, root, id));
    match m[id].node {
        Node::Frame(_) => {},
        Node::Split(sp) => {
            match s {
                NodeSnapshot::Split { first, second, .. } => {
                    lemma_snapshot_fuel(*first, m, rk, root, sp.first, geoms, (fuel - 1) as nat, (more - 1) as nat);
                    lemma_snapshot_fuel(*second, m, rk, root, sp.second, geoms, (fuel - 1) as nat, (more - 1) as nat);
                },
                _ => {},
            }
        },
    }
}


impl LayoutTree {
    /// Focuses frame `id`, if the tree holds a frame under it; says whether
    /// it did.
    pub fn focus_frame(&mut self, id: NodeId) -> (r: bool)
        requires
            old(self).wf(),
        ensures
            final(self).wf(),
            final(self).entries() == old(self).entries(),
            final(self).root == old(self).root,
            final(self).walk_order() == old(self).walk_order(),
            final(self).frames() == old(self).frames(),
            r == is_frame(old(self).entries(), id),
            final(self).focused == if r { id } else { old(self).focused },
    {
        let ok = match self.get(id) {
            Some(Node::Frame(_)) => true,
            _ => false,
        };
        if ok {
            self.focused = id;
        }
        ok
    }

    /// Focuses the frame that holds `window` (the first in walking order),
    /// if any; gives that frame.
    pub fn focus_window_frame(&mut self, window: Window) -> (r: Option<NodeId>)
        requires
            old(self).wf(),
        ensures
            final(self).wf(),
            final(self).entries() == old(self).entries(),
            final(self).root == old(self).root,
            r == first_holding(old(self).entries(), old(self).walk_order(), window),
            r matches Some(k) ==> frame_holds(old(self).entries(), k, window),
            r is None <==> forall|k: NodeId| !frame_holds(old(self).entries(), k, window),
            final(self).walk_order() == old(self).walk_order(),
            final(self).order_ok(),
            final(self).focused == match r {
                Some(f) => f,
                None => old(self).focused,
            },
    {
        let found = self.find_window(window);
        match found {
            Some(f) => {
                proof {
                    lemma_first_holding_is_frame(self.entries(), self.walk_order(), window);
                }
                self.focused = f;
            },
            None => {},
        }
        found
    }
}

proof fn lemma_first_holding_is_holding(m: Map<NodeId, NodeEntry>, order: Seq<NodeId>, w: Window)
    ensures
        first_holding(m, order, w) matches Some(k) ==> frame_holds(m, k, w),
    decreases order.len(),
{
    if order.len() > 0 {
        lemma_first_holding_is_holding(m, order.drop_first(), w);
    }
}

proof fn lemma_first_holding_is_frame(m: Map<NodeId, NodeEntry>, order: Seq<NodeId>, w: Window)
    ensures
        first_holding(m, order, w) matches Some(k) ==> is_frame(m, k),
    decreases order.len(),
{
    if order.len() > 0 {
        lemma_first_holding_is_frame(m, order.drop_first(), w);
    }
}

} // verus!
