//! Applications to start when the window manager comes up, and the
//! startup layouts they are placed in.
use crate::config::{parse_u32_from, radix_u32, FrameConfig, LayoutNodeConfig, SplitDirectionConfig, StartupConfig, WorkspaceStartup};
use crate::layout::{
    clamp_ratio, node_links_ok, entries_same_except, insert_after, is_frame, lemma_frame_seq_frames, lemma_insert_after_concat,
    lemma_insert_after_single, replace_child, split_entries_ok, LayoutTree, Node, NodeEntry, NodeId, Split, SplitDirection,
};
use crate::workspaces::{Workspace, NUM_WORKSPACES};
use vstd::prelude::*;

verus! {

/// An application waiting to be started.
pub struct PendingSpawn {
    /// The command to run
    pub command: String,
    /// Target workspace index (0-based)
    pub workspace_idx: usize,
    /// Target frame within that workspace
    pub frame_id: NodeId,
    /// Target frame's name, for logging
    pub frame_name: Option<String>,
}

impl PendingSpawn {
    /// A copy of this spawn.
    pub fn copy(&self) -> (r: PendingSpawn)
        ensures
            r == *self,
    {
        PendingSpawn {
            command: self.command.clone(),
            workspace_idx: self.workspace_idx,
            frame_id: self.frame_id,
            frame_name: copy_name(&self.frame_name),
        }
    }
}

/// The frames of a startup layout, left to right.
pub open spec fn config_frames(n: LayoutNodeConfig) -> Seq<FrameConfig>
    decreases n,
{
    match n {
        LayoutNodeConfig::Frame(f) => seq![f],
        LayoutNodeConfig::Split(s) => config_frames(*s.first) + config_frames(*s.second),
    }
}

/// How many splits a startup layout has.
pub open spec fn config_splits(n: LayoutNodeConfig) -> nat
    decreases n,
{
    match n {
        LayoutNodeConfig::Frame(_) => 0,
        LayoutNodeConfig::Split(s) => 1 + config_splits(*s.first) + config_splits(*s.second),
    }
}

/// The spawns for the applications of frame `f`, laid out as frame `id` of
/// workspace `ws`, in order.
pub open spec fn app_spawns(f: FrameConfig, id: NodeId, ws: usize) -> Seq<PendingSpawn> {
    f.apps@.map_values(|a: String| PendingSpawn { command: a, workspace_idx: ws, frame_id: id, frame_name: f.name })
}

/// The spawns for the applications of `frames`, the k-th laid out as frame
/// `ids[k]` of workspace `ws`.
pub open spec fn frame_spawns(frames: Seq<FrameConfig>, ids: Seq<NodeId>, ws: usize) -> Seq<PendingSpawn>
    decreases frames.len(),
{
    if frames.len() == 0 {
        seq![]
    } else {
        frame_spawns(frames.drop_last(), ids, ws) + app_spawns(frames.last(), ids[frames.len() - 1], ws)
    }
}

/// The layout's direction for a configured split direction.
pub open spec fn split_direction_of(d: SplitDirectionConfig) -> SplitDirection {
    match d {
        SplitDirectionConfig::Horizontal => SplitDirection::Horizontal,
        SplitDirectionConfig::Vertical => SplitDirection::Vertical,
    }
}

proof fn lemma_frame_spawns_concat(f1: Seq<FrameConfig>, f2: Seq<FrameConfig>, i1: Seq<NodeId>, i2: Seq<NodeId>, ws: usize)
    requires
        f1.len() == i1.len(),
        f2.len() <= i2.len(),
    ensures
        frame_spawns(f1 + f2, i1 + i2, ws) == frame_spawns(f1, i1, ws) + frame_spawns(f2, i2, ws),
    decreases f2.len(),
{
    if f2.len() == 0 {
        assert(f1 + f2 =~= f1);
        lemma_frame_spawns_ids(f1, i1 + i2, i1, ws);
        assert(frame_spawns(f1, i1, ws) + frame_spawns(f2, i2, ws) =~= frame_spawns(f1, i1, ws));
    } else {
        lemma_frame_spawns_concat(f1, f2.drop_last(), i1, i2, ws);
        assert((f1 + f2).drop_last() =~= f1 + f2.drop_last());
        assert((f1 + f2).last() == f2.last());
        assert((i1 + i2)[(f1 + f2).len() - 1] == i2[f2.len() - 1]);
        lemma_frame_spawns_ids(f1 + f2.drop_last(), i1 + i2, i1 + i2, ws);
    }
}

/// The spawns of `frames` depend on the ids of those frames only.
proof fn lemma_frame_spawns_ids(frames: Seq<FrameConfig>, a: Seq<NodeId>, b: Seq<NodeId>, ws: usize)
    requires
        frames.len() <= a.len(),
        frames.len() <= b.len(),
        forall|k: int| 0 <= k < frames.len() ==> a[k] == b[k],
    ensures
        frame_spawns(frames, a, ws) == frame_spawns(frames, b, ws),
    decreases frames.len(),
{
    if frames.len() > 0 {
        lemma_frame_spawns_ids(frames.drop_last(), a, b, ws);
    }
}

/// Inserting after an element that occurs once, between `pre` and `post`.
proof fn lemma_insert_after_once(pre: Seq<NodeId>, f: NodeId, post: Seq<NodeId>, n: NodeId)
    requires
        !pre.contains(f),
        !post.contains(f),
    ensures
        insert_after(pre + seq![f] + post, f, n) == pre + seq![f, n] + post,
{
    lemma_insert_after_concat(pre + seq![f], post, f, n);
    lemma_insert_after_concat(pre, seq![f], f, n);
    lemma_insert_after_single(f, f, n);
    lemma_insert_after_absent(pre, f, n);
    lemma_insert_after_absent(post, f, n);
}

proof fn lemma_insert_after_absent(s: Seq<NodeId>, f: NodeId, n: NodeId)
    requires
        !s.contains(f),
    ensures
        insert_after(s, f, n) == s,
    decreases s.len(),
{
    if s.len() > 0 {
        assert(!s.drop_last().contains(f)) by {
            if s.drop_last().contains(f) {
                let j = choose|j: int| 0 <= j < s.drop_last().len() && s.drop_last()[j] == f;
                assert(s[j] == f);
            }
        }
        lemma_insert_after_absent(s.drop_last(), f, n);
        assert(s.last() != f) by {
            assert(s[s.len() - 1] == s.last());
        }
        assert(s.drop_last() + seq![s.last()] =~= s);
    }
}

/// A copy of a frame's name.
fn copy_name(name: &Option<String>) -> (r: Option<String>)
    ensures
        r == *name,
{
    match name {
        Some(n) => Some(n.clone()),
        None => None,
    }
}

/// Appends the spawns of frame `f`, laid out as frame `id` of workspace
/// `ws`, to `out`.
fn push_app_spawns(f: &FrameConfig, id: NodeId, ws: usize, out: &mut Vec<PendingSpawn>)
    ensures
        final(out)@ == old(out)@ + app_spawns(*f, id, ws),
{
    let ghost start = out@;
    let mut i: usize = 0;
    while i < f.apps.len()
        invariant
            i <= f.apps@.len(),
            out@ == start + app_spawns(*f, id, ws).take(i as int),
        decreases f.apps@.len() - i,
    {
        let spawn = PendingSpawn {
            command: f.apps[i].clone(),
            workspace_idx: ws,
            frame_id: id,
            frame_name: copy_name(&f.name),
        };
        out.push(spawn);
        assert(app_spawns(*f, id, ws).take(i + 1) =~= app_spawns(*f, id, ws).take(i as int).push(spawn));
        i = i + 1;
    }
    assert(app_spawns(*f, id, ws).take(i as int) =~= app_spawns(*f, id, ws));
}

/// Splitting frame `f`, which occurs once between `pre` and `post`, puts a
/// new frame `n` right after it, and the frames stay distinct.
proof fn lemma_split_slot(pre: Seq<NodeId>, f: NodeId, post: Seq<NodeId>, n: NodeId)
    requires
        (pre + seq![f] + post).no_duplicates(),
        !(pre + seq![f] + post).contains(n),
    ensures
        insert_after(pre + seq![f] + post, f, n) == pre + seq![f, n] + post,
        (pre + seq![f, n] + post).no_duplicates(),
{
    let f0 = pre + seq![f] + post;
    assert(f0[pre.len() as int] == f);
    assert(!pre.contains(f)) by {
        if pre.contains(f) {
            let j = choose|j: int| 0 <= j < pre.len() && pre[j] == f;
            assert(f0[j] == f);
        }
    }
    assert(!post.contains(f)) by {
        if post.contains(f) {
            let j = choose|j: int| 0 <= j < post.len() && post[j] == f;
            assert(f0[pre.len() + 1 + j] == f);
        }
    }
    lemma_insert_after_once(pre, f, post, n);
    let f1 = pre + seq![f, n] + post;
    assert forall|a: int, b: int| 0 <= a < b < f1.len() implies f1[a] != f1[b] by {
        let ia = if a <= pre.len() { a } else { a - 1 };
        let ib = if b <= pre.len() { b } else { b - 1 };
        if a == pre.len() + 1 {
            assert(f0[ib] == f1[b]);
            assert(f0.contains(f1[b]));
        } else if b == pre.len() + 1 {
            assert(f0[ia] == f1[a]);
            assert(f0.contains(f1[a]));
        } else {
            assert(f0[ia] == f1[a]);
            assert(f0[ib] == f1[b]);
        }
    }
}

/// A startup layout has at least one frame.
proof fn lemma_config_frames_nonempty(n: LayoutNodeConfig)
    ensures
        config_frames(n).len() >= 1,
    decreases n,
{
    if let LayoutNodeConfig::Split(s) = n {
        lemma_config_frames_nonempty(*s.first);
        lemma_config_frames_nonempty(*s.second);
    }
}

/// Regrouping the frames around a split frame `f` and its new sibling `n`.
proof fn lemma_regroup(pre: Seq<NodeId>, f: NodeId, n: NodeId, post: Seq<NodeId>)
    ensures
        pre + seq![f, n] + post == pre + seq![f] + (seq![n] + post),
        (pre + seq![f, n] + post)[pre.len() as int] == f,
{
    assert(pre + seq![f, n] + post =~= pre + seq![f] + (seq![n] + post));
}

/// Regrouping the frames once the first part of a split is laid out.
proof fn lemma_regroup2(pre: Seq<NodeId>, ids: Seq<NodeId>, n: NodeId, post: Seq<NodeId>)
    ensures
        pre + ids + (seq![n] + post) == (pre + ids) + seq![n] + post,
        (pre + ids + (seq![n] + post))[(pre.len() + ids.len()) as int] == n,
{
    assert(pre + ids + (seq![n] + post) =~= (pre + ids) + seq![n] + post);
}

/// Joining the frames of a split's two parts.
proof fn lemma_join(pre: Seq<NodeId>, a: Seq<NodeId>, b: Seq<NodeId>, post: Seq<NodeId>)
    requires
        a.len() > 0,
    ensures
        (pre + a) + b + post == pre + (a + b) + post,
        (a + b)[0] == a[0],
        b.len() > 0 ==> (a + b).last() == b.last(),
{
    assert((pre + a) + b + post =~= pre + (a + b) + post);
}

/// The spawns of a split are those of its first part, then of its second.
proof fn lemma_split_spawns(node: LayoutNodeConfig, a: Seq<NodeId>, b: Seq<NodeId>, ws: usize)
    requires
        node is Split,
        a.len() == config_frames(*node->Split_0.first).len(),
        b.len() == config_frames(*node->Split_0.second).len(),
    ensures
        config_frames(node).len() == a.len() + b.len(),
        frame_spawns(config_frames(node), a + b, ws) == frame_spawns(config_frames(*node->Split_0.first), a, ws)
            + frame_spawns(config_frames(*node->Split_0.second), b, ws),
{
    let s = node->Split_0;
    lemma_frame_spawns_concat(config_frames(*s.first), config_frames(*s.second), a, b, ws);
}

/// Node `id` of `m` has the shape of startup layout `node`: a frame for a
/// frame, and for a split a split node with its direction, its ratio (kept
/// within the allowed bounds) and children shaped as its parts.
pub open spec fn shaped(m: Map<NodeId, NodeEntry>, id: NodeId, node: LayoutNodeConfig) -> bool
    decreases node,
{
    match node {
        LayoutNodeConfig::Frame(_) => is_frame(m, id),
        LayoutNodeConfig::Split(s) => {
            &&& m.contains_key(id)
            &&& m[id].node is Split
            &&& m[id].node->Split_0.direction == split_direction_of(s.direction)
            &&& m[id].node->Split_0.ratio == clamp_ratio(s.ratio as int)
            &&& shaped(m, m[id].node->Split_0.first, *s.first)
            &&& shaped(m, m[id].node->Split_0.second, *s.second)
        },
    }
}

/// The nodes of `m` that `shaped(m, id, node)` looks at.
pub open spec fn shape_nodes(m: Map<NodeId, NodeEntry>, id: NodeId, node: LayoutNodeConfig) -> Set<NodeId>
    decreases node,
{
    match node {
        LayoutNodeConfig::Frame(_) => set![id],
        LayoutNodeConfig::Split(s) => set![id].union(shape_nodes(m, m[id].node->Split_0.first, *s.first)).union(
            shape_nodes(m, m[id].node->Split_0.second, *s.second),
        ),
    }
}

/// A shape stays when the nodes it looks at stay.
proof fn lemma_shaped_frame(m1: Map<NodeId, NodeEntry>, m2: Map<NodeId, NodeEntry>, id: NodeId, node: LayoutNodeConfig)
    requires
        shaped(m1, id, node),
        forall|k: NodeId| #[trigger] shape_nodes(m1, id, node).contains(k) ==> m2.contains_key(k) && m2[k] == m1[k],
    ensures
        shaped(m2, id, node),
        shape_nodes(m2, id, node) == shape_nodes(m1, id, node),
        forall|k: NodeId| #[trigger] shape_nodes(m1, id, node).contains(k) ==> m1.contains_key(k),
    decreases node,
{
    assert(shape_nodes(m1, id, node).contains(id));
    assert(m2[id] == m1[id]);
    if let LayoutNodeConfig::Split(s) = node {
        let sp = m1[id].node->Split_0;
        assert forall|k: NodeId| #[trigger] shape_nodes(m1, sp.first, *s.first).contains(k) implies m2.contains_key(k)
            && m2[k] == m1[k] by {
            assert(shape_nodes(m1, id, node).contains(k));
        }
        assert forall|k: NodeId| #[trigger] shape_nodes(m1, sp.second, *s.second).contains(k) implies m2.contains_key(k)
            && m2[k] == m1[k] by {
            assert(shape_nodes(m1, id, node).contains(k));
        }
        lemma_shaped_frame(m1, m2, sp.first, *s.first);
        lemma_shaped_frame(m1, m2, sp.second, *s.second);
        assert(m2[id].node->Split_0 == sp);
        assert(shape_nodes(m2, id, node) =~= shape_nodes(m1, id, node));
    }
}

/// The nodes a shape looks at are nodes of the map.
proof fn lemma_shape_nodes_in(m: Map<NodeId, NodeEntry>, id: NodeId, node: LayoutNodeConfig)
    requires
        shaped(m, id, node),
    ensures
        forall|k: NodeId| #[trigger] shape_nodes(m, id, node).contains(k) ==> m.contains_key(k),
        shape_nodes(m, id, node).contains(id),
    decreases node,
{
    if let LayoutNodeConfig::Split(s) = node {
        let sp = m[id].node->Split_0;
        lemma_shape_nodes_in(m, sp.first, *s.first);
        lemma_shape_nodes_in(m, sp.second, *s.second);
    }
}

/// What laying out the focused frame `f` of `m0` as `node` leaves in `m1`,
/// the described layout now standing at `top`: the shape, its nodes (`f`
/// and new ones), its parent link, and every other node as it was.
pub open spec fn built_in_place(m0: Map<NodeId, NodeEntry>, m1: Map<NodeId, NodeEntry>, f: NodeId, top: NodeId, node: LayoutNodeConfig) -> bool {
    &&& shaped(m1, top, node)
    &&& forall|k: NodeId| #[trigger] shape_nodes(m1, top, node).contains(k) ==> k == f || !m0.contains_key(k)
    &&& m1[top].parent == m0[f].parent
    &&& m0[f].parent matches Some(p) ==> m1[p] == NodeEntry {
        node: Node::Split(replace_child(m0[p].node->Split_0, f, top)),
        parent: m0[p].parent,
    }
    &&& forall|k: NodeId| #[trigger] m0.contains_key(k) ==> m1.contains_key(k)
    &&& forall|k: NodeId| #[trigger] m0.contains_key(k) && k != f && Some(k) != m0[f].parent ==> m1[k] == m0[k]
}

/// The steps of laying out a split in place of frame `f`: the split `sp`
/// with children `f` and `n` (entries `ma`), its ratio set (`mb`), its first
/// part laid out at `f` (`mc`), then its second at `n` (`md`).
proof fn lemma_split_shape(
    m0: Map<NodeId, NodeEntry>,
    ma: Map<NodeId, NodeEntry>,
    mb: Map<NodeId, NodeEntry>,
    mc: Map<NodeId, NodeEntry>,
    md: Map<NodeId, NodeEntry>,
    f: NodeId,
    n: NodeId,
    sp: NodeId,
    top1: NodeId,
    top2: NodeId,
    node: LayoutNodeConfig,
)
    requires
        node is Split,
        m0.contains_key(f),
        m0[f].parent matches Some(p) ==> m0.contains_key(p),
        split_entries_ok(m0, ma, f, split_direction_of(node->Split_0.direction), n, sp),
        entries_same_except(ma, mb, sp),
        mb[sp].node == Node::Split(Split { ratio: clamp_ratio(node->Split_0.ratio as int), ..ma[sp].node->Split_0 }),
        built_in_place(mb, mc, f, top1, *node->Split_0.first),
        built_in_place(mc, md, n, top2, *node->Split_0.second),
    ensures
        built_in_place(m0, md, f, sp, node),
{
    let s = node->Split_0;
    let p0 = m0[f].parent;
    assert(ma[f].parent == Some(sp));
    assert(ma.contains_key(f) && f != sp);
    assert(mb[f].parent == Some(sp));
    assert(mb.contains_key(n) && mb[n].parent == Some(sp));
    assert(mc[n] == mb[n]);
    assert(mc[n].parent == Some(sp));
    // the first part stays while the second is laid out
    assert forall|k: NodeId| #[trigger] shape_nodes(mc, top1, *s.first).contains(k) implies md.contains_key(k) && md[k]
        == mc[k] by {
        lemma_shape_nodes_in(mc, top1, *s.first);
        assert(k == f || !mb.contains_key(k));
        assert(mc.contains_key(k));
        assert(k != n);
        assert(k != sp);
    }
    lemma_shaped_frame(mc, md, top1, *s.first);
    let spd = md[sp].node->Split_0;
    assert(mc[sp].node == Node::Split(replace_child(mb[sp].node->Split_0, f, top1)));
    assert(md[sp].node == Node::Split(replace_child(mc[sp].node->Split_0, n, top2)));
    assert(top1 != n) by {
        lemma_shape_nodes_in(mc, top1, *s.first);
    }
    let spa = ma[sp].node->Split_0;
    assert(spa.first == f && spa.second == n && spa.direction == split_direction_of(s.direction));
    let spb = mb[sp].node->Split_0;
    assert(spb.first == f && spb.second == n && spb.direction == spa.direction);
    assert(spb.ratio == clamp_ratio(s.ratio as int));
    let spc = mc[sp].node->Split_0;
    assert(spc == replace_child(spb, f, top1));
    assert(spc.first == top1 && spc.second == n && spc.direction == spa.direction && spc.ratio == spb.ratio);
    assert(spd == replace_child(spc, n, top2));
    assert(spd.first == top1 && spd.second == top2);
    assert(spd.direction == split_direction_of(s.direction) && spd.ratio == clamp_ratio(s.ratio as int));
    assert(ma.dom() == m0.dom().insert(n).insert(sp));
    assert(ma.dom().contains(sp));
    assert(mb.dom() == ma.dom());
    assert(mb.contains_key(sp));
    assert(mc.contains_key(sp));
    assert(md.contains_key(sp));
    assert(shaped(md, top1, *s.first));
    assert(shaped(md, top2, *s.second));
    assert(shaped(md, sp, node));
    assert forall|k: NodeId| #[trigger] shape_nodes(md, sp, node).contains(k) implies k == f || !m0.contains_key(k) by {
        if shape_nodes(md, top1, *s.first).contains(k) {
            assert(k == f || !mb.contains_key(k));
        } else if shape_nodes(md, top2, *s.second).contains(k) {
            assert(k == n || !mc.contains_key(k));
        }
    }
    assert(md[sp].parent == m0[f].parent);
    assert forall|k: NodeId| #[trigger] m0.contains_key(k) implies md.contains_key(k) by {
        assert(ma.dom().contains(k));
        assert(mb.contains_key(k));
        assert(mc.contains_key(k));
    }
    assert forall|k: NodeId| #[trigger] m0.contains_key(k) && k != f && Some(k) != p0 implies md[k] == m0[k] by {
        assert(ma[k] == m0[k]);
        assert(k != sp && k != n);
        assert(ma.dom().contains(k));
        assert(mb[k] == ma[k]);
        assert(mb.contains_key(k));
        assert(mc[k] == mb[k]);
        assert(mc.contains_key(k));
        assert(md[k] == mc[k]);
    }
    if let Some(p) = p0 {
        assert(p != sp);
        assert(ma.contains_key(p));
        assert(mb[p] == ma[p]);
        assert(mc[p] == mb[p]);
        assert(md[p] == mc[p]);
    }
}

/// The frames of both parts of a split are empty once the second part is
/// laid out (`mc` to `md`), when they were before.
proof fn lemma_parts_empty(
    mc: Map<NodeId, NodeEntry>,
    md: Map<NodeId, NodeEntry>,
    pre: Seq<NodeId>,
    a: Seq<NodeId>,
    b: Seq<NodeId>,
    n: NodeId,
    post: Seq<NodeId>,
    sp: NodeId,
    top: NodeId,
    second: LayoutNodeConfig,
)
    requires
        (pre + a + (seq![n] + post)).no_duplicates(),
        forall|j: int| 0 <= j < (pre + a + (seq![n] + post)).len() ==> mc.contains_key(#[trigger] (pre + a + (seq![n] + post))[j])
            && mc[(pre + a + (seq![n] + post))[j]].node is Frame,
        forall|i: int| 0 <= i < a.len() ==> (#[trigger] mc[a[i]]).node->Frame_0.windows@.len() == 0,
        forall|i: int| 0 <= i < b.len() ==> (#[trigger] md[b[i]]).node->Frame_0.windows@.len() == 0,
        built_in_place(mc, md, n, top, second),
        mc[n].parent == Some(sp),
        mc.contains_key(sp) && mc[sp].node is Split,
    ensures
        forall|i: int| 0 <= i < (a + b).len() ==> (#[trigger] md[(a + b)[i]]).node->Frame_0.windows@.len() == 0,
{
    let fc = pre + a + (seq![n] + post);
    assert forall|i: int| 0 <= i < (a + b).len() implies (#[trigger] md[(a + b)[i]]).node->Frame_0.windows@.len() == 0 by {
        if i < a.len() {
            let k = a[i];
            assert(fc[pre.len() + i] == k);
            assert(fc[(pre.len() + a.len()) as int] == n);
            assert(k != n);
            assert(mc.contains_key(k) && mc[k].node is Frame);
            assert(k != sp);
            assert(md[k] == mc[k]);
            assert((a + b)[i] == k);
        } else {
            assert((a + b)[i] == b[i - a.len()]);
        }
    }
}

/// Lays out the focused frame of `layout`, which sits between the frames
/// `pre` and `post`, as `node` describes, splitting it as needed; the
/// described frames' applications are appended to `out`. Gives the frames
/// that took the place of the focused one, left to right.
#[verifier::rlimit(80)]
#[verifier::spinoff_prover]
fn build_into(
    layout: &mut LayoutTree,
    node: &LayoutNodeConfig,
    ws: usize,
    out: &mut Vec<PendingSpawn>,
    Ghost(pre): Ghost<Seq<NodeId>>,
    Ghost(post): Ghost<Seq<NodeId>>,
) -> (res: Ghost<(Seq<NodeId>, NodeId)>)
    requires
        old(layout).wf(),
        old(layout).frames() == pre + seq![old(layout).focused] + post,
        old(layout).frames().no_duplicates(),
        old(layout).entries().dom().len() + 2 * config_splits(*node) + 2 < u32::MAX,
        old(layout).spec_focused_frame().windows@.len() == 0,
    ensures
        final(layout).wf(),
        res@.0.len() == config_frames(*node).len(),
        forall|i: int| 0 <= i < res@.0.len() ==> (#[trigger] final(layout).frame_at(res@.0[i])).windows@.len() == 0,
        res@.0[0] == old(layout).focused,
        final(layout).frames() == pre + res@.0 + post,
        final(layout).focused == res@.0.last(),
        final(layout).frames().no_duplicates(),
        final(layout).entries().dom().len() == old(layout).entries().dom().len() + 2 * config_splits(*node),
        final(out)@ == old(out)@ + frame_spawns(config_frames(*node), res@.0, ws),
        built_in_place(old(layout).entries(), final(layout).entries(), old(layout).focused, res@.1, *node),
        final(layout).root == if old(layout).entries()[old(layout).focused].parent is None {
            res@.1
        } else {
            old(layout).root
        },
    decreases node,
{
    let slot = layout.focused;
    let ghost m0 = layout.entries();
    proof {
        assert(node_links_ok(m0, layout.ranks(), layout.root, slot));
    }
    match node {
        LayoutNodeConfig::Frame(f) => {
            push_app_spawns(f, slot, ws, out);
            let ghost ids = seq![slot];
            proof {
                assert(config_frames(*node) == seq![*f]);
                assert(seq![*f].drop_last() =~= Seq::<FrameConfig>::empty());
                assert(frame_spawns(Seq::<FrameConfig>::empty(), ids, ws) == Seq::<PendingSpawn>::empty());
                assert(frame_spawns(seq![*f], ids, ws) == frame_spawns(Seq::<FrameConfig>::empty(), ids, ws)
                    + app_spawns(*f, slot, ws));
                assert(frame_spawns(seq![*f], ids, ws) =~= app_spawns(*f, slot, ws));
                assert(pre + ids + post =~= pre + seq![slot] + post);
                assert(shape_nodes(m0, slot, *node) =~= set![slot]);
                if let Some(p) = m0[slot].parent {
                    let ps = m0[p].node->Split_0;
                    assert(replace_child(ps, slot, slot) == ps);
                }
            }
            Ghost((ids, slot))
        },
        LayoutNodeConfig::Split(s) => {
            let ghost f0 = layout.frames();
            proof {
                lemma_frame_seq_frames(m0, layout.root, layout.ranks()[layout.root] + 1);
            }
            let direction = match s.direction {
                SplitDirectionConfig::Horizontal => SplitDirection::Horizontal,
                SplitDirectionConfig::Vertical => SplitDirection::Vertical,
            };
            let new = layout.split_focused(direction);
            let ghost ma = layout.entries();
            let ghost sid = ma[new].parent->0;
            proof {
                assert(!f0.contains(new)) by {
                    if f0.contains(new) {
                        let j = choose|j: int| 0 <= j < f0.len() && f0[j] == new;
                        assert(m0.contains_key(f0[j]));
                    }
                }
                lemma_split_slot(pre, slot, post, new);
            }
            let parent = layout.parent(new);
            if let Some(split_id) = parent {
                layout.set_split_ratio(split_id, s.ratio);
            }
            let ghost mb = layout.entries();
            proof {
                lemma_frame_seq_frames(layout.entries(), layout.root, layout.ranks()[layout.root] + 1);
                lemma_regroup(pre, slot, new, post);
                assert(layout.frames()[pre.len() as int] == slot);
                assert(ma.dom().contains(slot) && slot != sid);
                assert(mb[slot] == ma[slot]);
                assert(ma.dom().contains(new) && new != sid);
                assert(mb[new] == ma[new]);
            }
            layout.focus_frame(slot);
            let r1 = build_into(layout, &s.first, ws, out, Ghost(pre), Ghost(seq![new] + post));
            let ghost mc = layout.entries();
            proof {
                lemma_frame_seq_frames(layout.entries(), layout.root, layout.ranks()[layout.root] + 1);
                lemma_regroup2(pre, r1@.0, new, post);
                assert(layout.frames()[(pre.len() + r1@.0.len()) as int] == new);
                assert(mb.contains_key(new) && new != slot && new != sid);
                assert(mc[new] == mb[new]);
                assert(mc[sid].node is Split);
                assert forall|i: int| 0 <= i < r1@.0.len() implies (#[trigger] mc[r1@.0[i]]).node->Frame_0.windows@.len() == 0 by {
                    assert(layout.frame_at(r1@.0[i]).windows@.len() == 0);
                }
            }
            layout.focus_frame(new);
            let r2 = build_into(layout, &s.second, ws, out, Ghost(pre + r1@.0), Ghost(post));
            let ghost ids = r1@.0 + r2@.0;
            proof {
                assert forall|i: int| 0 <= i < r2@.0.len() implies (#[trigger] layout.entries()[r2@.0[i]]).node->Frame_0.windows@.len() == 0 by {
                    assert(layout.frame_at(r2@.0[i]).windows@.len() == 0);
                }
                lemma_frame_seq_frames(mc, layout.root, layout.ranks()[layout.root] + 1);
                lemma_parts_empty(mc, layout.entries(), pre, r1@.0, r2@.0, new, post, sid, r2@.1, *s.second);
                lemma_config_frames_nonempty(*s.first);
                lemma_config_frames_nonempty(*s.second);
                lemma_join(pre, r1@.0, r2@.0, post);
                lemma_split_spawns(*node, r1@.0, r2@.0, ws);
                lemma_split_shape(m0, ma, mb, mc, layout.entries(), slot, new, sid, r1@.1, r2@.1, *node);
            }
            Ghost((ids, sid))
        },
    }
}

/// The workspace index that a startup entry's key names: "1" to "9", read
/// as Rust reads an unsigned number, name workspaces 0 to 8.
pub open spec fn startup_target(key: Seq<char>) -> Option<usize> {
    match radix_u32(key, 10) {
        Some(n) => if 1 <= n && n <= NUM_WORKSPACES {
            Some((n - 1) as usize)
        } else {
            None
        },
        None => None,
    }
}

/// The spawns of startup entry `e`, its frames laid out as `ids`; none for
/// a key that names no workspace.
pub open spec fn entry_spawns(e: (String, WorkspaceStartup), ids: Seq<NodeId>) -> Seq<PendingSpawn> {
    match startup_target(e.0@) {
        Some(w) => frame_spawns(config_frames(e.1.layout), ids, w),
        None => seq![],
    }
}

/// The spawns of the startup entries `es`, in order, the frames of entry
/// `j` laid out as `idss[j]`.
pub open spec fn all_spawns(es: Seq<(String, WorkspaceStartup)>, idss: Seq<Seq<NodeId>>) -> Seq<PendingSpawn>
    decreases es.len(),
{
    if es.len() == 0 {
        seq![]
    } else {
        all_spawns(es.drop_last(), idss) + entry_spawns(es.last(), idss[es.len() - 1])
    }
}

/// The last of the entries `es` that names workspace `w`.
pub open spec fn last_entry_for(es: Seq<(String, WorkspaceStartup)>, w: int) -> Option<int>
    decreases es.len(),
{
    if es.len() == 0 {
        None
    } else if startup_target(es.last().0@) == Some(w as usize) && 0 <= w {
        Some(es.len() - 1)
    } else {
        last_entry_for(es.drop_last(), w)
    }
}

/// Workspace `now` is `before` with a fresh layout shaped as `node` (splits
/// with its directions and ratios, frames where it has frames): its frames,
/// left to right, are `ids`, one per frame of `node`, all without windows,
/// and the last of them has the focus.
pub open spec fn laid_out(now: Workspace, before: Workspace, node: LayoutNodeConfig, ids: Seq<NodeId>) -> bool {
    &&& now.id == before.id
    &&& now.last_focused_window == before.last_focused_window
    &&& now.floating_windows == before.floating_windows
    &&& now.layout.wf()
    &&& shaped(now.layout.entries(), now.layout.root, node)
    &&& now.layout.frames() == ids
    &&& forall|i: int| 0 <= i < ids.len() ==> (#[trigger] now.layout.frame_at(ids[i])).windows@.len() == 0
    &&& ids.len() == config_frames(node).len()
    &&& now.layout.focused == ids.last()
}

/// Applying the startup entries `es` to workspaces `before` gave the spawns
/// `r` and the workspaces `after`, entry `j`'s frames being laid out as
/// `idss[j]`: each workspace that an entry names is laid out as the last
/// such entry says, and the others stay as they were.
pub open spec fn startup_result(
    es: Seq<(String, WorkspaceStartup)>,
    idss: Seq<Seq<NodeId>>,
    r: Seq<PendingSpawn>,
    before: Seq<Workspace>,
    after: Seq<Workspace>,
) -> bool {
    &&& idss.len() == es.len()
    &&& after.len() == before.len()
    &&& r == all_spawns(es, idss)
    &&& forall|w: int|
        0 <= w < before.len() ==> match #[trigger] last_entry_for(es, w) {
            Some(j) => laid_out(after[w], before[w], es[j].1.layout, idss[j]),
            None => after[w] == before[w],
        }
}

/// Every startup layout fits in a layout tree's arena.
pub open spec fn startup_fits(es: Seq<(String, WorkspaceStartup)>) -> bool {
    forall|i: int| 0 <= i < es.len() ==> config_splits(#[trigger] es[i].1.layout) < 0x7fff_0000
}

/// One more startup entry applied keeps `startup_result`.
proof fn lemma_startup_step(
    es: Seq<(String, WorkspaceStartup)>,
    i: int,
    idss: Seq<Seq<NodeId>>,
    prev: Seq<Workspace>,
    now: Seq<Workspace>,
    before: Seq<Workspace>,
    all_old: Seq<PendingSpawn>,
    all_new: Seq<PendingSpawn>,
)
    requires
        0 <= i < es.len(),
        idss.len() == i + 1,
        before.len() == NUM_WORKSPACES,
        startup_result(es.take(i), idss.drop_last(), all_old, before, prev),
        all_new == all_old + entry_spawns(es[i], idss[i]),
        now.len() == prev.len(),
        match startup_target(es[i].0@) {
            Some(w) => {
                &&& 0 <= w < prev.len()
                &&& now[w as int].id == prev[w as int].id
                &&& now[w as int].last_focused_window == prev[w as int].last_focused_window
                &&& now[w as int].floating_windows == prev[w as int].floating_windows
                &&& now[w as int].layout.wf()
                &&& shaped(now[w as int].layout.entries(), now[w as int].layout.root, es[i].1.layout)
                &&& now[w as int].layout.frames() == idss[i]
                &&& forall|k: int| 0 <= k < idss[i].len() ==> (#[trigger] now[w as int].layout.frame_at(idss[i][k])).windows@.len() == 0
                &&& idss[i].len() == config_frames(es[i].1.layout).len()
                &&& now[w as int].layout.focused == idss[i].last()
                &&& forall|v: int| 0 <= v < now.len() && v != w ==> now[v] == prev[v]
            },
            None => now == prev,
        },
    ensures
        startup_result(es.take(i + 1), idss, all_new, before, now),
{
    let t = es.take(i + 1);
    assert(t.drop_last() =~= es.take(i));
    assert(t.last() == es[i]);
    assert(idss.drop_last().len() == i);
    assert(all_spawns(t.drop_last(), idss) == all_spawns(es.take(i), idss.drop_last())) by {
        lemma_all_spawns_prefix(es.take(i), idss, idss.drop_last());
    }
    assert forall|w: int| 0 <= w < before.len() implies match #[trigger] last_entry_for(t, w) {
        Some(j) => laid_out(now[w], before[w], t[j].1.layout, idss[j]),
        None => now[w] == before[w],
    } by {
        let old_last = last_entry_for(es.take(i), w);
        assert(old_last == last_entry_for(t.drop_last(), w));
        lemma_last_entry_bound(es.take(i), w);
        assert(match old_last {
            Some(j) => laid_out(prev[w], before[w], es.take(i)[j].1.layout, idss.drop_last()[j]),
            None => prev[w] == before[w],
        });
        if startup_target(es[i].0@) == Some(w as usize) {
            assert(last_entry_for(t, w) == Some(i));
            let wt = startup_target(es[i].0@)->0;
            assert(wt as int == w);
            assert(t[i] == es[i]);
            assert(now[w].id == prev[w].id);
            assert(prev[w].id == before[w].id);
            assert(laid_out(now[w], before[w], t[i].1.layout, idss[i]));
        } else {
            assert(last_entry_for(t, w) == old_last);
            assert(now[w] == prev[w]);
            match old_last {
                Some(j) => {
                    assert(es.take(i)[j] == t[j]);
                    assert(idss.drop_last()[j] == idss[j]);
                },
                None => {},
            }
        }
    }
}

/// Spawns of the entries depend on the ids of those entries only.
proof fn lemma_all_spawns_prefix(es: Seq<(String, WorkspaceStartup)>, a: Seq<Seq<NodeId>>, b: Seq<Seq<NodeId>>)
    requires
        es.len() <= a.len(),
        es.len() <= b.len(),
        forall|j: int| 0 <= j < es.len() ==> a[j] == b[j],
    ensures
        all_spawns(es, a) == all_spawns(es, b),
    decreases es.len(),
{
    if es.len() > 0 {
        lemma_all_spawns_prefix(es.drop_last(), a, b);
    }
}

/// The last entry for a workspace is one of the entries.
proof fn lemma_last_entry_bound(es: Seq<(String, WorkspaceStartup)>, w: int)
    ensures
        last_entry_for(es, w) matches Some(j) ==> 0 <= j < es.len() && startup_target(es[j].0@) == Some(w as usize),
    decreases es.len(),
{
    if es.len() > 0 {
        lemma_last_entry_bound(es.drop_last(), w);
    }
}

/// How many splits `node` has, or `cap` if that many or more.
fn count_splits(node: &LayoutNodeConfig, cap: u64) -> (r: u64)
    requires
        cap <= 0x7fff_0000,
    ensures
        r == if config_splits(*node) < cap {
            config_splits(*node)
        } else {
            cap as nat
        },
    decreases node,
{
    match node {
        LayoutNodeConfig::Frame(_) => 0,
        LayoutNodeConfig::Split(s) => {
            let a = count_splits(&s.first, cap);
            if a >= cap {
                return cap;
            }
            let b = count_splits(&s.second, cap);
            let t = 1 + a + b;
            if t >= cap {
                cap
            } else {
                t
            }
        },
    }
}

/// Whether every startup layout fits in a layout tree's arena, as
/// `apply_config` needs.
pub fn startup_fits_check(config: &StartupConfig) -> (r: bool)
    ensures
        r == startup_fits(config.workspace@),
{
    let mut i: usize = 0;
    while i < config.workspace.len()
        invariant
            i <= config.workspace@.len(),
            forall|j: int| 0 <= j < i ==> config_splits(#[trigger] config.workspace@[j].1.layout) < 0x7fff_0000,
        decreases config.workspace@.len() - i,
    {
        if count_splits(&config.workspace[i].1.layout, 0x7fff_0000) >= 0x7fff_0000 {
            return false;
        }
        i = i + 1;
    }
    true
}

/// The applications still to start, and whether the startup phase is over.
pub struct StartupManager {
    pub pending_spawns: Vec<PendingSpawn>,
    pub startup_complete: bool,
}

impl StartupManager {
    /// Nothing pending; startup not complete.
    pub fn new() -> (r: Self)
        ensures
            r.pending_spawns@.len() == 0,
            !r.startup_complete,
    {
        StartupManager { pending_spawns: Vec::new(), startup_complete: false }
    }

    /// Lays out the workspaces that the startup configuration names, each
    /// afresh as its entry describes, entry after entry, and gives the
    /// applications to start, which also become the pending ones. Entries
    /// whose key names no workspace ("1" to "9") are skipped. The frame
    /// ids of an entry whose workspace a later entry lays out again are
    /// those of the layout that was replaced.
    pub fn apply_config(&mut self, config: &StartupConfig, workspaces: &mut [Workspace; NUM_WORKSPACES]) -> (r: Vec<PendingSpawn>)
        requires
            startup_fits(config.workspace@),
        ensures
            exists|idss: Seq<Seq<NodeId>>| startup_result(config.workspace@, idss, r@, old(workspaces)@, final(workspaces)@),
            final(self).pending_spawns@ == r@,
            final(self).startup_complete == old(self).startup_complete,
    {
        let ghost es = config.workspace@;
        let ghost before = workspaces@;
        let mut all: Vec<PendingSpawn> = Vec::new();
        let ghost mut idss: Seq<Seq<NodeId>> = seq![];
        let mut i: usize = 0;
        proof {
            assert(es.take(0) =~= Seq::<(String, WorkspaceStartup)>::empty());
        }
        while i < config.workspace.len()
            invariant
                es == config.workspace@,
                i <= es.len(),
                startup_fits(es),
                before.len() == NUM_WORKSPACES,
                startup_result(es.take(i as int), idss, all@, before, workspaces@),
            decreases es.len() - i,
        {
            let entry = &config.workspace[i];
            let target = parse_u32_from(entry.0.as_str(), 0, 10);
            let ghost prev = workspaces@;
            let ghost all_old = all@;
            let ghost mut ids: Seq<NodeId> = seq![];
            proof {
                assert(entry.0@.subrange(0, entry.0@.len() as int) =~= entry.0@);
                assert(es.take(i + 1).drop_last() =~= es.take(i as int));
                assert(es.take(i + 1).last() == es[i as int]);
            }
            match target {
                Some(n) => {
                    if 1 <= n && n <= 9 {
                        let idx = (n - 1) as usize;
                        let mut layout = LayoutTree::new();
                        proof {
                            assert(seq![layout.focused] =~= Seq::<NodeId>::empty() + seq![layout.focused] + Seq::<NodeId>::empty());
                            assert(layout.entries().dom().len() == 1) by {
                                assert(layout.entries().dom() =~= set![layout.root]);
                            }
                        }
                        let built = build_into(&mut layout, &entry.1.layout, idx, &mut all, Ghost(Seq::<NodeId>::empty()), Ghost(Seq::<NodeId>::empty()));
                        proof {
                            ids = built@.0;
                            assert(Seq::<NodeId>::empty() + ids + Seq::<NodeId>::empty() =~= ids);
                        }
                        workspaces[idx].layout = layout;
                    }
                },
                None => {},
            }
            proof {
                let idss_old = idss;
                idss = idss.push(ids);
                assert(idss.drop_last() =~= idss_old);
                lemma_startup_step(es, i as int, idss, prev, workspaces@, before, all_old, all@);
            }
            i = i + 1;
        }
        proof {
            assert(es.take(i as int) =~= es);
        }
        let mut pending: Vec<PendingSpawn> = Vec::new();
        let mut k: usize = 0;
        while k < all.len()
            invariant
                k <= all@.len(),
                pending@ == all@.take(k as int),
            decreases all@.len() - k,
        {
            pending.push(all[k].copy());
            assert(all@.take(k + 1) =~= all@.take(k as int).push(all@[k as int]));
            k = k + 1;
        }
        assert(all@.take(k as int) =~= all@);
        self.pending_spawns = pending;
        all
    }

    /// Hands out every pending application, in order, for the caller to
    /// start, and ends the startup phase.
    pub fn spawn_all(&mut self) -> (r: Vec<PendingSpawn>)
        ensures
            r@ == old(self).pending_spawns@,
            final(self).pending_spawns@.len() == 0,
            final(self).startup_complete,
    {
        let mut taken: Vec<PendingSpawn> = Vec::new();
        std::mem::swap(&mut taken, &mut self.pending_spawns);
        self.startup_complete = true;
        taken
    }

    /// Whether the startup phase is over.
    pub fn is_complete(&self) -> (r: bool)
        ensures
            r == self.startup_complete,
    {
        self.startup_complete
    }

    /// Ends the startup phase.
    pub fn mark_complete(&mut self)
        ensures
            final(self).startup_complete,
            final(self).pending_spawns == old(self).pending_spawns,
    {
        self.startup_complete = true;
    }
}

impl Default for StartupManager {
    fn default() -> (r: Self)
        ensures
            r.pending_spawns@.len() == 0,
            !r.startup_complete,
    {
        Self::new()
    }
}

} // verus!
