//! Monitors, each with its own workspaces, and navigation between them.
//!
//! The monitors themselves are read from RandR by the caller; this module
//! keeps them, tracks the focused one and answers where a point or a
//! direction leads.
use crate::config::str_eq;
use crate::layout::{closest_fits, closest_in_direction, closest_toward, Direction};
use crate::slots::key_is_null;
use crate::types::Rect;
use crate::workspaces::WorkspaceManager;
use slotmap::{DefaultKey, SlotMap};
use vstd::prelude::*;

verus! {

/// Unique identifier for a monitor
pub type MonitorId = DefaultKey;

/// A RandR output id
pub type Output = u32;

/// A physical monitor with its own set of workspaces
pub struct Monitor {
    /// RandR output name (e.g., "DP-1", "HDMI-0")
    pub name: String,
    /// Whether this is the primary monitor
    pub primary: bool,
    /// Position and size on the root window
    pub geometry: Rect,
    /// The monitor's nine workspaces
    pub workspaces: WorkspaceManager,
    /// RandR outputs associated with this monitor
    pub outputs: Vec<Output>,
}

impl Monitor {
    /// A monitor with fresh workspaces.
    pub fn new(name: String, primary: bool, geometry: Rect, outputs: Vec<Output>) -> (m: Self)
        ensures
            m.name == name,
            m.primary == primary,
            m.geometry == geometry,
            m.outputs == outputs,
            m.workspaces.is_fresh(),
    {
        Monitor { name, primary, geometry, workspaces: WorkspaceManager::new(), outputs }
    }
}

/// A monitor as RandR describes it.
pub struct MonitorInfo {
    pub name: String,
    pub primary: bool,
    pub geometry: Rect,
    pub outputs: Vec<Output>,
}

// ---------------------------------------------------------------------------
// The monitor arena (outside crate `slotmap`)
// ---------------------------------------------------------------------------

/// Arena storage for monitors.
#[verifier::external_body]
pub struct MonitorArena {
    slots: SlotMap<MonitorId, Monitor>,
}

/// The monitors held by an arena, by key.
pub uninterp spec fn monitor_entries(m: MonitorArena) -> Map<MonitorId, Monitor>;

/// The order in which an arena walks its keys.
pub uninterp spec fn monitor_order(m: MonitorArena) -> Seq<MonitorId>;

/// `SlotMap::with_key`: a new arena holds nothing and walks nothing.
#[verifier::external_body]
fn monitors_new() -> (m: MonitorArena)
    ensures
        monitor_entries(m).dom().is_empty(),
        monitor_order(m) == Seq::<MonitorId>::empty(),
{
    MonitorArena { slots: SlotMap::with_key() }
}

/// `SlotMap::clear`: the arena holds, and so walks, nothing afterwards.
#[verifier::external_body]
fn monitors_clear(m: &mut MonitorArena)
    ensures
        monitor_entries(*final(m)).dom().is_empty(),
        monitor_order(*final(m)) == Seq::<MonitorId>::empty(),
{
    m.slots.clear()
}

/// `SlotMap::insert`: stores the monitor under a key the arena did not hold.
/// It fills one slot, a free one or a new last one, and leaves the others
/// alone, so the new key joins the walking order at some place and the
/// other keys keep theirs. The slot's index is below `u32::MAX`, so the key
/// is never the null key. It panics only when the arena already holds
/// `u32::MAX - 1` values, which the precondition rules out.
#[verifier::external_body]
fn monitors_insert(m: &mut MonitorArena, v: Monitor) -> (k: MonitorId)
    requires
        monitor_entries(*old(m)).dom().len() + 1 < u32::MAX,
    ensures
        !monitor_entries(*old(m)).dom().contains(k),
        !key_is_null(k),
        monitor_entries(*final(m)) == monitor_entries(*old(m)).insert(k, v),
        exists|i: int| 0 <= i <= monitor_order(*old(m)).len() && monitor_order(*final(m)) == monitor_order(*old(m)).insert(i, k),
{
    m.slots.insert(v)
}

/// `SlotMap::get`: the monitor stored under the key, if any.
#[verifier::external_body]
fn monitors_get(m: &MonitorArena, k: MonitorId) -> (r: Option<&Monitor>)
    ensures
        monitor_entries(*m).dom().contains(k) ==> r == Some(&monitor_entries(*m)[k]),
        !monitor_entries(*m).dom().contains(k) ==> r is None,
{
    m.slots.get(k)
}

/// `SlotMap::index_mut`: a mutable borrow of the monitor under a key the
/// arena holds; what is written through it is what the arena then holds.
#[verifier::external_body]
fn monitors_get_mut(m: &mut MonitorArena, k: MonitorId) -> (r: &mut Monitor)
    requires
        monitor_entries(*old(m)).dom().contains(k),
    ensures
        *r == monitor_entries(*old(m))[k],
        monitor_entries(*final(m)) == monitor_entries(*old(m)).insert(k, *final(r)),
        monitor_order(*final(m)) == monitor_order(*old(m)),
{
    &mut m.slots[k]
}

/// `SlotMap::contains_key`: whether the arena holds the key.
#[verifier::external_body]
fn monitors_contains(m: &MonitorArena, k: MonitorId) -> (r: bool)
    ensures
        r == monitor_entries(*m).dom().contains(k),
{
    m.slots.contains_key(k)
}

/// `SlotMap::len`: how many monitors the arena holds.
#[verifier::external_body]
fn monitors_len(m: &MonitorArena) -> (r: usize)
    ensures
        r == monitor_entries(*m).dom().len(),
{
    m.slots.len()
}

/// `SlotMap::keys`: every key the arena holds, once each, in the arena's
/// walking order.
#[verifier::external_body]
fn monitors_keys(m: &MonitorArena) -> (r: Vec<MonitorId>)
    ensures
        r@ == monitor_order(*m),
        r@.no_duplicates(),
        r@.to_set() == monitor_entries(*m).dom(),
{
    m.slots.keys().collect()
}


// ---------------------------------------------------------------------------
// The manager
// ---------------------------------------------------------------------------

/// All monitors and the focused one.
pub struct MonitorManager {
    pub monitors: MonitorArena,
    pub focused: MonitorId,
}

/// The monitor made from `info`.
pub open spec fn made_from(m: Monitor, info: MonitorInfo) -> bool {
    &&& m.name == info.name
    &&& m.primary == info.primary
    &&& m.geometry == info.geometry
    &&& m.outputs == info.outputs
    &&& m.workspaces.is_fresh()
}

/// The index of the last primary monitor among `infos`.
pub open spec fn last_primary(infos: Seq<MonitorInfo>) -> Option<int>
    decreases infos.len(),
{
    if infos.len() == 0 {
        None
    } else if infos.last().primary {
        Some(infos.len() - 1)
    } else {
        last_primary(infos.drop_last())
    }
}

/// The monitors of `m` are those made from `infos`, in order, under the
/// keys `ids`; the focus is on the last primary one, or else on the first in
/// walking order.
pub open spec fn populated_by(m: MonitorManager, ids: Seq<MonitorId>, infos: Seq<MonitorInfo>) -> bool {
    &&& ids.len() == infos.len()
    &&& ids.no_duplicates()
    &&& ids.to_set() == m.entries().dom()
    &&& forall|i: int| 0 <= i < ids.len() ==> #[trigger] made_from(m.entries()[ids[i]], infos[i])
    &&& m.focused == match last_primary(infos) {
        Some(p) => ids[p],
        None => m.order()[0],
    }
}

/// The same, for monitors described as (name, geometry, primary).
pub open spec fn mock_populated_by(m: MonitorManager, ids: Seq<MonitorId>, configs: Seq<(&str, Rect, bool)>) -> bool {
    &&& ids.len() == configs.len()
    &&& ids.no_duplicates()
    &&& ids.to_set() == m.entries().dom()
    &&& forall|i: int| 0 <= i < ids.len() ==> #[trigger] mock_made_from(m.entries()[ids[i]], configs[i])
    &&& configs.len() > 0 ==> m.focused == match last_mock_primary(configs) {
        Some(p) => ids[p],
        None => m.order()[0],
    }
}

proof fn lemma_last_primary_bound(infos: Seq<MonitorInfo>)
    ensures
        last_primary(infos) matches Some(p) ==> 0 <= p < infos.len(),
    decreases infos.len(),
{
    if infos.len() > 0 {
        lemma_last_primary_bound(infos.drop_last());
    }
}

proof fn lemma_last_mock_primary_bound(configs: Seq<(&str, Rect, bool)>)
    ensures
        last_mock_primary(configs) matches Some(p) ==> 0 <= p < configs.len(),
    decreases configs.len(),
{
    if configs.len() > 0 {
        lemma_last_mock_primary_bound(configs.drop_last());
    }
}

/// The first monitor in `order` that satisfies `pred`.
pub open spec fn first_where(order: Seq<MonitorId>, entries: Map<MonitorId, Monitor>, pred: spec_fn(Monitor) -> bool) -> Option<MonitorId>
    decreases order.len(),
{
    if order.len() == 0 {
        None
    } else if pred(entries[order[0]]) {
        Some(order[0])
    } else {
        first_where(order.drop_first(), entries, pred)
    }
}

proof fn lemma_first_where_step(order: Seq<MonitorId>, entries: Map<MonitorId, Monitor>, pred: spec_fn(Monitor) -> bool, i: int)
    requires
        0 <= i < order.len(),
    ensures
        first_where(order.subrange(i, order.len() as int), entries, pred) == if pred(entries[order[i]]) {
            Some(order[i])
        } else {
            first_where(order.subrange(i + 1, order.len() as int), entries, pred)
        },
{
    let rest = order.subrange(i, order.len() as int);
    assert(rest.drop_first() =~= order.subrange(i + 1, order.len() as int));
}

proof fn lemma_first_where_found(order: Seq<MonitorId>, entries: Map<MonitorId, Monitor>, pred: spec_fn(Monitor) -> bool)
    ensures
        first_where(order, entries, pred) matches Some(k) ==> order.contains(k) && pred(entries[k]),
        first_where(order, entries, pred) is None <==> forall|i: int| 0 <= i < order.len() ==> !pred(entries[#[trigger] order[i]]),
    decreases order.len(),
{
    if order.len() > 0 {
        let rest = order.drop_first();
        lemma_first_where_found(rest, entries, pred);
        if pred(entries[order[0]]) {
            assert(order.contains(order[0]));
        } else {
            if first_where(rest, entries, pred) is None {
                assert forall|i: int| 0 <= i < order.len() implies !pred(entries[#[trigger] order[i]]) by {
                    if i > 0 {
                        assert(order[i] == rest[i - 1]);
                    }
                }
            } else {
                let k = first_where(rest, entries, pred)->0;
                let j = choose|j: int| 0 <= j < rest.len() && rest[j] == k;
                assert(order[j + 1] == k);
                assert(!pred(entries[order[j + 1]]) ==> false);
            }
        }
    }
}

/// Over a walking order that lists exactly the monitors held, the first
/// match is a held monitor that matches, and there is none only where no
/// held monitor matches.
proof fn lemma_first_where_over(order: Seq<MonitorId>, entries: Map<MonitorId, Monitor>, pred: spec_fn(Monitor) -> bool)
    requires
        order.to_set() == entries.dom(),
    ensures
        first_where(order, entries, pred) matches Some(k) ==> entries.dom().contains(k) && pred(entries[k]),
        first_where(order, entries, pred) is None <==> forall|k: MonitorId| #[trigger] entries.dom().contains(k) ==> !pred(entries[k]),
{
    lemma_first_where_found(order, entries, pred);
    if first_where(order, entries, pred) is Some {
        let k = first_where(order, entries, pred)->0;
        assert(order.to_set().contains(k));
    } else {
        assert forall|k: MonitorId| #[trigger] entries.dom().contains(k) implies !pred(entries[k]) by {
            assert(order.to_set().contains(k));
            let j = choose|j: int| 0 <= j < order.len() && order[j] == k;
            assert(!pred(entries[order[j]]));
        }
    }
}

/// A key the arena did not hold, inserted somewhere into an order that
/// lists the held keys once each, gives such an order again.
proof fn lemma_insert_keeps_order(o0: Seq<MonitorId>, o1: Seq<MonitorId>, d0: Set<MonitorId>, k: MonitorId)
    requires
        o0.no_duplicates(),
        o0.to_set() == d0,
        !d0.contains(k),
        exists|i: int| 0 <= i <= o0.len() && o1 == o0.insert(i, k),
    ensures
        o1.no_duplicates(),
        o1.to_set() == d0.insert(k),
{
    let i = choose|i: int| 0 <= i <= o0.len() && o1 == o0.insert(i, k);
    assert(!o0.contains(k)) by {
        if o0.contains(k) {
            assert(o0.to_set().contains(k));
        }
    }
    crate::layout::lemma_order_insert(o0, i, k);
}

/// Monitors whose area holds the point (`x`, `y`).
pub open spec fn is_at(x: i32, y: i32) -> spec_fn(Monitor) -> bool {
    |m: Monitor| contains_point(m.geometry, x, y)
}

/// Primary monitors.
pub open spec fn is_primary() -> spec_fn(Monitor) -> bool {
    |m: Monitor| m.primary
}

/// Monitors with this name.
pub open spec fn is_named(name: Seq<char>) -> spec_fn(Monitor) -> bool {
    |m: Monitor| m.name@ == name
}

/// The point (`x`, `y`) lies within `g`.
pub open spec fn contains_point(g: Rect, x: i32, y: i32) -> bool {
    x >= g.x && x < g.x + g.width && y >= g.y && y < g.y + g.height
}

impl MonitorManager {
    pub open spec fn entries(&self) -> Map<MonitorId, Monitor> {
        monitor_entries(self.monitors)
    }

    pub open spec fn order(&self) -> Seq<MonitorId> {
        monitor_order(self.monitors)
    }

    /// The walking order lists every monitor held, once each.
    pub open spec fn order_ok(&self) -> bool {
        &&& self.order().no_duplicates()
        &&& self.order().to_set() == self.entries().dom()
    }

    /// The monitors are finitely many, none under the null key, and, where
    /// there is one, the focused one is among them.
    pub open spec fn wf(&self) -> bool {
        &&& self.entries().dom().finite()
        &&& forall|k: MonitorId| #[trigger] self.entries().dom().contains(k) ==> !key_is_null(k)
        &&& self.entries().dom().len() > 0 ==> self.entries().dom().contains(self.focused)
    }

    /// Every monitor's right and bottom edges are `i32` values.
    pub open spec fn edges_fit(&self) -> bool {
        forall|k: MonitorId|
            #[trigger] self.entries().dom().contains(k) ==> {
                let g = self.entries()[k].geometry;
                &&& g.width <= i32::MAX
                &&& g.height <= i32::MAX
                &&& g.x + g.width <= i32::MAX
                &&& g.y + g.height <= i32::MAX
            }
    }

    /// The monitors with their geometries, in walking order.
    pub open spec fn geometries(&self) -> Seq<(MonitorId, Rect)> {
        self.order().map_values(|k: MonitorId| (k, self.entries()[k].geometry))
    }

    /// The monitor that `monitor_in_direction` gives.
    pub open spec fn spec_in_direction(&self, direction: Direction) -> Option<MonitorId> {
        let f = self.entries()[self.focused].geometry;
        match closest_toward(
            self.geometries(),
            self.focused,
            direction,
            f.spec_center_x(),
            f.spec_center_y(),
        ) {
            Some(best) => Some(best.0),
            None => None,
        }
    }

    /// Searching in `direction` overflows no `i32`.
    pub open spec fn direction_fits(&self, direction: Direction) -> bool {
        let f = self.entries()[self.focused].geometry;
        &&& f.center_fits()
        &&& closest_fits(
            self.geometries(),
            self.focused,
            direction,
            f.spec_center_x(),
            f.spec_center_y(),
        )
    }

    /// No monitor yet.
    pub fn new() -> (r: Self)
        ensures
            r.wf(),
            r.entries().dom().is_empty(),
            r.order_ok(),
    {
        let r = MonitorManager { monitors: monitors_new(), focused: MonitorId::default() };
        assert(r.order().to_set() =~= r.entries().dom());
        r
    }

    /// Replaces the monitors with those that RandR reported, in order. With
    /// none reported, a single primary monitor named "default" covers the
    /// screen. The focus goes to the last primary monitor, or else to the
    /// first monitor in walking order; its id is returned.
    pub fn populate(&mut self, infos: Vec<MonitorInfo>, screen_width: u32, screen_height: u32) -> (r: MonitorId)
        requires
            infos@.len() + 2 < u32::MAX,
        ensures
            final(self).wf(),
            r == final(self).focused,
            final(self).entries().dom().contains(r),
            infos@.len() == 0 ==> {
                &&& final(self).entries().dom() == set![r]
                &&& final(self).entries()[r].name@ == "default"@
                &&& final(self).entries()[r].primary
                &&& final(self).entries()[r].geometry == (Rect { x: 0, y: 0, width: screen_width, height: screen_height })
                &&& final(self).entries()[r].outputs@.len() == 0
                &&& final(self).entries()[r].workspaces.is_fresh()
            },
            infos@.len() > 0 ==> exists|ids: Seq<MonitorId>| #[trigger] populated_by(*final(self), ids, infos@),
            final(self).order_ok(),
    {
        monitors_clear(&mut self.monitors);
        assert(self.order().to_set() =~= self.entries().dom());
        let ghost all = infos@;
        let ghost mut ids: Seq<MonitorId> = Seq::empty();
        let mut infos = infos;
        let mut primary_id: Option<MonitorId> = None;
        let mut i: usize = 0;
        let n = infos.len();
        while infos.len() > 0
            invariant
                n == all.len(),
                n + 2 < u32::MAX,
                i + infos@.len() == n,
                infos@ == all.subrange(i as int, n as int),
                ids.len() == i,
                ids.no_duplicates(),
                ids.to_set() == self.entries().dom(),
                self.order_ok(),
                forall|k: MonitorId| #[trigger] self.entries().dom().contains(k) ==> !key_is_null(k),
                self.entries().dom().len() == i,
                forall|j: int| 0 <= j < i ==> #[trigger] made_from(self.entries()[ids[j]], all[j]),
                match last_primary(all.take(i as int)) {
                    Some(p) => primary_id == Some(ids[p]),
                    None => primary_id is None,
                },
            decreases infos@.len(),
        {
            let info = infos.remove(0);
            proof {
                assert(info == all[i as int]);
                assert(all.take(i + 1).drop_last() =~= all.take(i as int));
                assert(all.take(i + 1).last() == all[i as int]);
            }
            let is_primary = info.primary;
            let monitor = Monitor::new(info.name, info.primary, info.geometry, info.outputs);
            let ghost before = self.entries();
            let ghost order0 = self.order();
            let id = monitors_insert(&mut self.monitors, monitor);
            proof {
                lemma_insert_keeps_order(order0, self.order(), before.dom(), id);
                lemma_last_primary_bound(all.take(i as int));
                ids.lemma_push_to_set_commute(id);
                ids = ids.push(id);
                assert forall|j: int| 0 <= j < i + 1 implies #[trigger] made_from(self.entries()[ids[j]], all[j]) by {
                    if j < i {
                        assert(ids[j] != id);
                    }
                }
            }
            if is_primary {
                primary_id = Some(id);
            }
            i = i + 1;
            proof {
                assert(infos@ =~= all.subrange(i as int, n as int));
            }
        }
        proof {
            assert(all.take(n as int) =~= all);
            lemma_last_primary_bound(all);
            if let Some(p) = last_primary(all) {
                assert(ids.to_set().contains(ids[p]));
            }
        }
        if monitors_len(&self.monitors) == 0 {
            let monitor = Monitor::new(
                String::from_str("default"),
                true,
                Rect::new(0, 0, screen_width, screen_height),
                Vec::new(),
            );
            let ghost before = self.entries();
            let ghost order0 = self.order();
            let id = monitors_insert(&mut self.monitors, monitor);
            proof {
                lemma_insert_keeps_order(order0, self.order(), before.dom(), id);
                assert(self.entries().dom() =~= set![id]);
            }
            primary_id = Some(id);
        }
        let focused = match primary_id {
            Some(id) => id,
            None => {
                let keys = monitors_keys(&self.monitors);
                proof {
                    assert(self.entries().dom().contains(ids[0]));
                    assert(keys@.to_set().contains(ids[0]));
                    assert(keys@.to_set().contains(keys@[0]));
                }
                keys[0]
            },
        };
        self.focused = focused;
        proof {
            if n > 0 {
                assert(populated_by(*self, ids, all));
            }
        }
        focused
    }

    /// The monitor with this id, if there is one.
    pub fn get(&self, id: MonitorId) -> (r: Option<&Monitor>)
        ensures
            self.entries().dom().contains(id) ==> r == Some(&self.entries()[id]),
            !self.entries().dom().contains(id) ==> r is None,
    {
        monitors_get(&self.monitors, id)
    }

    /// Whether there is a monitor with this id.
    pub fn contains(&self, id: MonitorId) -> (r: bool)
        ensures
            r == self.entries().dom().contains(id),
    {
        monitors_contains(&self.monitors, id)
    }

    /// The monitor with this id, to change.
    pub fn get_mut(&mut self, id: MonitorId) -> (r: &mut Monitor)
        requires
            old(self).entries().dom().contains(id),
        ensures
            *r == old(self).entries()[id],
            final(self).entries() == old(self).entries().insert(id, *final(r)),
            final(self).focused == old(self).focused,
            final(self).order() == old(self).order(),
    {
        monitors_get_mut(&mut self.monitors, id)
    }

    /// The focused monitor.
    pub fn focused(&self) -> (r: &Monitor)
        requires
            self.entries().dom().contains(self.focused),
        ensures
            *r == self.entries()[self.focused],
    {
        monitors_get(&self.monitors, self.focused).unwrap()
    }

    /// The focused monitor, to change.
    pub fn focused_mut(&mut self) -> (r: &mut Monitor)
        requires
            old(self).entries().dom().contains(old(self).focused),
        ensures
            *r == old(self).entries()[old(self).focused],
            final(self).entries() == old(self).entries().insert(old(self).focused, *final(r)),
            final(self).focused == old(self).focused,
    {
        let id = self.focused;
        monitors_get_mut(&mut self.monitors, id)
    }

    /// The focused monitor's id.
    pub fn focused_id(&self) -> (r: MonitorId)
        ensures
            r == self.focused,
    {
        self.focused
    }

    /// Focuses the monitor with this id, if there is one; says whether it did.
    pub fn set_focused(&mut self, id: MonitorId) -> (r: bool)
        requires
            old(self).wf(),
        ensures
            final(self).wf(),
            r == old(self).entries().dom().contains(id),
            final(self).entries() == old(self).entries(),
            final(self).order() == old(self).order(),
            final(self).focused == if r { id } else { old(self).focused },
            key_is_null(id) ==> !r && final(self).focused == old(self).focused,
    {
        if monitors_contains(&self.monitors, id) {
            self.focused = id;
            true
        } else {
            false
        }
    }

    /// The first monitor, in walking order, whose area holds the point.
    pub fn monitor_at(&self, x: i32, y: i32) -> (r: Option<MonitorId>)
        requires
            self.edges_fit(),
        ensures
            r == first_where(self.order(), self.entries(), is_at(x, y)),
            self.order_ok(),
            r matches Some(k) ==> self.entries().dom().contains(k) && contains_point(self.entries()[k].geometry, x, y),
            r is None <==> forall|k: MonitorId| #[trigger] self.entries().dom().contains(k) ==> !contains_point(self.entries()[k].geometry, x, y),
    {
        let keys = monitors_keys(&self.monitors);
        let ghost pred = is_at(x, y);
        let mut i: usize = 0;
        proof {
            assert(self.order().subrange(0, self.order().len() as int) =~= self.order());
        }
        while i < keys.len()
            invariant
                keys@ == self.order(),
                keys@.to_set() == self.entries().dom(),
                keys@.no_duplicates(),
                pred == is_at(x, y),
                self.edges_fit(),
                i <= keys@.len(),
                first_where(self.order(), self.entries(), pred) == first_where(
                    self.order().subrange(i as int, self.order().len() as int),
                    self.entries(),
                    pred,
                ),
            decreases keys@.len() - i,
        {
            let id = keys[i];
            proof {
                assert(keys@.to_set().contains(id));
                lemma_first_where_step(self.order(), self.entries(), pred, i as int);
            }
            match monitors_get(&self.monitors, id) {
                Some(monitor) => {
                    let g = monitor.geometry;
                    assert(pred(self.entries()[id]) == contains_point(g, x, y));
                    if x >= g.x && x < g.x + g.width as i32 && y >= g.y && y < g.y + g.height as i32 {
                        proof {
                            lemma_first_where_over(self.order(), self.entries(), pred);
                        }
                        return Some(id);
                    }
                },
                None => {},
            }
            i = i + 1;
        }
        proof {
            assert(self.order().subrange(i as int, self.order().len() as int) =~= Seq::<MonitorId>::empty());
            lemma_first_where_over(self.order(), self.entries(), pred);
        }
        None
    }

    /// The nearest monitor in `direction` from the focused one: among those
    /// whose centre lies that way, the one whose centre is closest along
    /// that axis plus half the offset across it; the first in walking order
    /// wins a tie.
    pub fn monitor_in_direction(&self, direction: Direction) -> (r: Option<MonitorId>)
        requires
            self.entries().dom().contains(self.focused),
            self.direction_fits(direction),
        ensures
            r == self.spec_in_direction(direction),
            self.order_ok(),
    {
        let focused = self.focused();
        let fx = focused.geometry.center_x();
        let fy = focused.geometry.center_y();
        let keys = monitors_keys(&self.monitors);
        let mut cands: Vec<(MonitorId, Rect)> = Vec::new();
        let mut i: usize = 0;
        proof {
            assert(self.order().subrange(0, self.order().len() as int) =~= self.order());
        }
        while i < keys.len()
            invariant
                keys@ == self.order(),
                keys@.to_set() == self.entries().dom(),
                keys@.no_duplicates(),
                i <= keys@.len(),
                cands@ =~= self.geometries().take(i as int),
            decreases keys@.len() - i,
        {
            let id = keys[i];
            proof {
                assert(keys@.to_set().contains(id));
            }
            let m = self.get(id).unwrap();
            cands.push((id, m.geometry));
            i = i + 1;
        }
        proof {
            assert(self.geometries().take(keys@.len() as int) =~= self.geometries());
        }
        closest_in_direction(direction, self.focused, fx, fy, cands.as_slice())
    }

    /// All monitor ids, in walking order.
    pub fn all_monitors(&self) -> (r: Vec<MonitorId>)
        ensures
            r@ == self.order(),
            self.order_ok(),
    {
        monitors_keys(&self.monitors)
    }

    /// How many monitors there are.
    pub fn count(&self) -> (r: usize)
        ensures
            r == self.entries().dom().len(),
    {
        monitors_len(&self.monitors)
    }

    /// The first primary monitor in walking order.
    pub fn primary(&self) -> (r: Option<MonitorId>)
        ensures
            r == first_where(self.order(), self.entries(), is_primary()),
            self.order_ok(),
            r matches Some(k) ==> self.entries().dom().contains(k) && self.entries()[k].primary,
            r is None <==> forall|k: MonitorId| #[trigger] self.entries().dom().contains(k) ==> !self.entries()[k].primary,
    {
        let keys = monitors_keys(&self.monitors);
        let ghost pred = is_primary();
        let mut i: usize = 0;
        proof {
            assert(self.order().subrange(0, self.order().len() as int) =~= self.order());
        }
        while i < keys.len()
            invariant
                keys@ == self.order(),
                keys@.to_set() == self.entries().dom(),
                keys@.no_duplicates(),
                pred == is_primary(),
                i <= keys@.len(),
                first_where(self.order(), self.entries(), pred) == first_where(
                    self.order().subrange(i as int, self.order().len() as int),
                    self.entries(),
                    pred,
                ),
            decreases keys@.len() - i,
        {
            let id = keys[i];
            proof {
                assert(keys@.to_set().contains(id));
                lemma_first_where_step(self.order(), self.entries(), pred, i as int);
            }
            let m = self.get(id).unwrap();
            assert(pred(self.entries()[id]) == m.primary);
            if m.primary {
                proof {
                    lemma_first_where_over(self.order(), self.entries(), pred);
                }
                return Some(id);
            }
            i = i + 1;
        }
        proof {
            assert(self.order().subrange(i as int, self.order().len() as int) =~= Seq::<MonitorId>::empty());
            lemma_first_where_over(self.order(), self.entries(), pred);
        }
        None
    }

    /// The first monitor in walking order with this name.
    pub fn find_by_name(&self, name: &str) -> (r: Option<MonitorId>)
        ensures
            r == first_where(self.order(), self.entries(), is_named(name@)),
            self.order_ok(),
            r matches Some(k) ==> self.entries().dom().contains(k) && self.entries()[k].name@ == name@,
            r is None <==> forall|k: MonitorId| #[trigger] self.entries().dom().contains(k) ==> self.entries()[k].name@ != name@,
    {
        let keys = monitors_keys(&self.monitors);
        let ghost pred = is_named(name@);
        let mut i: usize = 0;
        proof {
            assert(self.order().subrange(0, self.order().len() as int) =~= self.order());
        }
        while i < keys.len()
            invariant
                keys@ == self.order(),
                keys@.to_set() == self.entries().dom(),
                keys@.no_duplicates(),
                pred == is_named(name@),
                i <= keys@.len(),
                first_where(self.order(), self.entries(), pred) == first_where(
                    self.order().subrange(i as int, self.order().len() as int),
                    self.entries(),
                    pred,
                ),
            decreases keys@.len() - i,
        {
            let id = keys[i];
            proof {
                assert(keys@.to_set().contains(id));
                lemma_first_where_step(self.order(), self.entries(), pred, i as int);
            }
            let m = self.get(id).unwrap();
            assert(pred(self.entries()[id]) == (m.name@ == name@));
            if str_eq(m.name.as_str(), name) {
                proof {
                    lemma_first_where_over(self.order(), self.entries(), pred);
                }
                return Some(id);
            }
            i = i + 1;
        }
        proof {
            assert(self.order().subrange(i as int, self.order().len() as int) =~= Seq::<MonitorId>::empty());
            lemma_first_where_over(self.order(), self.entries(), pred);
        }
        None
    }

    /// Adds a monitor without asking RandR. It takes the focus when it is the
    /// only monitor or a primary one.
    pub fn add_mock_monitor(&mut self, name: &str, geometry: Rect, primary: bool) -> (r: MonitorId)
        requires
            old(self).wf(),
            old(self).entries().dom().len() + 1 < u32::MAX,
        ensures
            final(self).wf(),
            !old(self).entries().dom().contains(r),
            final(self).entries().dom() == old(self).entries().dom().insert(r),
            final(self).entries()[r].name@ == name@,
            final(self).entries()[r].primary == primary,
            final(self).entries()[r].geometry == geometry,
            final(self).entries()[r].outputs@.len() == 0,
            final(self).entries()[r].workspaces.is_fresh(),
            forall|k: MonitorId| #[trigger] old(self).entries().dom().contains(k) ==> final(self).entries()[k] == old(self).entries()[k],
            final(self).focused == if old(self).entries().dom().len() == 0 || primary {
                r
            } else {
                old(self).focused
            },
            old(self).order_ok() ==> final(self).order_ok(),
    {
        let monitor = Monitor::new(String::from_str(name), primary, geometry, Vec::new());
        let ghost before = self.entries();
        let ghost order0 = self.order();
        let id = monitors_insert(&mut self.monitors, monitor);
        proof {
            if old(self).order_ok() {
                lemma_insert_keeps_order(order0, self.order(), before.dom(), id);
            }
        }
        if monitors_len(&self.monitors) == 1 || primary {
            self.focused = id;
        }
        proof {
            if old(self).entries().dom().len() == 0 {
                assert(self.entries().dom() =~= set![id]);
            }
        }
        id
    }

    /// A manager holding the given monitors (name, geometry, primary), in
    /// order. The focus goes to the last primary one, or else to the first
    /// in walking order.
    pub fn with_mock_monitors(configs: &[(&str, Rect, bool)]) -> (r: Self)
        requires
            configs@.len() + 2 < u32::MAX,
        ensures
            r.wf(),
            exists|ids: Seq<MonitorId>| #[trigger] mock_populated_by(r, ids, configs@),
            r.order_ok(),
    {
        let mut manager = Self::new();
        let ghost mut ids: Seq<MonitorId> = Seq::empty();
        let mut primary_id: Option<MonitorId> = None;
        let mut i: usize = 0;
        while i < configs.len()
            invariant
                configs@.len() + 2 < u32::MAX,
                i <= configs@.len(),
                ids.len() == i,
                ids.no_duplicates(),
                ids.to_set() == manager.entries().dom(),
                manager.order_ok(),
                forall|k: MonitorId| #[trigger] manager.entries().dom().contains(k) ==> !key_is_null(k),
                manager.entries().dom().len() == i,
                forall|j: int| 0 <= j < i ==> #[trigger] mock_made_from(manager.entries()[ids[j]], configs@[j]),
                match last_mock_primary(configs@.take(i as int)) {
                    Some(p) => primary_id == Some(ids[p]),
                    None => primary_id is None,
                },
            decreases configs@.len() - i,
        {
            let (name, geometry, is_primary) = configs[i];
            proof {
                assert(configs@.take(i + 1).drop_last() =~= configs@.take(i as int));
                assert(configs@.take(i + 1).last() == configs@[i as int]);
            }
            let monitor = Monitor::new(String::from_str(name), is_primary, geometry, Vec::new());
            let ghost before = manager.entries();
            let ghost order0 = manager.order();
            let id = monitors_insert(&mut manager.monitors, monitor);
            proof {
                lemma_insert_keeps_order(order0, manager.order(), before.dom(), id);
                lemma_last_mock_primary_bound(configs@.take(i as int));
                ids.lemma_push_to_set_commute(id);
                ids = ids.push(id);
                assert forall|j: int| 0 <= j < i + 1 implies #[trigger] mock_made_from(manager.entries()[ids[j]], configs@[j]) by {
                    if j < i {
                        assert(ids[j] != id);
                    }
                }
            }
            if is_primary {
                primary_id = Some(id);
            }
            i = i + 1;
        }
        proof {
            assert(configs@.take(configs@.len() as int) =~= configs@);
            lemma_last_mock_primary_bound(configs@);
            if let Some(p) = last_mock_primary(configs@) {
                assert(ids.to_set().contains(ids[p]));
            }
        }
        manager.focused = match primary_id {
            Some(id) => id,
            None => {
                let keys = monitors_keys(&manager.monitors);
                if keys.len() > 0 {
                    proof {
                        assert(keys@.to_set().contains(keys@[0]));
                    }
                    keys[0]
                } else {
                    proof {
                        if ids.len() > 0 {
                            assert(keys@.to_set().contains(ids[0]));
                        }
                    }
                    MonitorId::default()
                }
            },
        };
        proof {
            assert(mock_populated_by(manager, ids, configs@));
        }
        manager
    }
}

/// The monitor made from a (name, geometry, primary) test description.
pub open spec fn mock_made_from(m: Monitor, c: (&str, Rect, bool)) -> bool {
    &&& m.name@ == c.0@
    &&& m.geometry == c.1
    &&& m.primary == c.2
    &&& m.outputs@.len() == 0
    &&& m.workspaces.is_fresh()
}

/// The index of the last primary description among `configs`.
pub open spec fn last_mock_primary(configs: Seq<(&str, Rect, bool)>) -> Option<int>
    decreases configs.len(),
{
    if configs.len() == 0 {
        None
    } else if configs.last().2 {
        Some(configs.len() - 1)
    } else {
        last_mock_primary(configs.drop_last())
    }
}

impl Default for MonitorManager {
    fn default() -> (r: Self)
        ensures
            r.wf(),
            r.entries().dom().is_empty(),
    {
        Self::new()
    }
}

} // verus!
