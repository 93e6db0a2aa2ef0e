//! What a game may do to its region during one tick.
//!
//! A [`Region`] holds what `umwelt::Step` lets a game see and change: every
//! position, which entities are alive, and the tick that is running. Positions
//! are indexed by entity id. Ids are given in order and never reused, so a
//! despawned entity keeps its slot.

use umwelt::{EntityId, LiveSet};
use vstd::prelude::*;

use crate::units::Pos3;

verus! {

/// `umwelt::LiveSet`, which entities are alive.
#[verifier::external_type_specification]
#[verifier::external_body]
pub struct ExLiveSet(umwelt::LiveSet);

/// The ids a live set holds.
pub uninterp spec fn live_ids(live: LiveSet) -> Set<u32>;

/// `LiveSet::new`: nothing is alive.
#[verifier::external_body]
fn live_new() -> (live: LiveSet)
    ensures
        live_ids(live) == Set::<u32>::empty(),
{
    LiveSet::new()
}

/// `LiveSet::contains`: whether that entity is alive.
#[verifier::external_body]
fn live_contains(live: &LiveSet, id: u32) -> (alive: bool)
    ensures
        alive == live_ids(*live).contains(id),
{
    live.contains(EntityId::from_raw(id))
}

/// `LiveSet::insert`: marks one entity alive, growing to cover it. The last id
/// has no index after it, so it is left out.
#[verifier::external_body]
fn live_insert(live: &mut LiveSet, id: u32)
    requires
        id < u32::MAX,
    ensures
        live_ids(*final(live)) == live_ids(*old(live)).insert(id),
{
    live.insert(EntityId::from_raw(id));
}

/// `LiveSet::remove`: marks one entity dead, and no other.
#[verifier::external_body]
fn live_remove(live: &mut LiveSet, id: u32)
    ensures
        live_ids(*final(live)) == live_ids(*old(live)).remove(id),
{
    live.remove(EntityId::from_raw(id));
}

/// `LiveSet::live`: how many are alive.
#[verifier::external_body]
fn live_count(live: &LiveSet) -> (n: usize)
    ensures
        n == live_ids(*live).len(),
{
    live.live()
}

/// What a [`Region`] holds.
#[verifier::ext_equal]
pub struct RegionState {
    pub xs: Seq<i32>,
    pub ys: Seq<i32>,
    pub zs: Seq<i32>,
    pub live: Set<u32>,
    /// Ids despawned this tick, in the order they went.
    pub gone: Seq<u32>,
    pub tick: u32,
}

impl RegionState {
    /// Every slot has a position, every live id has a slot, and every slot has
    /// an id.
    pub open spec fn wf(self) -> bool {
        &&& self.ys.len() == self.xs.len()
        &&& self.zs.len() == self.xs.len()
        &&& self.xs.len() <= u32::MAX
        &&& self.live.finite()
        &&& forall|id: u32| #[trigger] self.live.contains(id) ==> id < self.xs.len()
    }

    /// Slots ever allocated.
    pub open spec fn slots(self) -> nat {
        self.xs.len()
    }

    /// With one more entity, alive, in a new slot.
    pub open spec fn spawn(self, p: Pos3) -> RegionState {
        RegionState {
            xs: self.xs.push(p.x),
            ys: self.ys.push(p.y),
            zs: self.zs.push(p.z),
            live: self.live.insert(self.slots() as u32),
            ..self
        }
    }

    /// With one fewer alive. The slot stays.
    pub open spec fn despawn(self, id: u32) -> RegionState {
        RegionState {
            live: self.live.remove(id),
            gone: if self.live.contains(id) {
                self.gone.push(id)
            } else {
                self.gone
            },
            ..self
        }
    }

    /// With one entity moved on the ground.
    pub open spec fn move_to(self, i: int, x: i32, y: i32) -> RegionState {
        RegionState { xs: self.xs.update(i, x), ys: self.ys.update(i, y), ..self }
    }
}

/// The region a game steps over.
pub struct Region {
    xs: Vec<i32>,
    ys: Vec<i32>,
    zs: Vec<i32>,
    live: LiveSet,
    gone: Vec<u32>,
    tick: u32,
}

impl View for Region {
    type V = RegionState;

    closed spec fn view(&self) -> RegionState {
        RegionState {
            xs: self.xs@,
            ys: self.ys@,
            zs: self.zs@,
            live: live_ids(self.live),
            gone: self.gone@,
            tick: self.tick,
        }
    }
}

impl Region {
    /// An empty region, at a tick.
    pub fn new(tick: u32) -> (w: Region)
        ensures
            w@ == (RegionState {
                xs: Seq::empty(),
                ys: Seq::empty(),
                zs: Seq::empty(),
                live: Set::empty(),
                gone: Seq::empty(),
                tick,
            }),
            w@.wf(),
    {
        Region {
            xs: Vec::new(),
            ys: Vec::new(),
            zs: Vec::new(),
            live: live_new(),
            gone: Vec::new(),
            tick,
        }
    }

    /// Moves on to a tick. What went in the last one is forgotten.
    pub fn begin(&mut self, tick: u32)
        ensures
            final(self)@ == (RegionState { gone: Seq::empty(), tick, ..old(self)@ }),
    {
        self.gone = Vec::new();
        self.tick = tick;
    }

    /// Which tick is running.
    pub fn tick(&self) -> (tick: u32)
        ensures
            tick == self@.tick,
    {
        self.tick
    }

    /// How long an array keyed by entity id has to be to cover every entity.
    pub fn id_space(&self) -> (n: usize)
        ensures
            n == self@.slots(),
    {
        self.xs.len()
    }

    /// How many entities are alive.
    pub fn entity_count(&self) -> (n: usize)
        ensures
            n == self@.live.len(),
    {
        live_count(&self.live)
    }

    /// Whether that entity is alive.
    pub fn contains(&self, id: u32) -> (alive: bool)
        ensures
            alive == self@.live.contains(id),
    {
        live_contains(&self.live, id)
    }

    /// East.
    pub fn x(&self, i: usize) -> (x: i32)
        requires
            self@.wf(),
            i < self@.slots(),
        ensures
            x == self@.xs[i as int],
    {
        self.xs[i]
    }

    /// North.
    pub fn y(&self, i: usize) -> (y: i32)
        requires
            self@.wf(),
            i < self@.slots(),
        ensures
            y == self@.ys[i as int],
    {
        self.ys[i]
    }

    /// Where an entity is.
    pub fn position(&self, i: usize) -> (p: Pos3)
        requires
            self@.wf(),
            i < self@.slots(),
        ensures
            p == (Pos3 { x: self@.xs[i as int], y: self@.ys[i as int], z: self@.zs[i as int] }),
    {
        Pos3 { x: self.xs[i], y: self.ys[i], z: self.zs[i] }
    }

    /// Moves an entity on the ground.
    pub fn move_to(&mut self, i: usize, x: i32, y: i32)
        requires
            old(self)@.wf(),
            i < old(self)@.slots(),
        ensures
            final(self)@ == old(self)@.move_to(i as int, x, y),
            final(self)@.wf(),
    {
        self.xs.set(i, x);
        self.ys.set(i, y);
    }

    /// Appends an entity. Slots are never reused, so the id is new.
    pub fn spawn(&mut self, p: Pos3) -> (id: u32)
        requires
            old(self)@.wf(),
            old(self)@.slots() < u32::MAX,
        ensures
            id == old(self)@.slots(),
            final(self)@ == old(self)@.spawn(p),
            final(self)@.wf(),
    {
        let id: u32 = self.xs.len() as u32;
        self.xs.push(p.x);
        self.ys.push(p.y);
        self.zs.push(p.z);
        live_insert(&mut self.live, id);
        id
    }

    /// Removes an entity. The slot is not reclaimed.
    pub fn despawn(&mut self, id: u32)
        requires
            old(self)@.wf(),
        ensures
            final(self)@ == old(self)@.despawn(id),
            final(self)@.wf(),
    {
        if live_contains(&self.live, id) {
            live_remove(&mut self.live, id);
            self.gone.push(id);
        } else {
            assert(live_ids(self.live) =~= live_ids(self.live).remove(id));
        }
    }

    /// The ids despawned this tick, in the order they went.
    pub fn despawned(&self) -> (ids: &Vec<u32>)
        ensures
            ids@ == self@.gone,
    {
        &self.gone
    }
}

/// A slot is given once. What is spawned gets the next one, alive, where it was put,
/// and no one else is touched. What is despawned leaves its slot and its place, and
/// is listed; to despawn it again, or what was never there, changes nothing. What is
/// moved stays at its height, and only it is moved.
pub proof fn a_slot_is_given_once(w: RegionState, p: Pos3, id: u32, i: int, x: i32, y: i32)
    requires
        w.wf(),
        w.slots() < u32::MAX,
        0 <= i < w.slots(),
    ensures
        ({
            let v = w.spawn(p);
            let n = w.slots() as int;
            &&& v.slots() == n + 1
            &&& v.live.contains(n as u32)
            &&& !w.live.contains(n as u32)
            &&& v.live.len() == w.live.len() + 1
            &&& id != n as u32 ==> (v.live.contains(id) <==> w.live.contains(id))
            &&& v.xs[n] == p.x && v.ys[n] == p.y && v.zs[n] == p.z
            &&& v.xs[i] == w.xs[i] && v.ys[i] == w.ys[i] && v.zs[i] == w.zs[i]
            &&& v.gone == w.gone
            &&& v.tick == w.tick
        }),
        ({
            let v = w.despawn(id);
            &&& !v.live.contains(id)
            &&& i as u32 != id ==> (v.live.contains(i as u32) <==> w.live.contains(i as u32))
            &&& w.live.contains(id) ==> v.gone == w.gone.push(id) && v.live.len() + 1
                == w.live.len()
            &&& !w.live.contains(id) ==> v == w
            &&& v.despawn(id) == v
            &&& v.xs == w.xs && v.ys == w.ys && v.zs == w.zs
            &&& v.tick == w.tick
        }),
        ({
            let v = w.move_to(i, x, y);
            &&& v.slots() == w.slots()
            &&& v.xs[i] == x && v.ys[i] == y && v.zs == w.zs
            &&& forall|j: int|
                0 <= j < w.slots() && j != i ==> #[trigger] v.xs[j] == w.xs[j] && v.ys[j]
                    == w.ys[j]
            &&& v.live == w.live
            &&& v.gone == w.gone
            &&& v.tick == w.tick
        }),
{
    let v = w.despawn(id);
    if !w.live.contains(id) {
        assert(w.live.remove(id) =~= w.live);
    }
    assert(v.live.remove(id) =~= v.live);
}

} // verus!
