//! The crowd of one client: entities, where they are, and where they walk.
//!
//! A column of walkers that pace back and forth, which is enough to make a region
//! do its work. Entities are named by the handle that [`Link::spawn`] returned. A
//! handle names one from the moment it is asked for, so the crowd walks and moves
//! entities before any region has said what id it gave them.

use vstd::prelude::*;

use crate::ids::{EntityHandle, EntityId, EntityKind, RegionId};
use crate::link::{relayed, relaying_goes_on, relaying_one_more, Call, Line, Link};
use crate::reports::{Heard, Reports};
use crate::units::{floor_meters, meters, Pos3};

verus! {

/// Meters per second a walker covers. Well under the world's 40 m/s cap.
pub const WALK_M_PER_SEC: i32 = 2;

/// How far either side of home an entity walks before turning around, in meters.
pub const RANGE_M: i32 = 32;

/// The lowest lane, in meters, whose range is inside what a distance can hold.
pub const LANE_MIN: i32 = -2_097_118;

/// The highest lane, in meters, whose range is inside what a distance can hold.
pub const LANE_MAX: i32 = 2_097_117;

/// One entity this game asked for.
#[derive(Clone, Copy, Debug, PartialEq, Eq)]
pub struct Held {
    pub handle: EntityHandle,
    /// Whether a game client is behind it.
    pub kind: EntityKind,
    /// Which region it was asked for in. A game is the only tier that sees more
    /// than one at a time, so keeping this is its job.
    pub region: RegionId,
    pub at: Pos3,
    /// Which way it walks: 1 is east, -1 is west.
    pub heading: i32,
    /// The region's own id, once the edge has said what it is. Until then the
    /// handle is the only name for it, which is the point of having one.
    pub entity: Option<(RegionId, EntityId)>,
}

/// What a crowd holds.
#[verifier::ext_equal]
pub struct CrowdState {
    pub held: Seq<Held>,
    /// The column this game's entities live in, in meters.
    pub lane: i32,
    /// How far a walker travels in one send, in raw units.
    pub step: i32,
    /// Where the next entity starts.
    pub next: usize,
    /// Where a new entity goes, and one side of the pair a migration walks
    /// between.
    pub home: RegionId,
    /// Where migration sends them, if this game was told to walk them at all.
    pub away: Option<RegionId>,
    /// How far the migration sweep has got.
    pub cursor: usize,
    /// How many have been walked into the other region, or back.
    pub migrated: u64,
}

/// Whether a coordinate is in the range of a lane, to the whole meter.
pub open spec fn in_range(lane: int, x: int) -> bool {
    -RANGE_M <= x / 1024 - lane <= RANGE_M
}

impl Held {
    /// An entity paces within its range, one way or the other.
    pub open spec fn wf(self, lane: int) -> bool {
        &&& self.heading == 1 || self.heading == -1
        &&& in_range(lane, self.at.x as int)
    }
}

impl CrowdState {
    /// What holds of a crowd after every call: nothing it holds has left its
    /// range.
    pub open spec fn wf(self) -> bool {
        &&& LANE_MIN <= self.lane <= LANE_MAX
        &&& 0 <= self.step <= 2048
        &&& self.cursor < usize::MAX
        &&& forall|i: int| 0 <= i < self.held.len() ==> (#[trigger] self.held[i]).wf(self.lane as int)
    }
}

/// Where the `k`th entity of a lane starts: in a column, a meter apart.
pub open spec fn start(lane: i32, k: usize) -> Pos3 {
    Pos3 { x: (lane * 1024) as i32, y: ((64 + k as int % 3072) * 1024) as i32, z: 0 }
}

/// An entity that was just asked for.
pub open spec fn newcomer(c: CrowdState, handle: EntityHandle, kind: EntityKind) -> Held {
    Held { handle, kind, region: c.home, at: start(c.lane, c.next), heading: 1, entity: None }
}

/// Why a call was refused, if it was.
pub open spec fn refusal<E>(call: Call<E>) -> Option<E> {
    match call {
        Call::Spawn { answer: Err(e), .. } => Some(e),
        Call::Migrate { answer: Err(e), .. } => Some(e),
        Call::Despawn { done: Err(e), .. } => Some(e),
        Call::Moved { done: Err(e), .. } => Some(e),
        _ => None,
    }
}

/// Whether a run of `full` calls went through, or stopped at the first that was
/// refused.
pub open spec fn went_through<E>(said: Seq<Call<E>>, full: int, failed: Option<E>) -> bool {
    &&& forall|k: int| 0 <= k < said.len() - 1 ==> refusal(#[trigger] said[k]) is None
    &&& match failed {
        None => said.len() == full && (full > 0 ==> refusal(said.last()) is None),
        Some(e) => 0 < said.len() <= full && refusal(said.last()) == Some(e),
    }
}

/// What was said through a link between two points.
pub open spec fn since<E>(before: Seq<Call<E>>, after: Seq<Call<E>>) -> Seq<Call<E>> {
    after.skip(before.len() as int)
}

/// Whether a run of calls asks for entities of these kinds, each where the crowd
/// has one start next.
pub open spec fn asks<E>(c: CrowdState, kinds: Seq<EntityKind>, said: Seq<Call<E>>) -> bool {
    forall|k: int|
        0 <= k < said.len() ==> {
            &&& #[trigger] said[k] matches Call::Spawn { region, at, kind, .. }
            &&& region == c.home
            &&& at == start(c.lane, (c.next + k) as usize)
            &&& kind == kinds[k]
        }
}

/// With what was asked for taken on. A place is used up by the asking.
pub open spec fn took_on<E>(c: CrowdState, said: Seq<Call<E>>) -> CrowdState
    decreases said.len(),
{
    if said.len() == 0 {
        c
    } else {
        let b = took_on(c, said.drop_last());
        CrowdState {
            held: match said.last() {
                Call::Spawn { kind, answer: Ok(handle), .. } => b.held.push(
                    newcomer(b, handle, kind),
                ),
                _ => b.held,
            },
            next: (b.next + 1) as usize,
            ..b
        }
    }
}

/// The kinds of a population: those with a client behind them first.
pub open spec fn population(observers: int, total: int) -> Seq<EntityKind> {
    Seq::new(
        total as nat,
        |k: int|
            if k < observers {
                EntityKind::Observer
            } else {
                EntityKind::Unattended
            },
    )
}

/// Everything this game is holding.
pub struct Crowd {
    held: Vec<Held>,
    lane: i32,
    step: i32,
    next: usize,
    home: RegionId,
    away: Option<RegionId>,
    cursor: usize,
    migrated: u64,
}

impl View for Crowd {
    type V = CrowdState;

    closed spec fn view(&self) -> CrowdState {
        CrowdState {
            held: self.held@,
            lane: self.lane,
            step: self.step,
            next: self.next,
            home: self.home,
            away: self.away,
            cursor: self.cursor,
            migrated: self.migrated,
        }
    }
}

/// A crowd of no one yet.
pub open spec fn nobody(
    home: RegionId,
    away: Option<RegionId>,
    lane: i32,
    send_hz: u32,
) -> CrowdState {
    let hz = if send_hz > 1 {
        send_hz
    } else {
        1
    };
    CrowdState {
        held: Seq::empty(),
        lane,
        step: (WALK_M_PER_SEC * 1024 / hz as int) as i32,
        next: 0,
        home,
        away,
        cursor: 0,
        migrated: 0,
    }
}

impl Crowd {
    /// Asks for one entity, and holds it.
    fn ask_for_one<L: Link>(&mut self, sending: &mut Line<L>, kind: EntityKind) -> (r: Result<
        (),
        L::Error,
    >)
        requires
            old(self)@.wf(),
            old(self)@.next < usize::MAX,
        ensures
            ({
                let c = old(self)@;
                let call = final(sending).calls().last();
                &&& final(sending).calls() == old(sending).calls().push(call)
                &&& asks(c, seq![kind], seq![call])
                &&& old(sending).end().took(call, final(sending).end())
                &&& final(self)@ == took_on(c, seq![call])
                &&& refusal(call) == r.err()
            }),
            final(self)@.wf(),
    {
        let ghost c = self@;
        let ghost before = sending.calls();
        let at: Pos3 = Pos3 {
            x: meters(self.lane),
            y: meters(64 + (self.next % 3072) as i32),
            z: meters(0),
        };
        proof {
            assert(at == start(c.lane, c.next));
            assert(at.x as int / 1024 == c.lane);
            reveal_with_fuel(took_on, 2);
        }
        self.next = self.next + 1;
        let answer: Result<EntityHandle, L::Error> = sending.spawn(self.home, at, kind);
        let ghost call = Call::Spawn { region: c.home, at, kind, answer };
        assert(sending.calls() == before.push(call));
        assert(seq![call].drop_last() =~= Seq::empty());
        match answer {
            Ok(handle) => {
                self.held.push(
                    Held { handle, kind, region: self.home, at, heading: 1, entity: None },
                );
                Ok(())
            },
            Err(e) => Err(e),
        }
    }

    /// Asks for a population, those with a client behind them first. Stops at the
    /// first that is refused.
    fn ask_for<L: Link>(&mut self, sending: &mut Line<L>, observers: usize, total: usize) -> (r: Result<
        (),
        L::Error,
    >)
        requires
            old(self)@.wf(),
            old(self)@.next + total <= usize::MAX,
        ensures
            ({
                let c = old(self)@;
                let said = since(old(sending).calls(), final(sending).calls());
                &&& final(sending).calls() == old(sending).calls() + said
                &&& relayed(old(sending).end(), said, final(sending).end())
                &&& asks(c, population(observers as int, total as int), said)
                &&& went_through(said, total as int, r.err())
                &&& final(self)@ == took_on(c, said)
            }),
            final(self)@.wf(),
    {
        let ghost c = self@;
        let ghost before = sending.calls();
        let ghost kinds = population(observers as int, total as int);
        let ghost mut said: Seq<Call<L::Error>> = Seq::empty();
        assert(before + said =~= before);
        for k in 0..total
            invariant
                c == old(self)@,
                before == old(sending).calls(),
                c.next + total <= usize::MAX,
                kinds == population(observers as int, total as int),
                sending.calls() == before + said,
                relayed(old(sending).end(), said, sending.end()),
                said.len() == k,
                asks(c, kinds, said),
                forall|j: int| 0 <= j < k ==> refusal(#[trigger] said[j]) is None,
                self@ == took_on(c, said),
                self@.wf(),
        {
            let kind: EntityKind = if k < observers {
                EntityKind::Observer
            } else {
                EntityKind::Unattended
            };
            proof {
                taking_on_keeps_the_rest(c, said);
            }
            let ghost b = self@;
            let ghost mid = sending.end();
            let r: Result<(), L::Error> = self.ask_for_one(sending, kind);
            proof {
                let call = sending.calls().last();
                let more = said.push(call);
                relaying_one_more(old(sending).end(), said, mid, call, sending.end());
                assert((before + said).push(call) =~= before + more);
                assert(more.drop_last() =~= said);
                assert(seq![call].drop_last() =~= Seq::empty());
                reveal_with_fuel(took_on, 2);
                assert(took_on(c, more) == took_on(b, seq![call]));
                assert(seq![call][0] == call);
                assert(kinds[k as int] == kind);
                assert(asks(c, kinds, more)) by {
                    assert forall|j: int| 0 <= j < more.len() implies {
                        &&& #[trigger] more[j] matches Call::Spawn { region, at, kind, .. }
                        &&& region == c.home
                        &&& at == start(c.lane, (c.next + j) as usize)
                        &&& kind == kinds[j]
                    } by {
                        if j < k {
                            assert(more[j] == said[j]);
                        }
                    }
                }
                assert forall|j: int| 0 <= j < k implies refusal(#[trigger] more[j]) is None by {
                    assert(more[j] == said[j]);
                }
                said = more;
                assert(said.last() == call);
                assert((before + said).skip(before.len() as int) =~= said);
            }
            match r {
                Ok(_) => {},
                Err(e) => {
                    return Err(e);
                },
            }
        }
        assert((before + said).skip(before.len() as int) =~= said);
        Ok(())
    }

    /// Asks the edge for a population and starts holding it. Fails as the first
    /// call that is refused.
    pub fn new<L: Link>(
        sending: &mut Line<L>,
        home: RegionId,
        away: Option<RegionId>,
        lane: i32,
        send_hz: u32,
        observers: usize,
        unattended: usize,
    ) -> (r: Result<Crowd, L::Error>)
        requires
            LANE_MIN <= lane <= LANE_MAX,
            observers + unattended <= usize::MAX,
        ensures
            ({
                let c = nobody(home, away, lane, send_hz);
                let total = observers + unattended;
                let said = since(old(sending).calls(), final(sending).calls());
                &&& final(sending).calls() == old(sending).calls() + said
                &&& relayed(old(sending).end(), said, final(sending).end())
                &&& asks(c, population(observers as int, total), said)
                &&& went_through(said, total, r.err())
                &&& r matches Ok(crowd) ==> crowd@ == took_on(c, said)
            }),
            r matches Ok(crowd) ==> crowd@.wf() && crowd@.held.len() == observers + unattended,
    {
        let hz: u32 = if send_hz > 1 {
            send_hz
        } else {
            1
        };
        let whole: i32 = meters(WALK_M_PER_SEC);
        proof {
            strides_fit(hz);
        }
        let mut crowd: Crowd = Crowd {
            held: Vec::new(),
            lane,
            step: (whole as i64 / hz as i64) as i32,
            next: 0,
            home,
            away,
            cursor: 0,
            migrated: 0,
        };
        let ghost before = sending.calls();
        assert(crowd@ =~= nobody(home, away, lane, send_hz));
        match crowd.ask_for(sending, observers, observers + unattended) {
            Ok(_) => {
                proof {
                    all_taken_on(crowd@, nobody(home, away, lane, send_hz), since(before, sending.calls()));
                }
                Ok(crowd)
            },
            Err(e) => Err(e),
        }
    }
}

/// What is left of a crowd when the entities of these handles go.
pub open spec fn kept(held: Seq<Held>, leaving: Seq<EntityHandle>) -> Seq<Held>
    decreases held.len(),
{
    if held.len() == 0 {
        held
    } else {
        let rest = kept(held.drop_last(), leaving);
        if leaving.contains(held.last().handle) {
            rest
        } else {
            rest.push(held.last())
        }
    }
}

/// Whether an entity is the first that goes by a handle.
pub open spec fn is_first(held: Seq<Held>, handle: EntityHandle, i: int) -> bool {
    &&& 0 <= i < held.len()
    &&& held[i].handle == handle
    &&& forall|j: int| 0 <= j < i ==> (#[trigger] held[j]).handle != handle
}

/// With one entity given the id and the region that was reported for it. A report
/// of a handle that is not held changes nothing.
pub open spec fn named(held: Seq<Held>, report: (EntityHandle, RegionId, EntityId)) -> Seq<Held> {
    let (handle, region, entity) = report;
    let i = choose|i: int| is_first(held, handle, i);
    if is_first(held, handle, i) {
        held.update(i, Held { region, entity: Some((region, entity)), ..held[i] })
    } else {
        held
    }
}

/// With every report of an id applied, in order.
pub open spec fn all_named(held: Seq<Held>, spawned: Seq<(EntityHandle, RegionId, EntityId)>) ->
    Seq<Held>
    decreases spawned.len(),
{
    if spawned.len() == 0 {
        held
    } else {
        named(all_named(held, spawned.drop_last()), spawned.last())
    }
}

/// With what the edge has said applied. Anything it says is gone stops being
/// held, however it went.
pub open spec fn settled(c: CrowdState, heard: Heard) -> CrowdState {
    CrowdState { held: kept(all_named(c.held, heard.spawned), heard.removed), ..c }
}

impl Crowd {
    /// How many it holds.
    pub fn len(&self) -> (n: usize)
        ensures
            n == self@.held.len(),
    {
        self.held.len()
    }

    /// How many have been walked into the other region, or back.
    pub fn migrated(&self) -> (n: u64)
        ensures
            n == self@.migrated,
    {
        self.migrated
    }

    /// How many more it can ask for before its places run out.
    pub fn places(&self) -> (n: usize)
        ensures
            n == usize::MAX - self@.next,
    {
        usize::MAX - self.next
    }

    /// What it holds.
    pub fn held(&self) -> (held: &Vec<Held>)
        ensures
            held@ == self@.held,
    {
        &self.held
    }

    /// How many the regions have given ids to.
    pub fn confirmed(&self) -> (n: usize)
        ensures
            n == self@.held.filter(|h: Held| h.entity is Some).len(),
    {
        let mut n: usize = 0;
        for k in 0..self.held.len()
            invariant
                n == self.held@.take(k as int).filter(|h: Held| h.entity is Some).len(),
                n <= k,
        {
            proof {
                broadcast use Seq::lemma_filter_len_push;

                assert(self.held@.take(k + 1) =~= self.held@.take(k as int).push(
                    self.held@[k as int],
                ));
            }
            if self.held[k].entity.is_some() {
                n = n + 1;
            }
        }
        assert(self.held@.take(self.held@.len() as int) =~= self.held@);
        n
    }

    /// How many are somewhere other than home.
    pub fn away(&self) -> (n: usize)
        ensures
            n == self@.held.filter(|h: Held| h.region != self@.home).len(),
    {
        let ghost home = self.home;
        let mut n: usize = 0;
        for k in 0..self.held.len()
            invariant
                home == self.home,
                n == self.held@.take(k as int).filter(|h: Held| h.region != home).len(),
                n <= k,
        {
            proof {
                broadcast use Seq::lemma_filter_len_push;

                assert(self.held@.take(k + 1) =~= self.held@.take(k as int).push(
                    self.held@[k as int],
                ));
            }
            if self.held[k].region != self.home {
                n = n + 1;
            }
        }
        assert(self.held@.take(self.held@.len() as int) =~= self.held@);
        assert(self@.held.filter(|h: Held| h.region != self@.home) =~= self@.held.filter(
            |h: Held| h.region != home,
        ));
        n
    }

    /// Stops holding the entities of these handles.
    fn drop_all(&mut self, leaving: &Vec<EntityHandle>)
        requires
            old(self)@.wf(),
        ensures
            final(self)@ == (CrowdState { held: kept(old(self)@.held, leaving@), ..old(self)@ }),
            final(self)@.wf(),
    {
        let ghost c = self@;
        let mut rest: Vec<Held> = Vec::new();
        for k in 0..self.held.len()
            invariant
                c == self@,
                c.wf(),
                rest@ == kept(c.held.take(k as int), leaving@),
                forall|i: int| 0 <= i < rest@.len() ==> (#[trigger] rest@[i]).wf(c.lane as int),
        {
            let one: Held = self.held[k];
            assert(c.held[k as int].wf(c.lane as int));
            assert(c.held.take(k + 1).drop_last() =~= c.held.take(k as int));
            if !contains(leaving, one.handle) {
                rest.push(one);
            }
        }
        assert(c.held.take(c.held.len() as int) =~= c.held);
        self.held = rest;
    }

    /// Applies what the edge has said since the last pass.
    pub fn settle(&mut self, reports: &mut Reports)
        requires
            old(self)@.wf(),
        ensures
            final(self)@ == settled(old(self)@, old(reports)@),
            final(self)@.wf(),
            final(reports)@ == (Heard {
                spawned: Seq::empty(),
                removed: Seq::empty(),
                ..old(reports)@
            }),
    {
        let ghost c = self@;
        let spawned: Vec<(EntityHandle, RegionId, EntityId)> = reports.take_spawned();
        for k in 0..spawned.len()
            invariant
                self@ == (CrowdState { held: all_named(c.held, spawned@.take(k as int)), ..c }),
                self@.wf(),
        {
            let (handle, region, entity) = spawned[k];
            assert(spawned@.take(k + 1).drop_last() =~= spawned@.take(k as int));
            self.name(handle, region, entity);
        }
        assert(spawned@.take(spawned@.len() as int) =~= spawned@);
        let removed: Vec<EntityHandle> = reports.take_removed();
        self.drop_all(&removed);
    }

    /// Gives an entity the id that a region reported for it.
    fn name(&mut self, handle: EntityHandle, region: RegionId, entity: EntityId)
        requires
            old(self)@.wf(),
        ensures
            final(self)@ == (CrowdState {
                held: named(old(self)@.held, (handle, region, entity)),
                ..old(self)@
            }),
            final(self)@.wf(),
    {
        let ghost c = self@;
        let n: usize = self.held.len();
        for k in 0..n
            invariant
                n == c.held.len(),
                c == old(self)@,
                c == self@,
                c.wf(),
                forall|j: int| 0 <= j < k ==> (#[trigger] c.held[j]).handle != handle,
        {
            let mut one: Held = self.held[k];
            if one.handle == handle {
                assert(is_first(c.held, handle, k as int));
                assert(c.held[k as int].wf(c.lane as int));
                one.entity = Some((region, entity));
                one.region = region;
                self.held.set(k, one);
                proof {
                    let i = choose|i: int| is_first(c.held, handle, i);
                    assert(is_first(c.held, handle, i));
                    if i < k {
                        assert(c.held[i].handle != handle);
                    }
                    if k < i {
                        assert(c.held[k as int].handle != handle);
                    }
                    assert forall|j: int| 0 <= j < self@.held.len() implies (
                    #[trigger] self@.held[j]).wf(c.lane as int) by {
                        assert(c.held[j].wf(c.lane as int));
                    }
                }
                return;
            }
        }
        assert forall|i: int| !is_first(c.held, handle, i) by {}
    }
}

/// One entity after one send's worth of walking. It turns around where the step
/// would take it out of its range.
pub open spec fn paced(c: CrowdState, one: Held) -> Held {
    let x = one.at.x + c.step * one.heading;
    if in_range(c.lane as int, x) {
        Held { at: Pos3 { x: x as i32, ..one.at }, ..one }
    } else {
        Held { heading: (-one.heading) as i32, ..one }
    }
}

/// With everything walked one send's worth.
pub open spec fn all_paced(c: CrowdState) -> CrowdState {
    CrowdState { held: c.held.map_values(|one: Held| paced(c, one)), ..c }
}

/// Where everything is, by handle.
pub open spec fn whereabouts(held: Seq<Held>) -> Seq<(EntityHandle, Pos3)> {
    held.map_values(|one: Held| (one.handle, one.at))
}

impl Crowd {
    /// Walks everything one send's worth and tells the edge where it all is. Gives
    /// how many that was. A crowd of none says nothing.
    pub fn walk<L: Link>(&mut self, sending: &mut Line<L>) -> (r: Result<usize, L::Error>)
        requires
            old(self)@.wf(),
        ensures
            final(self)@ == all_paced(old(self)@),
            final(self)@.wf(),
            old(self)@.held.len() == 0 ==> {
                &&& r == Ok::<usize, L::Error>(0)
                &&& final(sending).calls() == old(sending).calls()
                &&& final(sending).end() == old(sending).end()
            },
            old(self)@.held.len() > 0 ==> {
                let call = final(sending).calls().last();
                &&& final(sending).calls() == old(sending).calls().push(call)
                &&& old(sending).end().took(call, final(sending).end())
                &&& call matches Call::Moved { moves, done }
                &&& moves == whereabouts(final(self)@.held)
                &&& match done {
                    Ok(_) => r matches Ok(n) && n == final(self)@.held.len(),
                    Err(e) => r == Err::<usize, L::Error>(e),
                }
            },
    {
        let ghost c = self@;
        let n: usize = self.held.len();
        for k in 0..n
            invariant
                n == c.held.len(),
                c.wf(),
                self@ == (CrowdState { held: self@.held, ..c }),
                self@.held.len() == n,
                forall|j: int| 0 <= j < k ==> #[trigger] self@.held[j] == paced(c, c.held[j]),
                forall|j: int| k <= j < n ==> #[trigger] self@.held[j] == c.held[j],
        {
            let mut one: Held = self.held[k];
            assert(c.held[k as int].wf(c.lane as int));
            assert(c.step * one.heading == c.step || c.step * one.heading == -c.step)
                by (nonlinear_arith)
                requires
                    one.heading == 1 || one.heading == -1,
            ;
            let x: i32 = one.at.x + self.step * one.heading;
            let strayed: i32 = floor_meters(x) - self.lane;
            if strayed > RANGE_M || strayed < -RANGE_M {
                one.heading = -one.heading;
            } else {
                one.at.x = x;
            }
            self.held.set(k, one);
        }
        assert(self@.held =~= all_paced(c).held);
        proof {
            pacing_keeps_to_range(c);
        }
        let mut moves: Vec<(EntityHandle, Pos3)> = Vec::new();
        for k in 0..n
            invariant
                n == self.held@.len(),
                moves@ == whereabouts(self.held@.take(k as int)),
        {
            let one: Held = self.held[k];
            moves.push((one.handle, one.at));
            assert(moves@ =~= whereabouts(self.held@.take(k + 1)));
        }
        assert(self.held@.take(n as int) =~= self.held@);
        if n == 0 {
            return Ok(0);
        }
        match sending.move_entities(moves.as_slice()) {
            Ok(_) => Ok(n),
            Err(e) => Err(e),
        }
    }
}

/// Walking never takes an entity out of its range: it turns around at the edge.
pub proof fn pacing_keeps_to_range(c: CrowdState)
    requires
        c.wf(),
    ensures
        all_paced(c).wf(),
        forall|i: int|
            0 <= i < c.held.len() ==> in_range(
                c.lane as int,
                (#[trigger] all_paced(c).held[i]).at.x as int,
            ),
{
    assert forall|i: int| 0 <= i < c.held.len() implies (#[trigger] all_paced(c).held[i]).wf(
        c.lane as int,
    ) by {
        let one = c.held[i];
        assert(one.wf(c.lane as int));
        assert(c.step * one.heading == c.step || c.step * one.heading == -c.step)
            by (nonlinear_arith)
            requires
                one.heading == 1 || one.heading == -1,
        ;
    }
}

/// The handles of those with a game client behind them, last first.
pub open spec fn attended(held: Seq<Held>) -> Seq<EntityHandle>
    decreases held.len(),
{
    if held.len() == 0 {
        Seq::empty()
    } else {
        let rest = attended(held.drop_last());
        if held.last().kind == EntityKind::Observer {
            seq![held.last().handle] + rest
        } else {
            rest
        }
    }
}

/// The handles a churn of `n` gives back: the last observers held, last first.
pub open spec fn leaving(held: Seq<Held>, n: int) -> Seq<EntityHandle> {
    attended(held).take(n)
}

/// Whether a churn of `n` has anything to do: some are to leave, and as many
/// observers are held.
pub open spec fn can_churn(held: Seq<Held>, n: int) -> bool {
    0 < n <= attended(held).len()
}

/// Whether a run of calls gives back these handles, in order.
pub open spec fn gives_back<E>(handles: Seq<EntityHandle>, said: Seq<Call<E>>) -> bool {
    forall|k: int|
        0 <= k < said.len() ==> {
            &&& #[trigger] said[k] matches Call::Despawn { handle, .. }
            &&& handle == handles[k]
        }
}

/// With the entities that a churn gives back no longer held.
pub open spec fn thinned(c: CrowdState, n: int) -> CrowdState {
    CrowdState { held: kept(c.held, leaving(c.held, n)), ..c }
}

/// What a churn of `n` says, answers and leaves behind. More than the observers
/// held, or none, is nothing to do. Otherwise `n` observers are given back; if one
/// is refused that is the answer and the crowd is as it was. Then as many are
/// asked for; if one is refused that is the answer.
pub open spec fn churns<E>(
    c: CrowdState,
    n: usize,
    said: Seq<Call<E>>,
    r: Result<usize, E>,
    after: CrowdState,
) -> bool {
    let d = if said.len() < n {
        said.len() as int
    } else {
        n as int
    };
    let given = said.take(d);
    let asked = said.skip(d);
    if !can_churn(c.held, n as int) {
        &&& said.len() == 0
        &&& r == Ok::<usize, E>(0)
        &&& after == c
    } else {
        &&& 0 < said.len()
        &&& gives_back(leaving(c.held, n as int), given)
        &&& match refusal(given.last()) {
            Some(e) => {
                &&& went_through(given, n as int, Some(e))
                &&& asked.len() == 0
                &&& r == Err::<usize, E>(e)
                &&& after == c
            },
            None => {
                &&& went_through(given, n as int, None)
                &&& asks(thinned(c, n as int), population(n as int, n as int), asked)
                &&& went_through(asked, n as int, r.err())
                &&& r is Ok ==> r == Ok::<usize, E>(n)
                &&& after == took_on(thinned(c, n as int), asked)
            },
        }
    }
}

impl Crowd {
    /// Hands back `n` observers and asks for that many replacements, which is what
    /// game clients coming and going looks like from here.
    pub fn churn<L: Link>(&mut self, sending: &mut Line<L>, n: usize) -> (r: Result<
        usize,
        L::Error,
    >)
        requires
            old(self)@.wf(),
            old(self)@.next + n <= usize::MAX,
        ensures
            ({
                let said = since(old(sending).calls(), final(sending).calls());
                &&& final(sending).calls() == old(sending).calls() + said
                &&& relayed(old(sending).end(), said, final(sending).end())
                &&& churns(old(self)@, n, said, r, final(self)@)
            }),
            final(self)@.wf(),
    {
        let ghost c = self@;
        let ghost before = sending.calls();
        let ghost none: Seq<Call<L::Error>> = Seq::empty();
        assert(before + none =~= before);
        assert(before.skip(before.len() as int) =~= none);
        if n == 0 {
            return Ok(0);
        }
        let mut going: Vec<EntityHandle> = Vec::new();
        let mut left: usize = self.held.len();
        assert(c.held.take(left as int) =~= c.held);
        assert(going@ + attended(c.held) =~= attended(c.held));
        while going.len() < n && left > 0
            invariant
                c == self@,
                left <= self.held@.len(),
                going@.len() <= n,
                attended(c.held) == going@ + attended(c.held.take(left as int)),
            decreases left,
        {
            left = left - 1;
            let one: Held = self.held[left];
            assert(c.held.take(left + 1).drop_last() =~= c.held.take(left as int));
            let ghost rest = attended(c.held.take(left as int));
            if one.kind == EntityKind::Observer {
                assert(going@ + (seq![one.handle] + rest) =~= going@.push(one.handle) + rest);
                going.push(one.handle);
            }
        }
        if going.len() < n {
            assert(attended(c.held) =~= going@);
            return Ok(0);
        }
        assert(going@ =~= leaving(c.held, n as int));
        let ghost mut given: Seq<Call<L::Error>> = Seq::empty();
        for k in 0..n
            invariant
                can_churn(c.held, n as int),
                c == old(self)@,
                c == self@,
                c.wf(),
                before == old(sending).calls(),
                going@ == leaving(c.held, n as int),
                going@.len() == n,
                sending.calls() == before + given,
                relayed(old(sending).end(), given, sending.end()),
                given.len() == k,
                gives_back(going@, given),
                forall|j: int| 0 <= j < k ==> refusal(#[trigger] given[j]) is None,
        {
            let ghost mid = sending.end();
            let r: Result<(), L::Error> = sending.despawn(going[k]);
            proof {
                let call = Call::Despawn { handle: going@[k as int], done: r };
                let more = given.push(call);
                relaying_one_more(old(sending).end(), given, mid, call, sending.end());
                assert((before + given).push(call) =~= before + more);
                assert forall|j: int| 0 <= j < more.len() implies {
                    &&& #[trigger] more[j] matches Call::Despawn { handle, .. }
                    &&& handle == going@[j]
                } by {
                    if j < k {
                        assert(more[j] == given[j]);
                    }
                }
                assert forall|j: int| 0 <= j < k implies refusal(#[trigger] more[j]) is None by {
                    assert(more[j] == given[j]);
                }
                given = more;
                assert((before + given).skip(before.len() as int) =~= given);
            }
            match r {
                Ok(_) => {},
                Err(e) => {
                    assert(given.take(k + 1) =~= given);
                    assert(given.skip(k + 1) =~= Seq::empty());
                    assert(given.last() == Call::<L::Error>::Despawn {
                        handle: going@[k as int],
                        done: Err(e),
                    });
                    return Err(e);
                },
            }
        }
        // Dropped here rather than when the edge confirms. The edge has already
        // forgotten them, so anything this crowd did with them afterwards would
        // be naming an entity that is not there.
        self.drop_all(&going);
        let ghost between = sending.calls();
        let ghost mid = sending.end();
        let r: Result<(), L::Error> = self.ask_for(sending, n, n);
        proof {
            let asked = since(between, sending.calls());
            let said = given + asked;
            relaying_goes_on(old(sending).end(), given, mid, asked, sending.end());
            assert(sending.calls() =~= before + said);
            assert((before + said).skip(before.len() as int) =~= said);
            assert(said.take(n as int) =~= given);
            assert(said.skip(n as int) =~= asked);
            assert(given.last() == given[n - 1]);
        }
        match r {
            Ok(_) => Ok(n),
            Err(e) => Err(e),
        }
    }
}

/// Where a migration sweep looks on its `j`th step.
pub open spec fn spot(c: CrowdState, j: int) -> int {
    (c.cursor + 1 + j) % c.held.len() as int
}

/// The places of those that a sweep of `k` steps takes: only entities the regions
/// have answered for, since one still in flight has no id to give back.
pub open spec fn going(c: CrowdState, k: int) -> Seq<int>
    decreases k,
{
    if k <= 0 {
        Seq::empty()
    } else if c.held[spot(c, k - 1)].entity is Some {
        going(c, k - 1).push(spot(c, k - 1))
    } else {
        going(c, k - 1)
    }
}

/// The other region of the pair.
pub open spec fn other_side(c: CrowdState, away: RegionId, region: RegionId) -> RegionId {
    if region == c.home {
        away
    } else {
        c.home
    }
}

/// Whether a run of calls moves these entities to the other region, in order,
/// each where it stands.
pub open spec fn moves_over<E>(
    c: CrowdState,
    away: RegionId,
    places: Seq<int>,
    said: Seq<Call<E>>,
) -> bool {
    forall|k: int|
        0 <= k < said.len() ==> {
            &&& #[trigger] said[k] matches Call::Migrate { handle, to, at, .. }
            &&& handle == c.held[places[k]].handle
            &&& to == other_side(c, away, c.held[places[k]].region)
            &&& at == c.held[places[k]].at
        }
}

/// With what was moved held by its new handle, in its new region, and waiting for
/// an id.
pub open spec fn moved_over<E>(
    c: CrowdState,
    away: RegionId,
    places: Seq<int>,
    said: Seq<Call<E>>,
) -> CrowdState
    decreases said.len(),
{
    if said.len() == 0 {
        c
    } else {
        let b = moved_over(c, away, places, said.drop_last());
        let i = places[said.len() - 1];
        match said.last() {
            Call::Migrate { answer: Ok(handle), .. } => CrowdState {
                held: b.held.update(
                    i,
                    Held {
                        handle,
                        region: other_side(c, away, c.held[i].region),
                        entity: None,
                        ..c.held[i]
                    },
                ),
                migrated: (b.migrated + 1) as u64,
                ..b
            },
            _ => b,
        }
    }
}

/// How many steps a sweep for `n` takes.
pub open spec fn sweep_len(c: CrowdState, n: usize) -> int {
    if n < c.held.len() {
        n as int
    } else {
        c.held.len() as int
    }
}

/// What a migration of `n` says, answers and leaves behind. A crowd told of
/// nowhere else has nothing to do. The sweep goes on from where the last stopped,
/// and the moves stop at the first that is refused.
pub open spec fn migrates<E>(
    c: CrowdState,
    n: usize,
    said: Seq<Call<E>>,
    r: Result<(), E>,
    after: CrowdState,
) -> bool {
    let k = sweep_len(c, n);
    match c.away {
        Some(away) if k > 0 => {
            &&& moves_over(c, away, going(c, k), said)
            &&& went_through(said, going(c, k).len() as int, r.err())
            &&& after == (CrowdState {
                cursor: ((c.cursor + k) % c.held.len() as int) as usize,
                ..moved_over(c, away, going(c, k), said)
            })
        },
        _ => {
            &&& said.len() == 0
            &&& r is Ok
            &&& after == c
        },
    }
}

/// A sweep of no more steps than there are entities looks at none twice.
pub(crate) proof fn a_sweep_repeats_nothing(c: CrowdState, k: int)
    requires
        0 <= k <= c.held.len(),
    ensures
        going(c, k).len() <= k,
        forall|a: int|
            0 <= a < going(c, k).len() ==> {
                &&& 0 <= #[trigger] going(c, k)[a] < c.held.len()
                &&& c.held[going(c, k)[a]].entity is Some
                &&& exists|j: int| 0 <= j < k && going(c, k)[a] == #[trigger] spot(c, j)
            },
        forall|a: int, b: int|
            0 <= a < b < going(c, k).len() ==> #[trigger] going(c, k)[a] != #[trigger] going(c, k)[b],
    decreases k,
{
    if k > 0 {
        a_sweep_repeats_nothing(c, k - 1);
        let rest = going(c, k - 1);
        let all = going(c, k);
        let last = spot(c, k - 1);
        let len = c.held.len() as int;
        assert(0 <= last < len) by (nonlinear_arith)
            requires
                last == (c.cursor + 1 + (k - 1)) % len,
                len > 0,
        ;
        assert forall|a: int| 0 <= a < all.len() implies {
            &&& 0 <= #[trigger] all[a] < c.held.len()
            &&& c.held[all[a]].entity is Some
            &&& exists|j: int| 0 <= j < k && all[a] == #[trigger] spot(c, j)
        } by {
            if a < rest.len() {
                assert(all[a] == rest[a]);
                let j = choose|j: int| 0 <= j < k - 1 && rest[a] == #[trigger] spot(c, j);
                assert(all[a] == spot(c, j));
            } else {
                assert(all[a] == spot(c, k - 1));
            }
        }
        assert forall|a: int, b: int| 0 <= a < b < all.len() implies #[trigger] all[a]
            != #[trigger] all[b] by {
            assert(all[a] == rest[a]);
            if b < rest.len() {
                assert(all[b] == rest[b]);
            } else {
                let j = choose|j: int| 0 <= j < k - 1 && rest[a] == #[trigger] spot(c, j);
                spots_differ(c, j, k - 1);
            }
        }
    }
}

/// Two steps of one sweep look at different places.
pub(crate) proof fn spots_differ(c: CrowdState, i: int, j: int)
    requires
        0 <= i < j < c.held.len(),
    ensures
        spot(c, i) != spot(c, j),
{
    let len = c.held.len() as int;
    let a = c.cursor + 1 + i;
    let b = c.cursor + 1 + j;
    if a % len == b % len {
        vstd::arithmetic::div_mod::lemma_fundamental_div_mod(a, len);
        vstd::arithmetic::div_mod::lemma_fundamental_div_mod(b, len);
        let p = a / len;
        let q = b / len;
        assert(b - a == len * (q - p)) by (nonlinear_arith)
            requires
                a == len * p + a % len,
                b == len * q + b % len,
                a % len == b % len,
        ;
        assert(false) by (nonlinear_arith)
            requires
                0 < b - a < len,
                b - a == len * (q - p),
        ;
    }
}

impl Crowd {
    /// Walks some of the crowd into the other region, and some of it back.
    ///
    /// A cursor sweeps the crowd rather than its front: taking a fixed prefix
    /// would walk the same few back and forth while the rest never moved.
    pub fn migrate<L: Link>(&mut self, sending: &mut Line<L>, n: usize) -> (r: Result<(), L::Error>)
        requires
            old(self)@.wf(),
            old(self)@.migrated + old(self)@.held.len() <= u64::MAX,
        ensures
            ({
                let said = since(old(sending).calls(), final(sending).calls());
                &&& final(sending).calls() == old(sending).calls() + said
                &&& relayed(old(sending).end(), said, final(sending).end())
                &&& migrates(old(self)@, n, said, r, final(self)@)
            }),
            final(self)@.wf(),
    {
        let ghost c = self@;
        let ghost before = sending.calls();
        let ghost none: Seq<Call<L::Error>> = Seq::empty();
        assert(before + none =~= before);
        assert(before.skip(before.len() as int) =~= none);
        let away: RegionId = match self.away {
            Some(away) => away,
            None => {
                return Ok(());
            },
        };
        let len: usize = self.held.len();
        if n == 0 || len == 0 {
            return Ok(());
        }
        let steps: usize = if n < len {
            n
        } else {
            len
        };
        let ghost places = going(c, steps as int);
        let mut found: Vec<usize> = Vec::new();
        for k in 0..steps
            invariant
                0 < len,
                steps <= len,
                len == c.held.len(),
                c.wf(),
                self@ == (CrowdState { cursor: self@.cursor, ..c }),
                self@.cursor < usize::MAX,
                self@.cursor as int == if k == 0 {
                    c.cursor as int
                } else {
                    (c.cursor + k) % len as int
                },
                found@.len() == going(c, k as int).len(),
                found@.len() <= k,
                forall|a: int|
                    0 <= a < found@.len() ==> #[trigger] found@[a] as int == going(c, k as int)[a],
        {
            proof {
                next_spot(c, k as int, self@.cursor as int);
            }
            self.cursor = (self.cursor + 1) % len;
            assert(self.cursor as int == spot(c, k as int));
            if self.held[self.cursor].entity.is_some() {
                found.push(self.cursor);
            }
        }
        proof {
            a_sweep_repeats_nothing(c, steps as int);
        }
        let ghost mut said: Seq<Call<L::Error>> = Seq::empty();
        let total: usize = found.len();
        for k in 0..total
            invariant
                c == old(self)@,
                before == old(sending).calls(),
                c.wf(),
                c.away == Some(away),
                0 < len,
                len == c.held.len(),
                n > 0,
                steps == sweep_len(c, n),
                places == going(c, steps as int),
                total == places.len(),
                total <= len,
                found@.len() == total,
                forall|a: int| 0 <= a < total ==> #[trigger] found@[a] as int == places[a],
                forall|a: int| 0 <= a < total ==> 0 <= #[trigger] places[a] < len,
                forall|a: int, b: int|
                    0 <= a < b < total ==> #[trigger] places[a] != #[trigger] places[b],
                c.migrated + len <= u64::MAX,
                self@.migrated == c.migrated + k,
                sending.calls() == before + said,
                relayed(old(sending).end(), said, sending.end()),
                said.len() == k,
                moves_over(c, away, places, said),
                forall|j: int| 0 <= j < k ==> refusal(#[trigger] said[j]) is None,
                self@ == (CrowdState {
                    cursor: ((c.cursor + steps) % len as int) as usize,
                    ..moved_over(c, away, places, said)
                }),
                self@.held.len() == len,
                self@.home == c.home,
                self@.lane == c.lane,
                self@.wf(),
                forall|a: int|
                    k <= a < total ==> self@.held[#[trigger] places[a]] == c.held[places[a]],
        {
            let i: usize = found[k];
            let one: Held = self.held[i];
            assert(i as int == places[k as int]);
            assert(one == c.held[i as int]);
            assert(one.wf(c.lane as int));
            // The same coordinates in the other region: both are one size, so a
            // door is wherever the game says it is.
            let there: RegionId = if one.region == self.home {
                away
            } else {
                self.home
            };
            let ghost mid = sending.end();
            let r: Result<EntityHandle, L::Error> = sending.migrate(one.handle, there, one.at);
            let ghost call = Call::Migrate { handle: one.handle, to: there, at: one.at, answer: r };
            let ghost more = said.push(call);
            proof {
                relaying_one_more(old(sending).end(), said, mid, call, sending.end());
                assert((before + said).push(call) =~= before + more);
                assert(more.drop_last() =~= said);
                assert forall|j: int| 0 <= j < more.len() implies {
                    &&& #[trigger] more[j] matches Call::Migrate { handle, to, at, .. }
                    &&& handle == c.held[places[j]].handle
                    &&& to == other_side(c, away, c.held[places[j]].region)
                    &&& at == c.held[places[j]].at
                } by {
                    if j < k {
                        assert(more[j] == said[j]);
                    }
                }
                assert forall|j: int| 0 <= j < k implies refusal(#[trigger] more[j]) is None by {
                    assert(more[j] == said[j]);
                }
                assert((before + more).skip(before.len() as int) =~= more);
            }
            match r {
                Ok(handle) => {
                    let ghost h = self@;
                    self.held.set(
                        i,
                        Held { handle, region: there, entity: None, ..one },
                    );
                    self.migrated = self.migrated + 1;
                    proof {
                        assert forall|j: int| 0 <= j < self@.held.len() implies (
                        #[trigger] self@.held[j]).wf(c.lane as int) by {
                            assert(h.held[j].wf(c.lane as int));
                        }
                        assert forall|a: int| k < a < total implies self@.held[
                            #[trigger] places[a]] == c.held[places[a]] by {
                            assert(places[k as int] != places[a]);
                        }
                        said = more;
                    }
                },
                Err(e) => {
                    assert(more.last() == call);
                    return Err(e);
                },
            }
        }
        assert((before + said).skip(before.len() as int) =~= said);
        Ok(())
    }
}

/// A sweep's next step follows from where the cursor is.
pub(crate) proof fn next_spot(c: CrowdState, k: int, cursor: int)
    requires
        0 < c.held.len(),
        0 <= k,
        cursor == if k == 0 {
            c.cursor as int
        } else {
            (c.cursor + k) % c.held.len() as int
        },
    ensures
        (cursor + 1) % c.held.len() as int == spot(c, k),
        spot(c, k) == (c.cursor + (k + 1)) % c.held.len() as int,
        0 <= spot(c, k) < c.held.len(),
{
    let len = c.held.len() as int;
    if k > 0 {
        vstd::arithmetic::div_mod::lemma_add_mod_noop_right(1, c.cursor + k, len);
    }
    vstd::arithmetic::div_mod::lemma_mod_bound(c.cursor + 1 + k, len);
}

/// Whether a handle is among these.
fn contains(handles: &Vec<EntityHandle>, handle: EntityHandle) -> (found: bool)
    ensures
        found == handles@.contains(handle),
{
    for k in 0..handles.len()
        invariant
            forall|j: int| 0 <= j < k ==> handles@[j] != handle,
    {
        if handles[k] == handle {
            assert(handles@[k as int] == handle);
            return true;
        }
    }
    false
}

/// Taking entities on changes what is held and where the next starts, and nothing
/// else.
pub(crate) proof fn taking_on_keeps_the_rest<E>(c: CrowdState, said: Seq<Call<E>>)
    requires
        c.next + said.len() <= usize::MAX,
    ensures
        took_on(c, said) == (CrowdState {
            held: took_on(c, said).held,
            next: (c.next + said.len()) as usize,
            ..c
        }),
        took_on(c, said).held.len() <= c.held.len() + said.len(),
        forall|i: int|
            0 <= i < c.held.len() ==> #[trigger] took_on(c, said).held[i] == c.held[i],
        c.held.len() <= took_on(c, said).held.len(),
    decreases said.len(),
{
    if said.len() > 0 {
        taking_on_keeps_the_rest(c, said.drop_last());
    }
}

/// When nothing was refused, everything asked for is held.
proof fn all_taken_on<E>(after: CrowdState, c: CrowdState, said: Seq<Call<E>>)
    requires
        c.next + said.len() <= usize::MAX,
        after == took_on(c, said),
        forall|k: int| 0 <= k < said.len() ==> #[trigger] said[k] is Spawn,
        forall|k: int| 0 <= k < said.len() ==> refusal(#[trigger] said[k]) is None,
    ensures
        after.held.len() == c.held.len() + said.len(),
    decreases said.len(),
{
    if said.len() > 0 {
        let rest = said.drop_last();
        assert(said.last() is Spawn && refusal(said.last()) is None);
        assert forall|k: int| 0 <= k < rest.len() implies #[trigger] rest[k] is Spawn && refusal(
            rest[k],
        ) is None by {
            assert(rest[k] == said[k]);
        }
        all_taken_on(took_on(c, rest), c, rest);
    }
}

/// A walker covers at most its second's distance in one send.
proof fn strides_fit(hz: u32)
    requires
        hz >= 1,
    ensures
        0 <= 2048int / hz as int <= 2048,
{
    assert(0 <= 2048int / hz as int <= 2048) by (nonlinear_arith)
        requires
            hz >= 1,
    ;
}

} // verus!
