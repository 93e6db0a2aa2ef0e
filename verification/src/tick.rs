//! What one tick makes of a herd and its region.
//!
//! Each pass of a tick is a function here, and [`stepped`] is their
//! composition. The passes that draw go entity by entity in id order, because
//! every draw moves the one generator on; the rest are stated outright.

use vstd::prelude::*;

use crate::motion::{
    in_reach, is_gathering, offset_of, retargeted, scramble_twice, strode, Mind, Plan, ATTRACTORS,
    ATTRACTOR_RADIUS_M, FLAP_M, FLASH_SPEED, HEALTH_MAX, HORIZON_S, PHASE_S, THRASH_SPEED,
};
use crate::pattern::Pattern;
use crate::region::RegionState;
use crate::rng::{drawn, scramble, seeded};
use crate::units::{clamped, Pos2, Pos3};
use crate::world::World;

verus! {

/// Meters held clear of the region edge, so a destination is always inside it.
pub const MARGIN_M: i32 = 8;

/// Entities that spawn near an attractor rather than anywhere, in sixteenths.
/// Only a class that can move is eligible: an immobile prop placed in a crowd
/// pins that crowd. Ten of sixteen is 62.5%, so a population is dense around a
/// place before a simulation starts.
pub const SPAWN_AT_ATTRACTOR_IN_16: u32 = 10;

/// Entities in a cell before it starts hurting them, unless told otherwise.
pub const CROWD_THRESHOLD: usize = 1_500;

/// Crowding damage per tick is the excess over the threshold divided by this,
/// unless told otherwise.
pub const DAMAGE_DIVISOR: usize = 100;

/// Health recovered per tick anywhere below the threshold.
pub const REGEN: i16 = 5;

/// Entities per thousand that jump each tick under [`Pattern::Teleport`].
pub const TELEPORT_PER_MILLE: usize = 1;

/// Seconds between [`Pattern::Cull`] events.
pub const CULL_PERIOD_S: u32 = 30;

/// The share that dies in one, in sixteenths.
pub const CULL_IN_16: u32 = 4;

/// Mean seconds an entity lives before it dies of nothing in particular.
pub const LIFESPAN_S: u32 = 2_400;

/// The most the spawner replaces in one tick, so a die-off refills over several
/// ticks instead of arriving as one spike.
pub const MAX_SPAWNS_PER_TICK: usize = 64;

/// What a herd holds.
#[verifier::ext_equal]
pub struct HerdState {
    pub plan: Plan,
    pub world: World,
    /// What the game keeps of each entity, by id.
    pub minds: Seq<Mind>,
    /// The state of the generator.
    pub rng: u64,
    /// The population that the first step spawns.
    pub pending: Seq<Pos3>,
    /// Entities that both move and belong somewhere.
    pub residents: Seq<u32>,
    /// Population by cell, as of the last step.
    pub occupancy: Seq<u32>,
    /// What the spawner refills toward.
    pub target: usize,
    /// Mean ticks lived.
    pub lifespan: u32,
    pub crowd_threshold: usize,
    pub damage_divisor: usize,
    pub deaths: u64,
    pub births: u64,
}

impl HerdState {
    /// What holds of a herd at every tick.
    pub open spec fn wf(self) -> bool {
        &&& self.plan.wf()
        &&& self.world.wf()
        &&& self.plan.lo == MARGIN_M * 1024
        &&& self.plan.hi == self.world.region_size - self.plan.lo
        &&& self.plan.hz == self.world.tick_hz
        &&& forall|i: int| 0 <= i < self.minds.len() ==> (#[trigger] self.minds[i]).wf()
        &&& forall|k: int|
            0 <= k < self.residents.len() ==> self.is_resident(#[trigger] self.residents[k] as int)
        &&& self.occupancy.len() == self.world.cells_per_region
        &&& self.lifespan > 0 || self.target == 0
        &&& self.pending.len() > 0 ==> self.pending.len() == self.minds.len() <= u32::MAX
    }

    /// Whether the game created the entity, and it both moves and belongs
    /// somewhere.
    pub open spec fn is_resident(self, i: int) -> bool {
        &&& 0 <= i < self.minds.len()
        &&& self.minds[i].mine
        &&& self.minds[i].speed > 0
        &&& self.minds[i].home is Some
    }

    /// The same herd but for what its entities do and what is drawn next.
    pub open spec fn moved_on_from(self, before: HerdState) -> bool {
        self == (HerdState { minds: self.minds, rng: self.rng, ..before })
    }

    /// With one entity changed and the generator moved on.
    pub open spec fn with(self, i: int, m: Mind, rng: u64) -> HerdState {
        HerdState { minds: self.minds.update(i, m), rng, ..self }
    }
}

/// Meters per second and thousandths of the motion class that a roll below 100
/// picks. 35 in a hundred never move, 25 idle, 25 walk, 10 run and 5 drive.
pub open spec fn class_of(roll: int) -> (int, int) {
    if roll < 35 {
        (0, 0)
    } else if roll < 60 {
        (0, 200)
    } else if roll < 85 {
        (1, 500)
    } else if roll < 95 {
        (6, 0)
    } else {
        (30, 0)
    }
}

/// The motion classes: a share in a hundred, meters per second, and thousandths.
pub open spec fn classes() -> Seq<(u32, i32, i32)> {
    seq![(35u32, 0i32, 0i32), (25u32, 0i32, 200i32), (25u32, 1i32, 500i32), (10u32, 6i32, 0i32), (
        5u32,
        30i32,
        0i32,
    )]
}

/// The shares of the first `k` classes, together.
pub open spec fn share_of_first(k: int) -> int
    decreases k,
{
    if k <= 0 {
        0
    } else {
        share_of_first(k - 1) + classes()[k - 1].0
    }
}

/// A roll picks each class as often as its share says, and the shares fill the
/// hundred.
pub proof fn a_roll_picks_by_share(roll: int, k: int)
    requires
        0 <= k < classes().len(),
        share_of_first(k) <= roll < share_of_first(k + 1),
    ensures
        class_of(roll) == (classes()[k].1 as int, classes()[k].2 as int),
        share_of_first(classes().len() as int) == 100,
{
    reveal_with_fuel(share_of_first, 6);
}

/// Raw units per tick of a motion class.
pub open spec fn class_speed(class: (int, int), hz: int) -> int {
    (class.0 * 1024 + class.1 * 1024 / 1000) / hz
}

/// Raw units per tick of an entity that a run starts with. A hostile pattern
/// has a speed of its own for whatever moves.
pub open spec fn starting_speed(plan: Plan, class: (int, int)) -> int {
    let moves = class.0 > 0 || class.1 > 0;
    match plan.pattern {
        Pattern::Flap => if moves {
            FLAP_M * 1024
        } else {
            0
        },
        Pattern::Flash => if moves {
            FLASH_SPEED * 1024 / plan.hz
        } else {
            0
        },
        Pattern::Thrash => if moves {
            THRASH_SPEED * 1024 / plan.hz
        } else {
            0
        },
        _ => class_speed(class, plan.hz),
    }
}

/// A point anywhere between the margins. Takes two draws.
pub open spec fn anywhere(plan: Plan, s: u64) -> Pos2 {
    Pos2 {
        x: (plan.lo + drawn(s, plan.hi - plan.lo + 1)) as i32,
        y: (plan.lo + drawn(scramble(s), plan.hi - plan.lo + 1)) as i32,
    }
}

/// Where a new entity belongs and where it appears, and the state after. One
/// that moves may be a resident, which appears near its home; every one that
/// moves is, if `always`.
pub open spec fn placed(plan: Plan, speed: int, always: bool, s: u64) -> (Option<u8>, Pos2, u64) {
    let asks = speed > 0 && !always;
    let resident = speed > 0 && (always || drawn(s, 16) < SPAWN_AT_ATTRACTOR_IN_16);
    let t = if asks {
        scramble(s)
    } else {
        s
    };
    if resident {
        let home = drawn(t, ATTRACTORS as int) as u8;
        let u = scramble(t);
        (
            Some(home),
            offset_of(plan, plan.attractors[home as int], ATTRACTOR_RADIUS_M * 1024, u),
            scramble_twice(u),
        )
    } else {
        (None, anywhere(plan, t), scramble_twice(t))
    }
}

/// An entity this game has just created, before it picks a destination.
pub open spec fn newborn(
    plan: Plan,
    speed: int,
    home: Option<u8>,
    dest: Pos2,
    gathering: bool,
    dies_at: u32,
) -> Mind {
    Mind {
        mine: true,
        vel_x: 0,
        vel_y: 0,
        speed: speed as i32,
        dest,
        horizon: (speed * (HORIZON_S * plan.hz)) as i32,
        wait: 0,
        dwell: 0,
        home,
        phase_at: gathering,
        health: HEALTH_MAX,
        dies_at,
    }
}

/// An entity that an edge created: no speed, no home, and no lifespan.
pub open spec fn stranger() -> Mind {
    Mind {
        mine: false,
        vel_x: 0,
        vel_y: 0,
        speed: 0,
        dest: Pos2 { x: 0, y: 0 },
        horizon: 0,
        wait: 0,
        dwell: 0,
        home: None,
        phase_at: false,
        health: HEALTH_MAX,
        dies_at: u32::MAX,
    }
}

/// With a mind for every slot. Those that had none are strangers.
pub open spec fn adopted(h: HerdState, slots: int) -> HerdState {
    HerdState {
        minds: if h.minds.len() >= slots {
            h.minds
        } else {
            h.minds + Seq::new((slots - h.minds.len()) as nat, |k: int| stranger())
        },
        ..h
    }
}

/// Where an entity stands.
pub open spec fn ground(w: RegionState, i: int) -> Pos2 {
    Pos2 { x: w.xs[i], y: w.ys[i] }
}

/// Whether this game moves an entity.
pub open spec fn moves(h: HerdState, w: RegionState, i: int) -> bool {
    &&& w.live.contains(i as u32)
    &&& h.minds[i].mine
    &&& h.minds[i].speed > 0
}

/// Everything this game moves is where arithmetic in raw units can be done.
pub open spec fn movers_in_reach(h: HerdState, w: RegionState) -> bool {
    forall|i: int|
        0 <= i < h.minds.len() && moves(h, w, i) ==> in_reach(#[trigger] ground(w, i))
}

/// One live entity moved, and the generator with it. A dead one stays.
pub open spec fn walked_one(h: HerdState, w: RegionState, gathering: bool, i: int) -> (
    HerdState,
    RegionState,
) {
    if w.live.contains(i as u32) {
        let (m, p, t) = strode(h.plan, h.minds[i], ground(w, i), gathering, h.rng);
        (h.with(i, m, t), w.move_to(i, p.x, p.y))
    } else {
        (h, w)
    }
}

/// The first `k` entities moved.
pub open spec fn walked(h: HerdState, w: RegionState, gathering: bool, k: int) -> (
    HerdState,
    RegionState,
)
    decreases k,
{
    if k <= 0 {
        (h, w)
    } else {
        let (h1, w1) = walked(h, w, gathering, k - 1);
        walked_one(h1, w1, gathering, k - 1)
    }
}

/// One jump: an entity drawn from all slots lands anywhere, if it is alive, this
/// game's own, and moves.
pub open spec fn jumped_once(h: HerdState, w: RegionState) -> (HerdState, RegionState) {
    let i = drawn(h.rng, w.slots() as int);
    let t = scramble(h.rng);
    if w.live.contains(i as u32) && h.minds[i].mine && h.minds[i].speed != 0 {
        let p = anywhere(h.plan, t);
        (HerdState { rng: scramble_twice(t), ..h }, w.move_to(i, p.x, p.y))
    } else {
        (HerdState { rng: t, ..h }, w)
    }
}

/// `k` jumps.
pub open spec fn jumped(h: HerdState, w: RegionState, k: int) -> (HerdState, RegionState)
    decreases k,
{
    if k <= 0 {
        (h, w)
    } else {
        let (h1, w1) = jumped(h, w, k - 1);
        jumped_once(h1, w1)
    }
}

/// One entity culled, by one draw, if it is alive and this game's own. Its
/// health falls past anything that recovery can pull back.
pub open spec fn culled_one(h: HerdState, w: RegionState, i: int) -> HerdState {
    if w.live.contains(i as u32) && h.minds[i].mine {
        let m = if drawn(h.rng, 16) < CULL_IN_16 {
            Mind { health: i16::MIN, ..h.minds[i] }
        } else {
            h.minds[i]
        };
        h.with(i, m, scramble(h.rng))
    } else {
        h
    }
}

/// The first `k` entities culled.
pub open spec fn culled(h: HerdState, w: RegionState, k: int) -> HerdState
    decreases k,
{
    if k <= 0 {
        h
    } else {
        culled_one(culled(h, w, k - 1), w, k - 1)
    }
}

/// What a hostile pattern does to a population that has moved.
pub open spec fn disturbed(h: HerdState, w: RegionState) -> (HerdState, RegionState) {
    match h.plan.pattern {
        Pattern::Teleport => jumped(h, w, w.slots() * TELEPORT_PER_MILLE / 1000),
        Pattern::Cull => if w.tick as int % (CULL_PERIOD_S * h.plan.hz) == 0 {
            (culled(h, w, w.slots() as int), w)
        } else {
            (h, w)
        },
        _ => (h, w),
    }
}

/// How many of the first `k` entities are alive in a cell.
pub open spec fn headcount(world: World, w: RegionState, c: int, k: int) -> int
    decreases k,
{
    if k <= 0 {
        0
    } else {
        let here = w.live.contains((k - 1) as u32) && world.cell_at(
            w.xs[k - 1] as int,
            w.ys[k - 1] as int,
        ) == c;
        headcount(world, w, c, k - 1) + if here {
            1int
        } else {
            0
        }
    }
}

/// With every cell counted.
pub open spec fn counted(h: HerdState, w: RegionState) -> HerdState {
    HerdState {
        occupancy: Seq::new(
            h.world.cells_per_region as nat,
            |c: int| headcount(h.world, w, c, w.slots() as int) as u32,
        ),
        ..h
    }
}

/// How many stand in an entity's cell.
pub open spec fn crowd_around(h: HerdState, w: RegionState, i: int) -> int {
    h.occupancy[h.world.cell_at(w.xs[i] as int, w.ys[i] as int)] as int
}

/// An entity's health after a tick in a crowd. One over the threshold hurts by
/// its excess, divided, and no further than 16 bits go; any other lets it recover.
pub open spec fn health_after(health: i16, crowd: int, threshold: int, divisor: int) -> i16 {
    if crowd > threshold {
        clamped(health - (crowd - threshold) / divisor, i16::MIN as int, i16::MAX as int) as i16
    } else if health + REGEN < HEALTH_MAX {
        (health + REGEN) as i16
    } else {
        HEALTH_MAX
    }
}

/// With every live entity hurt or recovered.
pub open spec fn hurt(h: HerdState, w: RegionState) -> HerdState {
    HerdState {
        minds: Seq::new(
            h.minds.len(),
            |i: int|
                if i < w.slots() && w.live.contains(i as u32) {
                    Mind {
                        health: health_after(
                            h.minds[i].health,
                            crowd_around(h, w, i),
                            h.crowd_threshold as int,
                            h.damage_divisor as int,
                        ),
                        ..h.minds[i]
                    }
                } else {
                    h.minds[i]
                },
        ),
        ..h
    }
}

/// Whether a live entity dies: it has no health left, or its time has come.
pub open spec fn is_dying(h: HerdState, w: RegionState, i: int) -> bool {
    &&& w.live.contains(i as u32)
    &&& h.minds[i].health <= 0 || w.tick >= h.minds[i].dies_at
}

/// Those of the first `k` entities that die, in order.
pub open spec fn dying(h: HerdState, w: RegionState, k: int) -> Seq<u32>
    decreases k,
{
    if k <= 0 {
        Seq::empty()
    } else if is_dying(h, w, k - 1) {
        dying(h, w, k - 1).push((k - 1) as u32)
    } else {
        dying(h, w, k - 1)
    }
}

/// With the dead despawned and counted.
pub open spec fn buried(h: HerdState, w: RegionState, dead: Seq<u32>) -> (HerdState, RegionState) {
    (
        HerdState { deaths: (h.deaths + dead.len()) as u64, ..h },
        RegionState {
            live: w.live.difference(dead.to_set()),
            gone: w.gone + dead,
            ..w
        },
    )
}

/// With one entity more, in a new slot.
pub open spec fn born(h: HerdState, w: RegionState, gathering: bool) -> (HerdState, RegionState) {
    let speed = class_speed(class_of(drawn(h.rng, 100)), h.plan.hz);
    let (home, at, s) = placed(h.plan, speed, false, scramble(h.rng));
    let z = drawn(s, h.world.vertical_extent as int) as i32;
    let t = scramble(s);
    let dies_at = (w.tick + h.lifespan as int / 2 + 1 + drawn(t, h.lifespan as int))
        % 0x1_0000_0000;
    let young = newborn(h.plan, speed, home, at, gathering, dies_at as u32);
    let (m, u) = retargeted(h.plan, young, at, gathering, scramble(t));
    (
        HerdState {
            minds: h.minds.push(m),
            rng: u,
            residents: if home is Some {
                h.residents.push(w.slots() as u32)
            } else {
                h.residents
            },
            births: (h.births + 1) as u64,
            ..h
        },
        w.spawn(Pos3 { x: at.x, y: at.y, z }),
    )
}

/// With `k` entities more.
pub open spec fn refilled(h: HerdState, w: RegionState, gathering: bool, k: int) -> (
    HerdState,
    RegionState,
)
    decreases k,
{
    if k <= 0 {
        (h, w)
    } else {
        let (h1, w1) = refilled(h, w, gathering, k - 1);
        born(h1, w1, gathering)
    }
}

/// How many a tick replaces: what is missing from the target, a few at a time.
pub open spec fn missing(h: HerdState, w: RegionState) -> int {
    clamped(h.target - w.live.len(), 0, MAX_SPAWNS_PER_TICK as int)
}

/// The first `k` of a waiting population spawned.
pub open spec fn landed(w: RegionState, pending: Seq<Pos3>, k: int) -> RegionState
    decreases k,
{
    if k <= 0 {
        w
    } else {
        landed(w, pending, k - 1).spawn(pending[k - 1])
    }
}

/// The first `k` attractors of a run, and the state after. Each takes two draws.
pub open spec fn scattered(plan: Plan, s: u64, k: int) -> (Seq<Pos2>, u64)
    decreases k,
{
    if k <= 0 {
        (Seq::empty(), s)
    } else {
        let (rest, t) = scattered(plan, s, k - 1);
        (rest.push(anywhere(plan, t)), scramble_twice(t))
    }
}

/// Where an entity that a run starts with stands. A flapping one is put a meter
/// inside a cell, with the boundary a step away.
pub open spec fn footing(plan: Plan, world: World, speed: int, at: Pos2) -> Pos2 {
    if plan.pattern == Pattern::Flap && speed > 0 {
        let edge = (at.x as int / world.cell_size as int + 1) * world.cell_size;
        Pos2 { x: clamped(edge - 1024, plan.lo, plan.hi) as i32, ..at }
    } else {
        at
    }
}

/// With one more entity to start with, waiting to be spawned.
pub open spec fn founded_one(h: HerdState) -> HerdState {
    let speed = starting_speed(h.plan, class_of(drawn(h.rng, 100)));
    let (home, near, s) = placed(h.plan, speed, h.plan.pattern != Pattern::Herd, scramble(h.rng));
    let at = footing(h.plan, h.world, speed, near);
    let z = drawn(s, h.world.vertical_extent as int) as i32;
    let t = scramble(s);
    let dies_at = (1 + drawn(t, h.lifespan as int)) as u32;
    let young = newborn(h.plan, speed, home, Pos2 { x: 0, y: 0 }, true, dies_at);
    let (m, u) = retargeted(h.plan, young, at, true, scramble(t));
    HerdState {
        minds: h.minds.push(m),
        rng: u,
        pending: h.pending.push(Pos3 { x: at.x, y: at.y, z }),
        residents: if home is Some {
            h.residents.push(h.minds.len() as u32)
        } else {
            h.residents
        },
        ..h
    }
}

/// With `k` more entities to start with.
pub open spec fn founded(h: HerdState, k: int) -> HerdState
    decreases k,
{
    if k <= 0 {
        h
    } else {
        founded_one(founded(h, k - 1))
    }
}

/// A herd of no one yet.
pub open spec fn unfounded(world: World, n: usize, seed: u64, lifespan: u32, pattern: Pattern) ->
    HerdState {
    let lo = MARGIN_M * 1024;
    let bare = Plan {
        attractors: Seq::empty(),
        pattern,
        lo,
        hi: world.region_size - lo,
        hz: world.tick_hz as int,
    };
    let (attractors, s) = scattered(bare, seeded(seed), ATTRACTORS as int);
    HerdState {
        plan: Plan { attractors, ..bare },
        world,
        minds: Seq::empty(),
        rng: s,
        pending: Seq::empty(),
        residents: Seq::empty(),
        occupancy: Seq::new(world.cells_per_region as nat, |c: int| 0u32),
        target: n,
        lifespan,
        crowd_threshold: CROWD_THRESHOLD,
        damage_divisor: DAMAGE_DIVISOR,
        deaths: 0,
        births: 0,
    }
}

/// The herd a run starts with: a population of `n`, waiting to be spawned.
pub open spec fn founding(world: World, n: usize, seed: u64, lifespan: u32, pattern: Pattern) ->
    HerdState {
    founded(unfounded(world, n, seed, lifespan, pattern), n as int)
}

/// Whether a waiting population can land. Ids start from zero, so it lands in an
/// empty region.
pub open spec fn can_land(h: HerdState, w: RegionState) -> bool {
    &&& h.wf()
    &&& w.wf()
    &&& h.pending.len() > 0
    &&& w.slots() == 0
}

/// Whether every crowd can be dealt with, once they are counted: one over the
/// threshold needs something to divide its excess by.
pub open spec fn can_hurt(h: HerdState, w: RegionState) -> bool {
    h.damage_divisor > 0 || forall|i: int|
        0 <= i < w.slots() && w.live.contains(i as u32) ==> #[trigger] crowd_around(h, w, i)
            <= h.crowd_threshold
}

/// Whether every crowd of a tick can be dealt with, wherever everything ends up.
pub open spec fn can_bear(h: HerdState, w: RegionState) -> bool {
    let (h1, w1) = moved(h, w);
    can_hurt(counted(h1, w1), w1)
}

/// Whether a herd that has landed has room for a tick: it has a mind for no slot
/// that is not there, and the counts can go on.
pub open spec fn has_room(h: HerdState, w: RegionState) -> bool {
    &&& h.wf()
    &&& w.wf()
    &&& h.pending.len() == 0
    &&& h.minds.len() <= w.slots()
    &&& w.slots() + MAX_SPAWNS_PER_TICK <= u32::MAX
    &&& h.deaths + w.slots() <= u64::MAX
    &&& h.births + MAX_SPAWNS_PER_TICK <= u64::MAX
}

/// Whether a herd that has landed can run for a tick: it has room, and every crowd
/// can be dealt with.
pub open spec fn can_run(h: HerdState, w: RegionState) -> bool {
    has_room(h, w) && can_bear(h, w)
}

/// Whether a herd can start on a tick.
pub open spec fn can_start(h: HerdState, w: RegionState) -> bool {
    can_land(h, w) || (has_room(h, w) && movers_in_reach(h, w))
}

/// Whether a herd can step over a region: it can start on a tick, and finish it.
pub open spec fn can_step(h: HerdState, w: RegionState) -> bool {
    can_land(h, w) || (can_run(h, w) && movers_in_reach(h, w))
}

/// Ticks in one phase.
pub open spec fn phase_ticks(h: HerdState) -> int {
    PHASE_S * h.plan.hz
}

/// Everything moved, and disturbed as the pattern has it.
pub open spec fn moved(h: HerdState, w: RegionState) -> (HerdState, RegionState) {
    let gathering = is_gathering(w.tick as int, phase_ticks(h));
    let (h1, w1) = walked(adopted(h, w.slots() as int), w, gathering, w.slots() as int);
    disturbed(h1, w1)
}

/// Crowds counted where everything ended up, and everything hurt or recovered.
pub open spec fn suffered(h: HerdState, w: RegionState) -> HerdState {
    hurt(counted(h, w), w)
}

/// Everything moved and hurt, and the dead buried.
pub open spec fn survived(h: HerdState, w: RegionState) -> (HerdState, RegionState) {
    let (h1, w1) = moved(h, w);
    let h2 = suffered(h1, w1);
    buried(h2, w1, dying(h2, w1, w1.slots() as int))
}

/// One tick. The first only spawns the waiting population. Every other moves
/// what is there, hurts what is crowded, buries the dead, and refills.
pub open spec fn stepped(h: HerdState, w: RegionState) -> (HerdState, RegionState) {
    if h.pending.len() > 0 {
        (
            HerdState { pending: Seq::empty(), ..h },
            landed(w, h.pending, h.pending.len() as int),
        )
    } else {
        let gathering = is_gathering(w.tick as int, phase_ticks(h));
        let (h1, w1) = survived(h, w);
        refilled(h1, w1, gathering, missing(h1, w1))
    }
}

} // verus!
