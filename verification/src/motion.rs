//! How one entity moves, as a function of what it knows.
//!
//! An entity walks to a destination and picks another on arrival. Attractors are
//! places: an entity that belongs to one is a resident, goes home to gather and
//! spreads around home to disperse; the rest are nomads and wander.

use vstd::prelude::*;

use crate::pattern::Pattern;
use crate::rng::{drawn, scramble};
use crate::units::{a_root_exists, clamped, is_root, root, separation, trunc_div, Pos2};

verus! {

/// Places the population is drawn toward.
pub const ATTRACTORS: usize = 8;

/// How far from an attractor's center a destination lands, in meters. Half a
/// cell at the default cell size, so a crowd sits inside one or two cells.
pub const ATTRACTOR_RADIUS_M: i32 = 64;

/// Retargets by a nomad that head for an attractor rather than wandering, in
/// sixteenths.
pub const ATTRACT_IN_16: u32 = 4;

/// How far a resident spreads from home while the world is dispersing, in
/// meters. One view radius, so a resident leaves and re-enters the range of
/// anyone watching its home.
pub const DISPERSE_RADIUS_M: i32 = 256;

/// Seconds the world spends gathering, then the same dispersing.
pub const PHASE_S: u32 = 180;

/// The fewest seconds an entity stands at an attractor before moving on.
pub const DWELL_MIN_S: u32 = 5;

/// The seconds no entity stands at an attractor for.
pub const DWELL_MAX_S: u32 = 60;

/// Seconds of travel an entity commits to at once.
pub const HORIZON_S: i32 = 60;

/// Meters either side of a cell boundary a [`Pattern::Flap`] entity steps.
pub const FLAP_M: i32 = 2;

/// Meters per second a [`Pattern::Flash`] entity moves.
pub const FLASH_SPEED: i32 = 60;

/// Meters per second a [`Pattern::Thrash`] entity moves.
pub const THRASH_SPEED: i32 = 20;

/// How far out a [`Pattern::Thrash`] entity swings from its attractor, in meters.
pub const THRASH_FAR_M: i32 = 100;

/// No entity covers more in a tick, in raw units.
pub const MAX_STRIDE: i32 = 61_440;

/// No entity looks further ahead, in raw units.
pub const MAX_HORIZON: i32 = 0x0800_0000;

/// Health an entity spawns with, and the most it recovers to.
pub const HEALTH_MAX: i16 = 30_000;

/// What the game keeps of one entity, beside the position the region keeps.
#[derive(Clone, Copy, Debug, PartialEq, Eq, Structural)]
pub struct Mind {
    /// Whether this game created the entity. One that an edge spawned is left
    /// where its edge puts it.
    pub mine: bool,
    /// Raw units per tick, east.
    pub vel_x: i32,
    /// Raw units per tick, north.
    pub vel_y: i32,
    /// Raw units per tick, the magnitude the velocity was built to. Zero for a
    /// class that never moves.
    pub speed: i32,
    /// Where the entity is headed.
    pub dest: Pos2,
    /// Raw units this entity will travel toward one destination.
    pub horizon: i32,
    /// Ticks left standing where it is.
    pub wait: u32,
    /// Ticks to stand for on reaching the current destination.
    pub dwell: u32,
    /// The attractor a resident belongs to. `None` is a nomad.
    pub home: Option<u8>,
    /// The phase the current destination was chosen under.
    pub phase_at: bool,
    pub health: i16,
    /// The tick the entity dies on, whatever else happens to it.
    pub dies_at: u32,
}

/// What every entity of a run moves by.
#[verifier::ext_equal]
pub struct Plan {
    pub attractors: Seq<Pos2>,
    pub pattern: Pattern,
    /// The lowest coordinate a destination may have.
    pub lo: int,
    /// The highest coordinate a destination may have.
    pub hi: int,
    /// Ticks per second.
    pub hz: int,
}

/// Positions that arithmetic in raw units can be done on.
pub open spec fn in_reach(p: Pos2) -> bool {
    &&& -0x1000_0000 <= p.x <= 0x5000_0000
    &&& -0x1000_0000 <= p.y <= 0x5000_0000
}

impl Plan {
    /// Whether a destination is held inside the region.
    pub open spec fn holds(self, p: Pos2) -> bool {
        &&& self.lo <= p.x <= self.hi
        &&& self.lo <= p.y <= self.hi
    }

    pub open spec fn wf(self) -> bool {
        &&& self.attractors.len() == ATTRACTORS
        &&& forall|k: int| 0 <= k < ATTRACTORS ==> self.holds(#[trigger] self.attractors[k])
        &&& 0 <= self.lo <= self.hi <= 0x4000_0000
        &&& 1 <= self.hz <= 1000
    }
}

impl Mind {
    /// What holds of an entity at every tick: it keeps to its speed, it is headed
    /// inside the region, and if it has a home, that is an attractor, and it moves:
    /// an immobile prop placed in a crowd would pin that crowd.
    pub open spec fn wf(self) -> bool {
        &&& 0 <= self.speed <= MAX_STRIDE
        &&& 0 <= self.horizon <= MAX_HORIZON
        &&& -self.speed <= self.vel_x <= self.speed
        &&& -self.speed <= self.vel_y <= self.speed
        &&& 0 <= self.dest.x <= 0x4000_0000
        &&& 0 <= self.dest.y <= 0x4000_0000
        &&& self.home matches Some(h) ==> h < ATTRACTORS && self.speed > 0
    }

    /// Whether two are one entity at different times: whose it is, how fast it
    /// goes, where it belongs and when it dies never change.
    pub open spec fn same_nature(self, other: Mind) -> bool {
        &&& self.mine == other.mine
        &&& self.speed == other.speed
        &&& self.horizon == other.horizon
        &&& self.home == other.home
        &&& self.dies_at == other.dies_at
    }
}

/// Whether the world is drawing residents toward home or pushing them out.
pub open spec fn is_gathering(tick: int, phase_ticks: int) -> bool {
    (tick / phase_ticks) % 2 == 0
}

/// A point within `radius` of `anchor` on each axis, held inside the region.
/// Takes two draws.
pub open spec fn offset_of(plan: Plan, anchor: Pos2, radius: int, s: u64) -> Pos2 {
    let t = scramble(s);
    Pos2 {
        x: clamped(anchor.x + drawn(s, 2 * radius + 1) - radius, plan.lo, plan.hi) as i32,
        y: clamped(anchor.y + drawn(t, 2 * radius + 1) - radius, plan.lo, plan.hi) as i32,
    }
}

/// The state after two draws.
pub open spec fn scramble_twice(s: u64) -> u64 {
    scramble(scramble(s))
}

/// A velocity component that covers `d` of a distance `dist` at a speed.
pub open spec fn component(d: int, speed: int, dist: int) -> i32 {
    if dist == 0 {
        0
    } else {
        trunc_div(d * speed, dist) as i32
    }
}

/// Pointed at a destination, with the velocity that walks it there.
pub open spec fn aimed(m: Mind, at: Pos2, dest: Pos2) -> Mind {
    let dist = root(separation(at, dest));
    Mind {
        dest,
        vel_x: component(dest.x - at.x, m.speed as int, dist),
        vel_y: component(dest.y - at.y, m.speed as int, dist),
        ..m
    }
}

/// Those of the first `k` places that are within `reach` of `at`, in order.
pub open spec fn near(places: Seq<Pos2>, at: Pos2, reach: int, k: int) -> Seq<Pos2>
    decreases k,
{
    if k <= 0 {
        Seq::empty()
    } else {
        let rest = near(places, at, reach, k - 1);
        if separation(at, places[k - 1]) <= reach * reach {
            rest.push(places[k - 1])
        } else {
            rest
        }
    }
}

/// Which of the first `k` places is nearest to `at`; the first of them, if
/// several are.
pub open spec fn nearest(places: Seq<Pos2>, at: Pos2, k: int) -> int
    decreases k,
{
    if k <= 1 {
        0
    } else {
        let best = nearest(places, at, k - 1);
        if separation(at, places[k - 1]) < separation(at, places[best]) {
            k - 1
        } else {
            best
        }
    }
}

/// Ticks to stand for at an attractor, by one draw.
pub open spec fn dwell_of(plan: Plan, s: u64) -> u32 {
    (DWELL_MIN_S * plan.hz + drawn(s, (DWELL_MAX_S - DWELL_MIN_S) * plan.hz)) as u32
}

/// Where a hostile pattern sends an entity, and the state after, or `None` for
/// a pattern that leaves the plausible rules in place.
pub open spec fn pattern_dest_of(plan: Plan, m: Mind, at: Pos2, s: u64) -> Option<(Pos2, u64)> {
    let radius = ATTRACTOR_RADIUS_M * 1024;
    match plan.pattern {
        Pattern::Flash => Some((offset_of(plan, plan.attractors[0], radius, s), scramble_twice(s))),
        Pattern::Thrash => {
            let home = match m.home {
                Some(h) => h as int,
                None => 0,
            };
            let a = plan.attractors[home];
            let far = THRASH_FAR_M * 1024;
            let out = separation(at, a) > (far / 2) * (far / 2);
            let swing = if out {
                radius
            } else {
                far
            };
            Some((offset_of(plan, a, swing, s), scramble_twice(s)))
        },
        _ => None,
    }
}

/// Where the plausible rules send an entity, how long it will stand there, and
/// the state after.
pub open spec fn errand_of(plan: Plan, m: Mind, at: Pos2, gathering: bool, s: u64) -> (
    Pos2,
    u32,
    u64,
) {
    let radius = ATTRACTOR_RADIUS_M * 1024;
    let t = scramble(s);
    match m.home {
        Some(h) => {
            let a = plan.attractors[h as int];
            if gathering {
                (offset_of(plan, a, radius, t), dwell_of(plan, s), scramble_twice(t))
            } else {
                (offset_of(plan, a, DISPERSE_RADIUS_M * 1024, s), 0, scramble_twice(s))
            }
        },
        None => if drawn(s, 16) < ATTRACT_IN_16 {
            let close = near(plan.attractors, at, m.horizon as int, ATTRACTORS as int);
            let (a, u) = if close.len() == 0 {
                (plan.attractors[nearest(plan.attractors, at, ATTRACTORS as int)], t)
            } else {
                (close[drawn(t, close.len() as int)], scramble(t))
            };
            let v = scramble(u);
            (offset_of(plan, a, radius, v), dwell_of(plan, u), scramble_twice(v))
        } else {
            (offset_of(plan, at, m.horizon as int, t), 0, scramble_twice(t))
        },
    }
}

/// With a new destination, chosen under a phase, and the state after. A class
/// that never moves only notices the phase.
#[verifier::opaque]
pub open spec fn retargeted(plan: Plan, m: Mind, at: Pos2, gathering: bool, s: u64) -> (Mind, u64) {
    let noticed = Mind { phase_at: gathering, ..m };
    if m.speed == 0 {
        (noticed, s)
    } else {
        match pattern_dest_of(plan, m, at, s) {
            Some((dest, t)) => (aimed(Mind { dwell: 0, ..noticed }, at, dest), t),
            None => {
                let (dest, dwell, t) = errand_of(plan, m, at, gathering, s);
                (aimed(Mind { dwell, ..noticed }, at, dest), t)
            },
        }
    }
}

/// Moved by its own velocity.
pub open spec fn carried(m: Mind, at: Pos2) -> Pos2 {
    Pos2 { x: (at.x + m.vel_x) as i32, y: (at.y + m.vel_y) as i32 }
}

/// What one tick makes of a live entity, where it ends up, and the state after.
///
/// One that this game did not create, or that never moves, is left alone. A
/// flapping one steps back and forth. A change of phase reaches everyone at
/// once. Otherwise an entity stands out its wait, or has arrived when it is
/// within one tick's travel, or walks on.
#[verifier::opaque]
pub open spec fn strode(plan: Plan, m: Mind, at: Pos2, gathering: bool, s: u64) -> (
    Mind,
    Pos2,
    u64,
) {
    if !m.mine || m.speed == 0 {
        (m, at, s)
    } else if plan.pattern == Pattern::Flap {
        let step = if m.phase_at {
            m.speed as int
        } else {
            -m.speed
        };
        (Mind { phase_at: !m.phase_at, ..m }, Pos2 { x: (at.x + step) as i32, ..at }, s)
    } else if m.phase_at != gathering {
        let (n, t) = retargeted(plan, Mind { wait: 0, ..m }, at, gathering, s);
        (n, carried(n, at), t)
    } else if m.wait > 0 {
        (Mind { wait: (m.wait - 1) as u32, ..m }, at, s)
    } else if separation(at, m.dest) <= m.speed * m.speed {
        let stood = Mind { wait: m.dwell, dwell: 0, ..m };
        if m.dwell == 0 {
            let (n, t) = retargeted(plan, stood, at, gathering, s);
            (n, at, t)
        } else {
            (stood, at, s)
        }
    } else {
        (m, carried(m, at), s)
    }
}

/// Whether the world gathers at a tick. Phases alternate and are equal in
/// length.
pub fn gathering(tick: u32, phase_ticks: u32) -> (g: bool)
    requires
        phase_ticks > 0,
    ensures
        g == is_gathering(tick as int, phase_ticks as int),
{
    (tick / phase_ticks) % 2 == 0
}

/// A position in reach and one inside the largest region are near enough to
/// square.
pub(crate) proof fn separation_fits(at: Pos2, dest: Pos2)
    requires
        in_reach(at),
        0 <= dest.x <= 0x4000_0000,
        0 <= dest.y <= 0x4000_0000,
    ensures
        0 <= separation(at, dest) < 0x4000_0000_0000_0000,
        separation(at, dest) == separation(dest, at),
{
    let dx = at.x - dest.x;
    let dy = at.y - dest.y;
    assert(0 <= dx * dx <= 0x5000_0000 * 0x5000_0000) by (nonlinear_arith)
        requires
            -0x5000_0000 <= dx <= 0x5000_0000,
    ;
    assert(0 <= dy * dy <= 0x5000_0000 * 0x5000_0000) by (nonlinear_arith)
        requires
            -0x5000_0000 <= dy <= 0x5000_0000,
    ;
    assert((-dx) * (-dx) == dx * dx) by (nonlinear_arith);
    assert((-dy) * (-dy) == dy * dy) by (nonlinear_arith);
}

/// A velocity component points where it should and never exceeds the speed it was
/// built to, because neither leg of a separation is longer than its root.
pub(crate) proof fn component_keeps_to_speed(d: int, speed: int, dist: int, sep: int)
    requires
        0 <= speed <= MAX_STRIDE,
        -0x5000_0000 <= d <= 0x5000_0000,
        is_root(dist, sep),
        d * d <= sep,
    ensures
        -speed <= component(d, speed, dist) <= speed,
        dist > 0 ==> component(d, speed, dist) == trunc_div(d * speed, dist),
        d >= 0 ==> component(d, speed, dist) >= 0,
        d <= 0 ==> component(d, speed, dist) <= 0,
{
    if dist > 0 {
        let a = if d >= 0 {
            d
        } else {
            -d
        };
        assert(a * a == d * d) by (nonlinear_arith)
            requires
                a == d || a == -d,
        ;
        if a > dist {
            assert((dist + 1) * (dist + 1) <= a * a) by (nonlinear_arith)
                requires
                    0 <= dist,
                    dist + 1 <= a,
            ;
        }
        assert(0 <= a * speed <= dist * speed) by (nonlinear_arith)
            requires
                0 <= a <= dist,
                0 <= speed,
        ;
        assert(0 <= (a * speed) / dist <= speed) by (nonlinear_arith)
            requires
                0 <= a * speed <= dist * speed,
                dist > 0,
        ;
        assert(d * speed == a * speed || d * speed == -(a * speed)) by (nonlinear_arith)
            requires
                a == d || a == -d,
        ;
        assert((d >= 0 ==> d * speed >= 0) && (d <= 0 ==> d * speed <= 0)) by (nonlinear_arith)
            requires
                speed >= 0,
        ;
        assert(0int / dist == 0) by (nonlinear_arith)
            requires
                dist > 0,
        ;
    }
}

/// A tick does not change what an entity is: whose it is, how fast it goes, where
/// it belongs, and when it dies.
pub proof fn striding_keeps_nature(plan: Plan, m: Mind, at: Pos2, gathering: bool, s: u64)
    ensures
        strode(plan, m, at, gathering, s).0.same_nature(m),
        retargeted(plan, m, at, gathering, s).0.same_nature(m),
{
    reveal(strode);
    reveal(retargeted);
}

/// Phases alternate and are equal in length: one phase later the world does the
/// other thing, and two phases later the same. Every tick of one phase does the
/// same thing.
pub proof fn phases_alternate(tick: int, phase_ticks: int)
    requires
        0 <= tick,
        0 < phase_ticks,
    ensures
        is_gathering(tick + phase_ticks, phase_ticks) != is_gathering(tick, phase_ticks),
        is_gathering(tick + 2 * phase_ticks, phase_ticks) == is_gathering(tick, phase_ticks),
        forall|later: int|
            tick <= later && later / phase_ticks == tick / phase_ticks ==> #[trigger] is_gathering(
                later,
                phase_ticks,
            ) == is_gathering(tick, phase_ticks),
        is_gathering(0, phase_ticks),
{
    assert((tick + phase_ticks) / phase_ticks == tick / phase_ticks + 1) by (nonlinear_arith)
        requires
            0 < phase_ticks,
    ;
    assert((tick + 2 * phase_ticks) / phase_ticks == tick / phase_ticks + 2) by (nonlinear_arith)
        requires
            0 < phase_ticks,
    ;
    assert(0int / phase_ticks == 0) by (nonlinear_arith)
        requires
            0 < phase_ticks,
    ;
}

/// A point drawn near an anchor inside the region is inside the region, and no
/// further from the anchor than the radius on either axis.
pub proof fn an_offset_lands_near(plan: Plan, anchor: Pos2, radius: int, s: u64)
    requires
        plan.wf(),
        plan.holds(anchor),
        0 <= radius <= MAX_HORIZON,
    ensures
        ({
            let p = offset_of(plan, anchor, radius, s);
            &&& plan.holds(p)
            &&& -radius <= p.x - anchor.x <= radius
            &&& -radius <= p.y - anchor.y <= radius
        }),
{
}

/// A destination is always inside the region, whatever is drawn and wherever the
/// entity stands, and the velocity built for it keeps to the entity's speed and
/// points there.
pub proof fn a_destination_is_inside(plan: Plan, m: Mind, at: Pos2, gathering: bool, s: u64)
    requires
        plan.wf(),
        m.wf(),
        m.speed > 0,
        in_reach(at),
    ensures
        ({
            let n = retargeted(plan, m, at, gathering, s).0;
            &&& n.wf()
            &&& plan.holds(n.dest)
            &&& n.phase_at == gathering
            &&& n.dest.x >= at.x ==> n.vel_x >= 0
            &&& n.dest.x <= at.x ==> n.vel_x <= 0
            &&& n.dest.y >= at.y ==> n.vel_y >= 0
            &&& n.dest.y <= at.y ==> n.vel_y <= 0
        }),
{
    reveal(retargeted);
    let dest = match pattern_dest_of(plan, m, at, s) {
        Some((dest, _)) => dest,
        None => errand_of(plan, m, at, gathering, s).0,
    };
    assert(plan.holds(dest));
    separation_fits(at, dest);
    let sep = separation(at, dest);
    let dx = dest.x - at.x;
    let dy = dest.y - at.y;
    assert(dx * dx + dy * dy == sep) by (nonlinear_arith)
        requires
            dx == dest.x - at.x,
            dy == dest.y - at.y,
            sep == (at.x - dest.x) * (at.x - dest.x) + (at.y - dest.y) * (at.y - dest.y),
    ;
    assert(dx * dx >= 0) by (nonlinear_arith);
    assert(dy * dy >= 0) by (nonlinear_arith);
    a_root_exists(sep);
    component_keeps_to_speed(dx, m.speed as int, root(sep), sep);
    component_keeps_to_speed(dy, m.speed as int, root(sep), sep);
}

/// A resident goes home to gather, to within 64 m on each axis, and spreads to
/// within 256 m of home to disperse. Its crowd returns to the same place every
/// cycle.
pub proof fn a_resident_keeps_near_home(plan: Plan, m: Mind, at: Pos2, gathering: bool, s: u64)
    requires
        plan.wf(),
        m.home matches Some(h) && h < ATTRACTORS,
    ensures
        ({
            let (dest, dwell, _) = errand_of(plan, m, at, gathering, s);
            let home = plan.attractors[m.home->0 as int];
            let radius = if gathering {
                ATTRACTOR_RADIUS_M * 1024
            } else {
                DISPERSE_RADIUS_M * 1024
            };
            &&& -radius <= dest.x - home.x <= radius
            &&& -radius <= dest.y - home.y <= radius
            &&& gathering <==> dwell > 0
        }),
{
    let home = plan.attractors[m.home->0 as int];
    assert(plan.holds(home));
    a_dwell_is_between_its_ends(plan, s);
}

/// A flash crowd sends everyone to one place, wherever they belong, and no one
/// stands there.
pub proof fn a_flash_crowd_has_one_place(plan: Plan, m: Mind, at: Pos2, gathering: bool, s: u64)
    requires
        plan.wf(),
        plan.pattern == Pattern::Flash,
        m.speed > 0,
    ensures
        ({
            let n = retargeted(plan, m, at, gathering, s).0;
            let place = plan.attractors[0];
            let radius = ATTRACTOR_RADIUS_M * 1024;
            &&& -radius <= n.dest.x - place.x <= radius
            &&& -radius <= n.dest.y - place.y <= radius
            &&& n.dwell == 0
        }),
{
    reveal(retargeted);
    assert(plan.holds(plan.attractors[0]));
}

/// An entity stands at an attractor for five seconds at least and for less than
/// sixty.
pub proof fn a_dwell_is_between_its_ends(plan: Plan, s: u64)
    requires
        plan.wf(),
    ensures
        DWELL_MIN_S * plan.hz <= dwell_of(plan, s) < DWELL_MAX_S * plan.hz,
{
    assert(0 < 55 * plan.hz <= 55_000);
}

/// The nearest place is no further than any other, and nearer than any before
/// it.
pub proof fn nothing_is_nearer_than_the_nearest(places: Seq<Pos2>, at: Pos2, k: int)
    requires
        1 <= k <= places.len(),
    ensures
        0 <= nearest(places, at, k) < k,
        forall|j: int|
            0 <= j < k ==> separation(at, places[nearest(places, at, k)]) <= #[trigger] separation(
                at,
                places[j],
            ),
        forall|j: int|
            0 <= j < nearest(places, at, k) ==> separation(at, places[nearest(places, at, k)])
                < #[trigger] separation(at, places[j]),
    decreases k,
{
    if k > 1 {
        nothing_is_nearer_than_the_nearest(places, at, k - 1);
    }
}

/// What is near is a place within reach, and every place within reach is near.
pub proof fn near_is_within_reach(places: Seq<Pos2>, at: Pos2, reach: int, k: int)
    requires
        0 <= k <= places.len(),
    ensures
        forall|p: Pos2| #[trigger]
            near(places, at, reach, k).contains(p) <==> separation(at, p) <= reach * reach
                && exists|j: int| 0 <= j < k && places[j] == p,
    decreases k,
{
    if k > 0 {
        near_is_within_reach(places, at, reach, k - 1);
        let rest = near(places, at, reach, k - 1);
        let all = near(places, at, reach, k);
        assert forall|p: Pos2| #[trigger]
            all.contains(p) <==> separation(at, p) <= reach * reach && exists|j: int|
                0 <= j < k && places[j] == p by {
            let last = places[k - 1];
            if separation(at, last) <= reach * reach {
                assert(all == rest.push(last));
                assert(all.contains(p) <==> rest.contains(p) || p == last) by {
                    if rest.contains(p) {
                        let a = choose|a: int| 0 <= a < rest.len() && rest[a] == p;
                        assert(all[a] == p);
                    }
                    assert(all[rest.len() as int] == last);
                }
            }
        }
    }
}

} // verus!
