//! How far a herd strays.
//!
//! A velocity is built once and truncated to whole units, so a slow walker may
//! miss its destination and walk on. The next phase calls it back: it never gets
//! further from the margins than it can walk in one phase, and so never out of
//! reach of the arithmetic that moves it.

use vstd::prelude::*;

use crate::conduct::{
    a_population_lands_in_order, a_tick_in_parts, adopting_keeps_wf, could_be_born, is_poised,
    moves_to, moving_changes_little, moving_keeps_nature, strides_to,
};
use crate::motion::{
    a_destination_is_inside, in_reach, is_gathering, retargeted, striding_keeps_nature, strode,
    Mind, Plan, PHASE_S,
};
use crate::pattern::Pattern;
use crate::region::RegionState;
use crate::tick::{
    adopted, can_land, can_run, ground, moved, movers_in_reach, moves, phase_ticks, stepped,
    HerdState,
};
use crate::units::{separation, Pos2};

verus! {

/// Whether a coordinate is no further outside the margins than an entity of that
/// speed walks in a phase, and is further outside than it walked in this one only
/// if it is on its way back. `since` counts the ticks of this phase.
pub open spec fn leashed(plan: Plan, speed: int, since: int, v: int, vel: int) -> bool {
    let far = speed * (PHASE_S * plan.hz + 1);
    let walked = speed * (since + 2);
    &&& plan.lo - far <= v <= plan.hi + far
    &&& vel < 0 ==> plan.lo - walked <= v
    &&& vel > 0 ==> v <= plan.hi + walked
}

/// Whether an entity that moves is where its movement can have taken it, `since`
/// ticks into a phase.
pub open spec fn tethered(plan: Plan, m: Mind, at: Pos2, since: int, gathering: bool) -> bool {
    if plan.pattern == Pattern::Flap {
        &&& plan.lo <= at.y <= plan.hi
        &&& if m.phase_at {
            plan.lo - m.speed <= at.x <= plan.hi
        } else {
            plan.lo <= at.x <= plan.hi + m.speed
        }
    } else {
        &&& m.speed * plan.hz <= 60 * 1024
        &&& plan.holds(m.dest)
        &&& leashed(plan, m.speed as int, since, at.x as int, m.vel_x as int)
        &&& leashed(plan, m.speed as int, since, at.y as int, m.vel_y as int)
        &&& m.phase_at == gathering || plan.holds(at)
    }
}

/// A leash is at least two strides long, at most what a phase allows, and gets
/// longer by a stride a tick.
proof fn a_leash_pays_out(speed: int, since: int, phase: int)
    requires
        0 <= speed,
        0 <= since < phase,
    ensures
        2 * speed <= speed * (since + 2) <= speed * (phase + 1),
        speed * (since + 1 + 2) == speed * (since + 2) + speed,
{
    assert(2 * speed <= speed * (since + 2) <= speed * (phase + 1)) by (nonlinear_arith)
        requires
            0 <= speed,
            0 <= since < phase,
    ;
    assert(speed * (since + 1 + 2) == speed * (since + 2) + speed) by (nonlinear_arith);
}

/// A tethered entity is in reach.
pub proof fn the_tethered_are_in_reach(plan: Plan, m: Mind, at: Pos2, since: int, gathering: bool)
    requires
        plan.wf(),
        m.wf(),
        tethered(plan, m, at, since, gathering),
    ensures
        in_reach(at),
{
    if plan.pattern != Pattern::Flap {
        let far = m.speed * (PHASE_S * plan.hz + 1);
        assert(far == 180 * (m.speed * plan.hz) + m.speed) by (nonlinear_arith)
            requires
                far == m.speed * (180 * plan.hz + 1),
        ;
    }
}

/// One stride keeps an entity tethered, from one tick to the next.
proof fn a_stride_keeps_the_tether(
    plan: Plan,
    m: Mind,
    at: Pos2,
    since: int,
    was: bool,
    now: int,
    gathering: bool,
    s: u64,
)
    requires
        plan.wf(),
        m.wf(),
        m.mine,
        m.speed > 0,
        tethered(plan, m, at, since, was),
        0 <= since < PHASE_S * plan.hz,
        0 <= now < PHASE_S * plan.hz,
        was == gathering ==> now == since + 1,
    ensures
        ({
            let (n, to, _) = strode(plan, m, at, gathering, s);
            tethered(plan, n, to, now, gathering) && n.wf()
        }),
{
    let phase = PHASE_S * plan.hz;
    let speed = m.speed as int;
    reveal(strode);
    the_tethered_are_in_reach(plan, m, at, since, was);
    a_leash_pays_out(speed, since, phase);
    a_leash_pays_out(speed, now, phase);
    let (n, to, _) = strode(plan, m, at, gathering, s);
    striding_keeps_nature(plan, m, at, gathering, s);
    if plan.pattern == Pattern::Flap {
    } else if m.phase_at != gathering {
        a_destination_is_inside(plan, Mind { wait: 0, ..m }, at, gathering, s);
        striding_keeps_nature(plan, Mind { wait: 0, ..m }, at, gathering, s);
    } else if m.wait > 0 {
    } else if separation(at, m.dest) <= m.speed * m.speed {
        arrival_is_near(at, m.dest, speed);
        let stood = Mind { wait: m.dwell, dwell: 0, ..m };
        a_destination_is_inside(plan, stood, at, gathering, s);
        striding_keeps_nature(plan, stood, at, gathering, s);
    }
}

/// Whatever is within a stride of a place is within a stride of it on each axis.
proof fn arrival_is_near(at: Pos2, dest: Pos2, speed: int)
    requires
        0 <= speed,
        separation(at, dest) <= speed * speed,
    ensures
        -speed <= at.x - dest.x <= speed,
        -speed <= at.y - dest.y <= speed,
{
    let dx = at.x - dest.x;
    let dy = at.y - dest.y;
    assert(dx * dx >= 0 && dy * dy >= 0) by (nonlinear_arith);
    assert(-speed <= dx <= speed) by (nonlinear_arith)
        requires
            0 <= speed,
            dx * dx <= speed * speed,
    ;
    assert(-speed <= dy <= speed) by (nonlinear_arith)
        requires
            0 <= speed,
            dy * dy <= speed * speed,
    ;
}

/// Moving keeps an entity tethered: a stride does, and a jump lands inside.
pub(crate) proof fn moving_keeps_the_tether(
    plan: Plan,
    m: Mind,
    at: Pos2,
    since: int,
    was: bool,
    now: int,
    gathering: bool,
    n: Mind,
    to: Pos2,
)
    requires
        plan.wf(),
        m.wf(),
        m.mine,
        m.speed > 0,
        tethered(plan, m, at, since, was),
        0 <= since < PHASE_S * plan.hz,
        0 <= now < PHASE_S * plan.hz,
        was == gathering ==> now == since + 1,
        moves_to(plan, m, at, gathering, n, to),
    ensures
        tethered(plan, n, to, now, gathering),
        n.wf(),
{
    let (health, stood) = choose|health: i16, stood: Pos2|
        {
            &&& #[trigger] strides_to(plan, m, at, gathering, Mind { health, ..n }, stood)
            &&& n.health == health || (n.health == i16::MIN && m.mine)
            &&& to == stood || (m.mine && m.speed > 0 && plan.holds(to))
        };
    let s = choose|s: u64|
        (#[trigger] strode(plan, m, at, gathering, s)).0 == (Mind { health, ..n }) && strode(
            plan,
            m,
            at,
            gathering,
            s,
        ).1 == stood;
    a_stride_keeps_the_tether(plan, m, at, since, was, now, gathering, s);
    a_leash_pays_out(m.speed as int, now, PHASE_S * plan.hz);
    assert(n.speed == m.speed) by {
        striding_keeps_nature(plan, m, at, gathering, s);
    }
}

/// An entity is born tethered, inside the margins, whatever the world is doing.
pub(crate) proof fn the_born_are_tethered(plan: Plan, m: Mind, at: Pos2, born: bool, now: int, gathering: bool)
    requires
        plan.wf(),
        could_be_born(plan, m, at, born),
        0 <= now < PHASE_S * plan.hz,
    ensures
        m.mine,
        m.wf(),
        m.speed > 0 ==> tethered(plan, m, at, now, gathering),
{
    let (young, s) = choose|young: Mind, s: u64|
        {
            &&& m == (#[trigger] retargeted(plan, young, at, born, s)).0
            &&& young.mine
            &&& young.wf()
            &&& plan.pattern == Pattern::Flap || young.speed * plan.hz <= 60 * 1024
            &&& plan.holds(at)
        };
    striding_keeps_nature(plan, young, at, born, s);
    a_leash_pays_out(young.speed as int, now, PHASE_S * plan.hz);
    if young.speed > 0 {
        a_destination_is_inside(plan, young, at, born, s);
    } else {
        reveal(retargeted);
    }
}

/// Whether everything a herd moves is tethered, as of a tick.
pub open spec fn is_tethered(h: HerdState, w: RegionState, tick: int) -> bool {
    forall|i: int|
        0 <= i < h.minds.len() && #[trigger] moves(h, w, i) ==> tethered(
            h.plan,
            h.minds[i],
            ground(w, i),
            tick % phase_ticks(h),
            is_gathering(tick, phase_ticks(h)),
        )
}

/// What is tethered is in reach of the arithmetic that moves it.
pub proof fn a_tethered_herd_is_in_reach(h: HerdState, w: RegionState, tick: int)
    requires
        h.wf(),
        is_tethered(h, w, tick),
    ensures
        movers_in_reach(h, w),
{
    assert forall|i: int| 0 <= i < h.minds.len() && moves(h, w, i) implies in_reach(
        #[trigger] ground(w, i),
    ) by {
        assert(h.minds[i].wf());
        the_tethered_are_in_reach(
            h.plan,
            h.minds[i],
            ground(w, i),
            tick % phase_ticks(h),
            is_gathering(tick, phase_ticks(h)),
        );
    }
}

/// The tick before is in the same phase, one tick earlier, or the phase changes.
pub(crate) proof fn ticks_follow(tick: int, phase: int)
    requires
        1 <= tick,
        0 < phase,
    ensures
        0 <= tick % phase < phase,
        0 <= (tick - 1) % phase < phase,
        is_gathering(tick, phase) == is_gathering(tick - 1, phase) ==> tick % phase == (tick - 1)
            % phase + 1,
{
    let q = (tick - 1) / phase;
    let r = (tick - 1) % phase;
    assert(tick - 1 == phase * q + r && 0 <= r < phase) by (nonlinear_arith)
        requires
            q == (tick - 1) / phase,
            r == (tick - 1) % phase,
            0 < phase,
    ;
    if r + 1 < phase {
        assert(tick / phase == q && tick % phase == r + 1) by (nonlinear_arith)
            requires
                tick == phase * q + (r + 1),
                0 <= r + 1 < phase,
        ;
    } else {
        assert(tick / phase == q + 1 && tick % phase == 0) by (nonlinear_arith)
            requires
                tick == phase * q + phase,
                0 < phase,
        ;
    }
}

/// A tick keeps a herd tethered, so its own movement never takes it out of reach.
/// Whatever an edge brings is a stranger, and is not moved.
pub proof fn a_tick_keeps_the_tether(h: HerdState, w: RegionState)
    requires
        can_run(h, w),
        1 <= w.tick,
        is_tethered(h, w, w.tick - 1),
    ensures
        is_tethered(stepped(h, w).0, stepped(h, w).1, w.tick as int),
        movers_in_reach(stepped(h, w).0, stepped(h, w).1),
{
    let phase = phase_ticks(h);
    let tick = w.tick as int;
    let was = is_gathering(tick - 1, phase);
    let gathering = is_gathering(tick, phase);
    let since = (tick - 1) % phase;
    let now = tick % phase;
    let a = adopted(h, w.slots() as int);
    let (h1, w1) = moved(h, w);
    let (h4, w4) = stepped(h, w);
    ticks_follow(tick, phase);
    adopting_keeps_wf(h, w.slots() as int);
    moving_changes_little(h, w);
    a_tick_in_parts(h, w);
    assert forall|i: int| 0 <= i < h4.minds.len() && #[trigger] moves(h4, w4, i) implies tethered(
        h4.plan,
        h4.minds[i],
        ground(w4, i),
        now,
        gathering,
    ) && in_reach(ground(w4, i)) by {
        let n = h4.minds[i];
        let to = ground(w4, i);
        if i < w.slots() {
            let m = a.minds[i];
            assert(m.wf());
            assert(n == (Mind { health: n.health, ..h1.minds[i] }));
            assert(to == ground(w1, i));
            assert(w.live.contains(i as u32));
            assert(moves_to(h.plan, m, ground(w, i), gathering, h1.minds[i], to));
            moving_keeps_nature(h.plan, m, ground(w, i), gathering, h1.minds[i], to);
            assert(i < h.minds.len() && moves(h, w, i));
            moving_keeps_the_tether(
                h.plan,
                m,
                ground(w, i),
                since,
                was,
                now,
                gathering,
                h1.minds[i],
                to,
            );
        } else {
            the_born_are_tethered(h.plan, n, to, gathering, now, gathering);
        }
        the_tethered_are_in_reach(h.plan, n, to, now, gathering);
    }
}

/// A herd that lands is tethered from its first tick, whichever that is.
pub proof fn a_landed_herd_is_tethered(h: HerdState, w: RegionState, tick: int)
    requires
        can_land(h, w),
        is_poised(h),
        0 <= tick,
    ensures
        is_tethered(stepped(h, w).0, stepped(h, w).1, tick),
{
    let (h1, w1) = stepped(h, w);
    let phase = phase_ticks(h);
    a_population_lands_in_order(h, w);
    assert(0 <= tick % phase < phase) by (nonlinear_arith)
        requires
            0 <= tick,
            0 < phase,
    ;
    assert forall|i: int| 0 <= i < h1.minds.len() && #[trigger] moves(h1, w1, i) implies tethered(
        h1.plan,
        h1.minds[i],
        ground(w1, i),
        tick % phase,
        is_gathering(tick, phase),
    ) by {
        let p = h.pending[i];
        assert(could_be_born(h.plan, h.minds[i], Pos2 { x: p.x, y: p.y }, true));
        the_born_are_tethered(
            h.plan,
            h1.minds[i],
            ground(w1, i),
            true,
            tick % phase,
            is_gathering(tick, phase),
        );
    }
}

} // verus!
