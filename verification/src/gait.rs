//! How entities go about, in meters and seconds.
//!
//! The laws of one entity's movement: where each pattern sends it, how fast it gets
//! there, how long it stands, and when the whole world turns.

use vstd::prelude::*;

use crate::conduct::a_phase_reaches_everyone;
use crate::motion::{
    a_dwell_is_between_its_ends, carried, component_keeps_to_speed, errand_of, in_reach,
    is_gathering, near, nearest, nothing_is_nearer_than_the_nearest, offset_of, pattern_dest_of,
    retargeted, separation_fits, strode, Mind, Plan,
};
use crate::pattern::Pattern;
use crate::region::RegionState;
use crate::rng::{scramble, stream};
use crate::tick::{can_run, moves, phase_ticks, stepped, HerdState};
use crate::units::{a_root_exists, is_root, root_is_unique, separation, trunc_div, Pos2};

verus! {

/// Whether a coordinate is the one wanted, as far as the region goes.
pub open spec fn held_at(v: int, wanted: int, lo: int, hi: int) -> bool {
    &&& lo <= v <= hi
    &&& lo <= wanted <= hi ==> v == wanted
    &&& wanted < lo ==> v == lo
    &&& hi < wanted ==> v == hi
}

/// Whether a place is the one that two draws from `s` put around an anchor: on each
/// axis any of the whole offsets from `-radius` to `radius`, each as likely.
pub open spec fn drawn_around(plan: Plan, p: Pos2, anchor: Pos2, radius: int, s: u64) -> bool {
    let span = 2 * radius + 1;
    &&& held_at(p.x as int, anchor.x - radius + stream(s, 1) as int % span, plan.lo, plan.hi)
    &&& held_at(p.y as int, anchor.y - radius + stream(s, 2) as int % span, plan.lo, plan.hi)
}

/// The next states of a generator, spelt out.
pub(crate) proof fn the_first_states(s: u64)
    ensures
        stream(s, 0) == s,
        stream(s, 1) == scramble(s),
        stream(s, 2) == scramble(scramble(s)),
        stream(s, 3) == scramble(scramble(scramble(s))),
        stream(s, 4) == scramble(scramble(scramble(scramble(s)))),
        stream(s, 5) == scramble(scramble(scramble(scramble(scramble(s))))),
{
    reveal_with_fuel(stream, 6);
}

/// An offset from an anchor is drawn evenly on both axes.
pub(crate) proof fn an_offset_is_drawn_around(plan: Plan, anchor: Pos2, radius: int, s: u64)
    requires
        plan.wf(),
        0 <= radius,
    ensures
        drawn_around(plan, offset_of(plan, anchor, radius, s), anchor, radius, s),
{
    the_first_states(s);
}

/// A flash crowd draws everyone to within 64 m of the first attractor. No one stands
/// there, and each choice takes two draws.
pub proof fn a_flash_gathers_at_the_first_attractor(
    plan: Plan,
    m: Mind,
    at: Pos2,
    gathering: bool,
    s: u64,
)
    requires
        plan.wf(),
        plan.pattern == Pattern::Flash,
        m.speed > 0,
    ensures
        ({
            let (n, t) = retargeted(plan, m, at, gathering, s);
            &&& drawn_around(plan, n.dest, plan.attractors[0], 65536, s)
            &&& n.dwell == 0
            &&& t == stream(s, 2)
        }),
{
    reveal(retargeted);
    the_first_states(s);
    an_offset_is_drawn_around(plan, plan.attractors[0], 65536, s);
}

/// A thrashing entity swings between near and far of its attractor: from further
/// than 50 m out it comes back to within 64 m, and otherwise it goes up to 100 m
/// out. It never stands.
pub proof fn a_thrash_swings_in_and_out(plan: Plan, m: Mind, at: Pos2, gathering: bool, s: u64)
    requires
        plan.wf(),
        plan.pattern == Pattern::Thrash,
        m.wf(),
        m.speed > 0,
    ensures
        ({
            let (n, t) = retargeted(plan, m, at, gathering, s);
            let a = plan.attractors[match m.home {
                Some(h) => h as int,
                None => 0,
            }];
            &&& separation(at, a) > 51200 * 51200 ==> drawn_around(plan, n.dest, a, 65536, s)
            &&& separation(at, a) <= 51200 * 51200 ==> drawn_around(plan, n.dest, a, 102400, s)
            &&& n.dwell == 0
            &&& t == stream(s, 2)
        }),
{
    reveal(retargeted);
    the_first_states(s);
    let a = plan.attractors[match m.home {
        Some(h) => h as int,
        None => 0,
    }];
    an_offset_is_drawn_around(plan, a, 65536, s);
    an_offset_is_drawn_around(plan, a, 102400, s);
}

/// Whether a pattern leaves it to an entity where it goes.
pub open spec fn is_plausible(p: Pattern) -> bool {
    p != Pattern::Flash && p != Pattern::Thrash
}

/// While the world gathers, a resident heads to within 64 m of home, to stand there
/// for five seconds and any number of ticks short of fifty-five more. While it
/// disperses, a resident heads to within 256 m of home, and will not stand.
pub proof fn a_resident_gathers_and_disperses(
    plan: Plan,
    m: Mind,
    at: Pos2,
    gathering: bool,
    s: u64,
)
    requires
        plan.wf(),
        is_plausible(plan.pattern),
        m.wf(),
        m.speed > 0,
        m.home is Some,
    ensures
        ({
            let (n, t) = retargeted(plan, m, at, gathering, s);
            let home = plan.attractors[m.home->0 as int];
            &&& gathering ==> {
                &&& n.dwell == 5 * plan.hz + stream(s, 1) as int % (55 * plan.hz)
                &&& drawn_around(plan, n.dest, home, 65536, stream(s, 1))
                &&& t == stream(s, 3)
            }
            &&& !gathering ==> {
                &&& n.dwell == 0
                &&& drawn_around(plan, n.dest, home, 262144, s)
                &&& t == stream(s, 2)
            }
        }),
{
    reveal(retargeted);
    the_first_states(s);
    let home = plan.attractors[m.home->0 as int];
    an_offset_is_drawn_around(plan, home, 65536, scramble(s));
    an_offset_is_drawn_around(plan, home, 262144, s);
    a_dwell_is_between_its_ends(plan, s);
}

/// How many of the first `k` places are within reach.
pub open spec fn within(places: Seq<Pos2>, at: Pos2, reach: int, k: int) -> int
    decreases k,
{
    if k <= 0 {
        0
    } else {
        within(places, at, reach, k - 1) + if separation(at, places[k - 1]) <= reach * reach {
            1int
        } else {
            0
        }
    }
}

/// The near places are those within reach, each found by how many come before it.
proof fn near_is_in_order(places: Seq<Pos2>, at: Pos2, reach: int, k: int, d: int) -> (j: int)
    requires
        0 <= k <= places.len(),
    ensures
        near(places, at, reach, k).len() == within(places, at, reach, k),
        0 <= d < within(places, at, reach, k) ==> {
            &&& 0 <= j < k
            &&& within(places, at, reach, j) == d
            &&& separation(at, places[j]) <= reach * reach
            &&& near(places, at, reach, k)[d] == places[j]
        },
    decreases k,
{
    if k <= 0 {
        0
    } else {
        let j = near_is_in_order(places, at, reach, k - 1, d);
        if d == within(places, at, reach, k - 1) && separation(at, places[k - 1]) <= reach * reach {
            k - 1
        } else {
            j
        }
    }
}

/// Whether a nomad visits an attractor: it heads to within 64 m of it, to stand
/// there for five seconds and any number of ticks short of fifty-five more.
pub open spec fn visits(plan: Plan, n: Mind, a: Pos2, s: u64) -> bool {
    &&& n.dwell == 5 * plan.hz + stream(s, 1) as int % (55 * plan.hz)
    &&& drawn_around(plan, n.dest, a, 65536, stream(s, 1))
}

/// A nomad draws below four of sixteen to visit an attractor: one of those within
/// its horizon, each as likely, or, where none is, the nearest. Any other draw sends
/// it to anywhere within its horizon, and it will not stand there.
pub proof fn a_nomad_visits_four_times_in_sixteen(
    plan: Plan,
    m: Mind,
    at: Pos2,
    gathering: bool,
    s: u64,
) -> (j: int)
    requires
        plan.wf(),
        is_plausible(plan.pattern),
        m.wf(),
        m.speed > 0,
        m.home is None,
    ensures
        ({
            let (n, t) = retargeted(plan, m, at, gathering, s);
            let reach = m.horizon as int;
            let close = within(plan.attractors, at, reach, 8);
            let a = plan.attractors[j];
            &&& stream(s, 1) as int % 16 >= 4 ==> {
                &&& n.dwell == 0
                &&& drawn_around(plan, n.dest, at, reach, stream(s, 1))
                &&& t == stream(s, 3)
            }
            &&& stream(s, 1) as int % 16 < 4 ==> 0 <= j < 8
            &&& stream(s, 1) as int % 16 < 4 && close > 0 ==> {
                &&& separation(at, a) <= reach * reach
                &&& within(plan.attractors, at, reach, j) == stream(s, 2) as int % close
                &&& visits(plan, n, a, stream(s, 2))
                &&& t == stream(s, 5)
            }
            &&& stream(s, 1) as int % 16 < 4 && close == 0 ==> {
                &&& forall|i: int|
                    0 <= i < 8 ==> separation(at, a) <= #[trigger] separation(
                        at,
                        plan.attractors[i],
                    )
                &&& forall|i: int|
                    0 <= i < j ==> separation(at, a) < #[trigger] separation(
                        at,
                        plan.attractors[i],
                    )
                &&& visits(plan, n, a, stream(s, 1))
                &&& t == stream(s, 4)
            }
        }),
{
    reveal(retargeted);
    the_first_states(s);
    the_first_states(scramble(s));
    the_first_states(scramble(scramble(s)));
    let reach = m.horizon as int;
    let close = within(plan.attractors, at, reach, 8);
    let d = stream(s, 2) as int % close;
    let first = near_is_in_order(plan.attractors, at, reach, 8, d);
    nothing_is_nearer_than_the_nearest(plan.attractors, at, 8);
    let best = nearest(plan.attractors, at, 8);
    if stream(s, 1) as int % 16 >= 4 {
        an_offset_is_drawn_around(plan, at, reach, scramble(s));
        0
    } else if close > 0 {
        let u = scramble(scramble(s));
        a_dwell_is_between_its_ends(plan, u);
        an_offset_is_drawn_around(plan, plan.attractors[first], 65536, scramble(u));
        first
    } else {
        let u = scramble(s);
        a_dwell_is_between_its_ends(plan, u);
        an_offset_is_drawn_around(plan, plan.attractors[best], 65536, scramble(u));
        best
    }
}

/// Whether a velocity is the share of a speed that falls to one leg of a distance:
/// the most whole units toward it that the leg allows.
pub open spec fn is_share(v: int, d: int, speed: int, dist: int) -> bool {
    &&& d >= 0 ==> v * dist <= d * speed < (v + 1) * dist
    &&& d < 0 ==> -v * dist <= -d * speed < (-v + 1) * dist
}

/// A component of a velocity is that share.
proof fn a_component_is_a_share(d: int, speed: int, dist: int)
    requires
        speed >= 0,
        dist > 0,
    ensures
        is_share(trunc_div(d * speed, dist), d, speed, dist),
{
    let a = d * speed;
    let e = -d * speed;
    assert(e == -a) by (nonlinear_arith)
        requires
            a == d * speed,
            e == -d * speed,
    ;
    vstd::arithmetic::div_mod::lemma_fundamental_div_mod(a, dist);
    vstd::arithmetic::div_mod::lemma_fundamental_div_mod(e, dist);
    vstd::arithmetic::div_mod::lemma_mod_bound(a, dist);
    vstd::arithmetic::div_mod::lemma_mod_bound(e, dist);
    let q = a / dist;
    let p = e / dist;
    assert(q * dist == dist * q && (q + 1) * dist == dist * q + dist) by (nonlinear_arith);
    assert(p * dist == dist * p && (p + 1) * dist == dist * p + dist) by (nonlinear_arith);
    assert(d >= 0 ==> a >= 0) by (nonlinear_arith)
        requires
            a == d * speed,
            speed >= 0,
    ;
    assert(d < 0 ==> a <= 0) by (nonlinear_arith)
        requires
            a == d * speed,
            speed >= 0,
    ;
    if d < 0 && a == 0 {
        assert(0int / dist == 0) by (nonlinear_arith)
            requires
                dist > 0,
        ;
    }
    if d < 0 {
        assert(trunc_div(a, dist) == -p);
        assert(-(-p) * dist == p * dist) by (nonlinear_arith);
        assert((-(-p) + 1) * dist == (p + 1) * dist) by (nonlinear_arith);
    }
}

/// A new velocity covers the way to the destination in a straight line: each axis
/// gets the share of the speed that its leg has of the distance, rounded toward
/// standing still. At the destination there is nowhere to go.
pub proof fn a_velocity_is_shared_by_the_legs(
    plan: Plan,
    m: Mind,
    at: Pos2,
    gathering: bool,
    s: u64,
    dist: int,
)
    requires
        plan.wf(),
        m.wf(),
        m.speed > 0,
        in_reach(at),
        ({
            let to = retargeted(plan, m, at, gathering, s).0.dest;
            &&& 0 <= dist
            &&& dist * dist <= separation(at, to) < (dist + 1) * (dist + 1)
        }),
    ensures
        ({
            let n = retargeted(plan, m, at, gathering, s).0;
            let dx = n.dest.x - at.x;
            let dy = n.dest.y - at.y;
            &&& dist > 0 ==> is_share(n.vel_x as int, dx, m.speed as int, dist)
            &&& dist > 0 ==> is_share(n.vel_y as int, dy, m.speed as int, dist)
            &&& dist == 0 ==> n.vel_x == 0 && n.vel_y == 0
        }),
{
    reveal(retargeted);
    let n = retargeted(plan, m, at, gathering, s).0;
    let dest = match pattern_dest_of(plan, m, at, s) {
        Some((dest, _)) => dest,
        None => errand_of(plan, m, at, gathering, s).0,
    };
    assert(n.dest == dest);
    assert(plan.holds(dest));
    separation_fits(at, dest);
    let sep = separation(at, dest);
    let dx = dest.x - at.x;
    let dy = dest.y - at.y;
    assert(dx * dx + dy * dy == sep) by (nonlinear_arith)
        requires
            dx == dest.x - at.x,
            dy == dest.y - at.y,
            sep == (at.x - dest.x) * (at.x - dest.x) + (at.y - dest.y) * (at.y - dest.y),
    ;
    assert(dx * dx >= 0) by (nonlinear_arith);
    assert(dy * dy >= 0) by (nonlinear_arith);
    a_root_exists(sep);
    assert(is_root(dist, sep));
    root_is_unique(dist, sep);
    component_keeps_to_speed(dx, m.speed as int, dist, sep);
    component_keeps_to_speed(dy, m.speed as int, dist, sep);
    if dist > 0 {
        a_component_is_a_share(dx, m.speed as int, dist);
        a_component_is_a_share(dy, m.speed as int, dist);
    }
}

/// What one entity does in a number of ticks that all gather or all disperse.
pub open spec fn strode_on(plan: Plan, m: Mind, at: Pos2, gathering: bool, s: u64, k: nat) -> (
    Mind,
    Pos2,
    u64,
)
    decreases k,
{
    if k == 0 {
        (m, at, s)
    } else {
        let (n, p, t) = strode_on(plan, m, at, gathering, s, (k - 1) as nat);
        strode(plan, n, p, gathering, t)
    }
}

/// Whether an entity moves by its own errands, under a phase it has noticed.
pub open spec fn goes_about(plan: Plan, m: Mind, gathering: bool) -> bool {
    &&& m.mine
    &&& m.speed > 0
    &&& plan.pattern != Pattern::Flap
    &&& m.phase_at == gathering
}

/// Waiting counts the ticks down, one by one, and nothing else happens.
proof fn a_wait_counts_down(plan: Plan, m: Mind, at: Pos2, gathering: bool, s: u64, k: nat)
    requires
        goes_about(plan, m, gathering),
        k <= m.wait,
    ensures
        strode_on(plan, m, at, gathering, s, k) == (
            Mind { wait: (m.wait - k) as u32, ..m },
            at,
            s,
        ),
    decreases k,
{
    if k > 0 {
        a_wait_counts_down(plan, m, at, gathering, s, (k - 1) as nat);
        reveal(strode);
    }
}

/// A strode by one tick less.
proof fn one_tick_first(plan: Plan, m: Mind, at: Pos2, gathering: bool, s: u64, k: nat)
    ensures
        ({
            let (n, p, t) = strode(plan, m, at, gathering, s);
            strode_on(plan, m, at, gathering, s, k + 1) == strode_on(plan, n, p, gathering, t, k)
        }),
    decreases k,
{
    reveal_with_fuel(strode_on, 2);
    if k > 0 {
        one_tick_first(plan, m, at, gathering, s, (k - 1) as nat);
    }
}

/// An entity within one tick's travel of its destination has arrived. With so many
/// ticks to stand, it stands where it is for that many and one more, drawing
/// nothing, and picks its next destination at the tick after those, from where it
/// stands.
pub proof fn an_arrival_stands_its_time(
    plan: Plan,
    m: Mind,
    at: Pos2,
    gathering: bool,
    s: u64,
    k: nat,
)
    requires
        goes_about(plan, m, gathering),
        m.wait == 0,
        separation(at, m.dest) <= m.speed * m.speed,
        k <= m.dwell,
    ensures
        m.dwell > 0 ==> strode_on(plan, m, at, gathering, s, k + 1) == (
            Mind { wait: (m.dwell - k) as u32, dwell: 0, ..m },
            at,
            s,
        ),
        ({
            let free = Mind { wait: 0, dwell: 0, ..m };
            let (n, t) = retargeted(plan, free, at, gathering, s);
            let ticks: nat = if m.dwell == 0 {
                1
            } else {
                (m.dwell + 2) as nat
            };
            strode_on(plan, m, at, gathering, s, ticks) == (n, at, t)
        }),
{
    let stood = Mind { wait: m.dwell, dwell: 0, ..m };
    if m.dwell > 0 {
        assert(strode(plan, m, at, gathering, s) == (stood, at, s)) by {
            reveal(strode);
        }
        one_tick_first(plan, m, at, gathering, s, k);
        a_wait_counts_down(plan, stood, at, gathering, s, k);
        let d = m.dwell as nat;
        one_tick_first(plan, m, at, gathering, s, d);
        a_wait_counts_down(plan, stood, at, gathering, s, d);
        let free = Mind { wait: 0, dwell: 0, ..m };
        assert(strode_on(plan, m, at, gathering, s, d + 1) == (free, at, s));
        assert(strode_on(plan, m, at, gathering, s, d + 2) == strode(
            plan,
            free,
            at,
            gathering,
            s,
        ));
        reveal(strode);
    } else {
        reveal_with_fuel(strode_on, 2);
        reveal(strode);
        assert(stood == m);
    }
}

/// An entity that is not there yet, and has nothing to wait for, walks on by its
/// velocity and draws nothing.
pub proof fn the_rest_of_the_way_is_walked(
    plan: Plan,
    m: Mind,
    at: Pos2,
    gathering: bool,
    s: u64,
)
    requires
        goes_about(plan, m, gathering),
        m.wf(),
        in_reach(at),
        m.wait == 0,
        separation(at, m.dest) > m.speed * m.speed,
    ensures
        ({
            let (n, p, t) = strode(plan, m, at, gathering, s);
            &&& n == m
            &&& p.x == at.x + m.vel_x
            &&& p.y == at.y + m.vel_y
            &&& t == s
        }),
{
    reveal(strode);
}

/// A change of phase ends any wait: the entity picks a destination for the new phase
/// at once, from where it stands, and walks toward it in the same tick.
pub proof fn a_turn_ends_any_wait(plan: Plan, m: Mind, at: Pos2, gathering: bool, s: u64)
    requires
        goes_about(plan, m, !gathering),
    ensures
        ({
            let (n, p, t) = strode(plan, m, at, gathering, s);
            let (fresh, u) = retargeted(plan, Mind { wait: 0, ..m }, at, gathering, s);
            &&& n == fresh
            &&& n.wait == 0
            &&& n.phase_at == gathering
            &&& p == carried(fresh, at)
            &&& t == u
        }),
{
    reveal(strode);
    reveal(retargeted);
}

/// The world gathers for three minutes, disperses for three, and so on from its
/// first tick, and everything a herd moves knows it by the end of the tick, unless
/// it flaps.
pub proof fn the_world_turns_every_three_minutes(h: HerdState, w: RegionState, n: int, i: int)
    requires
        can_run(h, w),
        h.plan.pattern != Pattern::Flap,
        0 <= i < h.minds.len(),
        moves(h, w, i),
        n * (180 * h.world.tick_hz) <= w.tick < (n + 1) * (180 * h.world.tick_hz),
    ensures
        is_gathering(w.tick as int, phase_ticks(h)) <==> n % 2 == 0,
        stepped(h, w).0.minds[i].phase_at <==> n % 2 == 0,
{
    let phase = 180 * h.world.tick_hz;
    let r = w.tick - n * phase;
    assert((n + 1) * phase == n * phase + phase) by (nonlinear_arith);
    vstd::arithmetic::div_mod::lemma_fundamental_div_mod_converse(w.tick as int, phase as int, n, r);
    assert(n * phase == phase * n) by (nonlinear_arith);
    assert(phase_ticks(h) == phase);
    a_phase_reaches_everyone(h, w, i);
}

/// A flapping entity steps by its speed, east and west in turn, and does nothing
/// else: it draws nothing, keeps to its row, and heads nowhere.
pub proof fn a_flap_steps_east_and_west_in_turn(
    plan: Plan,
    m: Mind,
    at: Pos2,
    gathering: bool,
    s: u64,
)
    requires
        plan.pattern == Pattern::Flap,
        m.mine,
        m.wf(),
        m.speed > 0,
        in_reach(at),
    ensures
        ({
            let (n, p, t) = strode(plan, m, at, gathering, s);
            let (o, q, u) = strode(plan, n, p, gathering, t);
            &&& m.phase_at ==> p.x == at.x + m.speed
            &&& !m.phase_at ==> p.x == at.x - m.speed
            &&& p.y == at.y
            &&& n == (Mind { phase_at: !m.phase_at, ..m })
            &&& t == s
            &&& q == at
            &&& o == m
            &&& u == s
        }),
{
    reveal(strode);
}

/// What the game did not create, or never moves, stands still and draws nothing.
pub proof fn the_rest_stand_still(plan: Plan, m: Mind, at: Pos2, gathering: bool, s: u64)
    requires
        !m.mine || m.speed == 0,
    ensures
        strode(plan, m, at, gathering, s) == (m, at, s),
{
    reveal(strode);
}

} // verus!
