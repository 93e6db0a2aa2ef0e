//! How a population comes about, in meters and seconds.
//!
//! The laws of what is created: how fast it goes, where it belongs and appears, and
//! when it dies, each by the draw that decides it.

use vstd::prelude::*;

use crate::gait::{an_offset_is_drawn_around, drawn_around, held_at, the_first_states};
use crate::motion::{retargeted, striding_keeps_nature, Mind, Plan, FLAP_M};
use crate::pattern::Pattern;
use crate::region::RegionState;
use crate::rng::{drawn, scramble, seeded, stream};
use crate::tick::{
    anywhere, born, class_of, class_speed, footing, founded, founded_one, founding, newborn, placed,
    scattered, starting_speed, unfounded, HerdState,
};
use crate::units::{a_share_fits, Pos2};
use crate::world::World;

verus! {

/// Whether a number of raw units per tick is what so many a second come to, in whole
/// units.
pub open spec fn is_rate(v: int, per_second: int, hz: int) -> bool {
    &&& 0 <= v
    &&& v * hz <= per_second < (v + 1) * hz
}

/// Whether a roll of a hundred gives a speed: thirty-five stay put, twenty-five go at
/// a fifth of a meter a second, twenty-five at one and a half, ten at six and five
/// at thirty.
pub open spec fn goes_at(roll: int, v: int, hz: int) -> bool {
    &&& roll < 35 ==> v == 0
    &&& 35 <= roll < 60 ==> is_rate(v, 204, hz)
    &&& 60 <= roll < 85 ==> is_rate(v, 1536, hz)
    &&& 85 <= roll < 95 ==> is_rate(v, 6144, hz)
    &&& 95 <= roll ==> is_rate(v, 30720, hz)
}

/// A quotient is a rate.
proof fn a_quotient_is_a_rate(per_second: int, hz: int)
    requires
        0 <= per_second,
        0 < hz,
    ensures
        is_rate(per_second / hz, per_second, hz),
{
    let v = per_second / hz;
    vstd::arithmetic::div_mod::lemma_fundamental_div_mod(per_second, hz);
    vstd::arithmetic::div_mod::lemma_mod_bound(per_second, hz);
    vstd::arithmetic::div_mod::lemma_div_pos_is_pos(per_second, hz);
    assert(v * hz == hz * v && (v + 1) * hz == hz * v + hz) by (nonlinear_arith);
}

/// A roll gives its class's speed.
proof fn a_roll_sets_the_pace(roll: int, hz: int)
    requires
        0 <= roll < 100,
        0 < hz,
    ensures
        goes_at(roll, class_speed(class_of(roll), hz), hz),
{
    a_quotient_is_a_rate(204, hz);
    a_quotient_is_a_rate(1536, hz);
    a_quotient_is_a_rate(6144, hz);
    a_quotient_is_a_rate(30720, hz);
    a_quotient_is_a_rate(0, hz);
    let v = class_speed(class_of(roll), hz);
    if roll < 35 {
        assert(0int / hz == 0) by (nonlinear_arith)
            requires
                hz > 0,
        ;
    }
    assert(200int * 1024 / 1000 == 204);
    assert(500int * 1024 / 1000 == 512);
}

/// Whether a place is the one that two draws from `s` pick between the margins, each
/// as likely.
pub open spec fn drawn_anywhere(plan: Plan, p: Pos2, s: u64) -> bool {
    let span = plan.hi - plan.lo + 1;
    &&& p.x == plan.lo + stream(s, 1) as int % span
    &&& p.y == plan.lo + stream(s, 2) as int % span
}

/// Whether draws from `s` settle a new entity, and leave the generator in `t`. One
/// that does not move appears anywhere. One that moves is a resident ten times in
/// sixteen, or always where that is the rule: it belongs to any of eight attractors
/// and appears within 64 m of it. Any other appears anywhere.
pub open spec fn settles(
    plan: Plan,
    speed: int,
    always: bool,
    home: Option<u8>,
    p: Pos2,
    s: u64,
    t: u64,
) -> bool {
    let sure = speed > 0 && always;
    let lucky = speed > 0 && !always && stream(s, 1) as int % 16 < 10;
    let unlucky = speed > 0 && !always && stream(s, 1) as int % 16 >= 10;
    &&& speed == 0 ==> home is None && drawn_anywhere(plan, p, s) && t == stream(s, 2)
    &&& unlucky ==> home is None && drawn_anywhere(plan, p, stream(s, 1)) && t == stream(s, 3)
    &&& sure ==> {
        &&& home is Some
        &&& home->0 == stream(s, 1) as int % 8
        &&& drawn_around(plan, p, plan.attractors[home->0 as int], 65536, stream(s, 1))
        &&& t == stream(s, 3)
    }
    &&& lucky ==> {
        &&& home is Some
        &&& home->0 == stream(s, 2) as int % 8
        &&& drawn_around(plan, p, plan.attractors[home->0 as int], 65536, stream(s, 2))
        &&& t == stream(s, 4)
    }
}

/// Placing settles.
proof fn placing_settles(plan: Plan, speed: int, always: bool, s: u64)
    requires
        plan.wf(),
        0 <= speed,
    ensures
        ({
            let (home, p, t) = placed(plan, speed, always, s);
            settles(plan, speed, always, home, p, s, t)
        }),
{
    let (home, p, t) = placed(plan, speed, always, s);
    the_first_states(s);
    the_first_states(scramble(s));
    the_first_states(scramble(scramble(s)));
    if home is Some {
        let a = plan.attractors[home->0 as int];
        an_offset_is_drawn_around(plan, a, 65536, scramble(s));
        an_offset_is_drawn_around(plan, a, 65536, scramble(scramble(s)));
    }
}

/// Whether an entity is this game's own, in full health, free to go, with a speed and
/// a home, and looks ahead as far as it goes in a minute.
pub open spec fn is_of_age(m: Mind, speed: int, home: Option<u8>, hz: int) -> bool {
    &&& m.mine
    &&& m.speed == speed
    &&& m.horizon == speed * 60 * hz
    &&& m.home == home
    &&& m.health == 30000
    &&& m.wait == 0
}

/// A replacement. Its first draw sets its speed, the next settle it, one puts it at
/// any height, and one sets its death: half a lifespan from now, and one tick, and
/// any number of ticks short of a lifespan more. It travels a minute toward any one
/// destination, and picks its first at once. Nothing else of the herd changes but
/// its list of residents and the count of births.
pub proof fn a_replacement_is_drawn(h: HerdState, w: RegionState, gathering: bool, half: int) -> (
    r: (u64, Mind))
    requires
        h.wf(),
        w.wf(),
        h.lifespan > 0,
        2 * half <= h.lifespan < 2 * half + 2,
        w.slots() < u32::MAX,
        h.births < u64::MAX,
    ensures
        ({
            let (t, young) = r;
            let (h1, w1) = born(h, w, gathering);
            let m = h1.minds.last();
            let p = Pos2 { x: w1.xs.last(), y: w1.ys.last() };
            let first = stream(h.rng, 1);
            let due = w.tick + half + 1 + stream(t, 2) as int % h.lifespan as int;
            &&& goes_at(first as int % 100, m.speed as int, h.world.tick_hz as int)
            &&& settles(h.plan, m.speed as int, false, m.home, p, first, t)
            &&& is_of_age(m, m.speed as int, m.home, h.world.tick_hz as int)
            &&& w1.zs.last() == stream(t, 1) as int % h.world.vertical_extent as int
            &&& due <= u32::MAX ==> m.dies_at == due
            &&& (due - m.dies_at) % 0x1_0000_0000 == 0
            &&& m.phase_at == gathering
            &&& retargeted(h.plan, young, p, gathering, stream(t, 2)) == (m, h1.rng)
            &&& is_of_age(young, m.speed as int, m.home, h.world.tick_hz as int)
            &&& h1.residents == if m.home is Some {
                h.residents.push(w.slots() as u32)
            } else {
                h.residents
            }
            &&& h1.births == h.births + 1
            &&& h1 == (HerdState {
                minds: h.minds.push(m),
                rng: h1.rng,
                residents: h1.residents,
                births: h1.births,
                ..h
            })
            &&& w1.slots() == w.slots() + 1
            &&& w1.live == w.live.insert(w.slots() as u32)
            &&& w1.gone == w.gone
            &&& w1.tick == w.tick
            &&& forall|i: int|
                0 <= i < w.slots() ==> #[trigger] w1.xs[i] == w.xs[i] && w1.ys[i] == w.ys[i]
        }),
{
    let hz = h.plan.hz;
    let roll = drawn(h.rng, 100);
    let class = class_of(roll);
    let speed = class_speed(class, hz);
    let per_second = class.0 * 1024 + class.1 * 1024 / 1000;
    a_share_fits(per_second, hz);
    the_first_states(h.rng);
    a_roll_sets_the_pace(roll, hz);
    assert(speed * (60 * hz) == 60 * (speed * hz) && speed * 60 * hz == 60 * (speed * hz))
        by (nonlinear_arith);
    placing_settles(h.plan, speed, false, scramble(h.rng));
    let (home, at, s) = placed(h.plan, speed, false, scramble(h.rng));
    the_first_states(s);
    let t = scramble(s);
    let due = w.tick + h.lifespan as int / 2 + 1 + drawn(t, h.lifespan as int);
    assert(h.lifespan as int / 2 == half);
    let dies_at = due % 0x1_0000_0000;
    assert((due - dies_at) % 0x1_0000_0000 == 0);
    let young = newborn(h.plan, speed, home, at, gathering, dies_at as u32);
    let (m, u) = retargeted(h.plan, young, at, gathering, scramble(t));
    striding_keeps_nature(h.plan, young, at, gathering, scramble(t));
    reveal(retargeted);
    assert(born(h, w, gathering).0.minds.last() == m);
    assert(is_of_age(young, speed, home, hz));
    (s, young)
}

/// Whether a roll of a hundred gives a speed to an entity that a run starts with.
/// Thirty-five stay put under any pattern. What moves steps two meters a tick if it
/// flaps, goes at sixty meters a second in a flash crowd and at twenty when it
/// thrashes, and goes at the speed of its class otherwise.
pub open spec fn starts_at(pattern: Pattern, roll: int, v: int, hz: int) -> bool {
    match pattern {
        Pattern::Flap => v == if roll < 35 {
            0int
        } else {
            2048
        },
        Pattern::Flash => if roll < 35 {
            v == 0
        } else {
            is_rate(v, 61440, hz)
        },
        Pattern::Thrash => if roll < 35 {
            v == 0
        } else {
            is_rate(v, 20480, hz)
        },
        _ => goes_at(roll, v, hz),
    }
}

/// Whether a place is where a footing is found from another: the same, but that one
/// who flaps stands a meter short of the next cell boundary to the east, as far as
/// the margins let it.
pub open spec fn is_footing(plan: Plan, world: World, v: int, from: Pos2, p: Pos2, edge: int) -> bool {
    &&& p.y == from.y
    &&& if plan.pattern == Pattern::Flap && v > 0 {
        &&& edge % world.cell_size as int == 0
        &&& edge - world.cell_size <= from.x < edge
        &&& held_at(p.x as int, edge - 1024, plan.lo, plan.hi)
    } else {
        p.x == from.x
    }
}

/// One that a run starts with. Its first draw sets its speed, the next settle it,
/// under any pattern but the herd's own near an attractor if it moves, one puts it
/// at any height, and one sets its death at any tick of the first lifespan. It picks
/// a destination at once, as the world gathers.
pub proof fn a_founder_is_drawn(h: HerdState) -> (r: (Pos2, int, u64, Mind))
    requires
        h.plan.wf(),
        h.world.wf(),
        h.lifespan > 0,
        h.plan.hi - h.plan.lo + 1 > 0,
    ensures
        ({
            let (from, edge, t, young) = r;
            let h1 = founded_one(h);
            let m = h1.minds.last();
            let q = h1.pending.last();
            let p = Pos2 { x: q.x, y: q.y };
            let first = stream(h.rng, 1);
            let v = m.speed as int;
            let always = h.plan.pattern != Pattern::Herd;
            &&& starts_at(h.plan.pattern, first as int % 100, v, h.plan.hz)
            &&& settles(h.plan, v, always, m.home, from, first, t)
            &&& is_footing(h.plan, h.world, v, from, p, edge)
            &&& is_of_age(m, v, m.home, h.plan.hz)
            &&& q.z == stream(t, 1) as int % h.world.vertical_extent as int
            &&& m.dies_at == 1 + stream(t, 2) as int % h.lifespan as int
            &&& m.phase_at
            &&& retargeted(h.plan, young, p, true, stream(t, 2)) == (m, h1.rng)
            &&& is_of_age(young, v, m.home, h.plan.hz)
            &&& h1.residents == if m.home is Some {
                h.residents.push(h.minds.len() as u32)
            } else {
                h.residents
            }
            &&& h1 == (HerdState {
                minds: h.minds.push(m),
                rng: h1.rng,
                pending: h.pending.push(q),
                residents: h1.residents,
                ..h
            })
        }),
{
    let hz = h.plan.hz;
    let roll = drawn(h.rng, 100);
    let class = class_of(roll);
    let v = starting_speed(h.plan, class);
    let per_second = class.0 * 1024 + class.1 * 1024 / 1000;
    a_share_fits(per_second, hz);
    a_share_fits(61440, hz);
    a_share_fits(20480, hz);
    the_first_states(h.rng);
    a_roll_sets_the_pace(roll, hz);
    a_quotient_is_a_rate(61440, hz);
    a_quotient_is_a_rate(20480, hz);
    assert(0 <= v * hz <= 2_048_000 && 0 <= v <= 61_440) by {
        assert(FLAP_M * 1024 * hz <= 2_048_000);
    }
    assert(v * (60 * hz) == 60 * (v * hz) && v * 60 * hz == 60 * (v * hz)) by (nonlinear_arith);
    let always = h.plan.pattern != Pattern::Herd;
    placing_settles(h.plan, v, always, scramble(h.rng));
    let (home, from, s) = placed(h.plan, v, always, scramble(h.rng));
    let at = footing(h.plan, h.world, v, from);
    let size = h.world.cell_size as int;
    let edge = (from.x as int / size + 1) * size;
    assert(edge % size == 0 && edge - size <= from.x < edge) by {
        let k = from.x as int / size;
        vstd::arithmetic::div_mod::lemma_fundamental_div_mod(from.x as int, size);
        vstd::arithmetic::div_mod::lemma_mod_bound(from.x as int, size);
        vstd::arithmetic::div_mod::lemma_mod_multiples_basic(k + 1, size);
        assert((k + 1) * size == size * k + size) by (nonlinear_arith);
    }
    the_first_states(s);
    let t = scramble(s);
    let dies_at = (1 + drawn(t, h.lifespan as int)) as u32;
    let young = newborn(h.plan, v, home, Pos2 { x: 0, y: 0 }, true, dies_at);
    let (m, u) = retargeted(h.plan, young, at, true, scramble(t));
    striding_keeps_nature(h.plan, young, at, true, scramble(t));
    reveal(retargeted);
    assert(founded_one(h).minds.last() == m);
    assert(is_of_age(young, v, home, hz));
    (from, edge, s, young)
}

/// Each attractor takes two draws.
proof fn attractors_take_two_draws(plan: Plan, s: u64, k: int, j: int)
    requires
        0 <= k,
        0 <= plan.lo <= plan.hi <= 0x4000_0000,
    ensures
        scattered(plan, s, k).0.len() == k,
        scattered(plan, s, k).1 == stream(s, (2 * k) as nat),
        0 <= j < k ==> drawn_anywhere(
            plan,
            scattered(plan, s, k).0[j],
            stream(s, (2 * j) as nat),
        ),
    decreases k,
{
    if k > 0 {
        attractors_take_two_draws(plan, s, k - 1, j);
        let t = stream(s, (2 * (k - 1)) as nat);
        the_first_states(t);
        assert(stream(s, (2 * k - 1) as nat) == scramble(t));
        assert(stream(s, (2 * k) as nat) == scramble(scramble(t)));
        assert(scattered(plan, s, k).0.last() == anywhere(plan, t));
    }
}

/// Adding to a population changes none of what the run goes by.
proof fn founding_keeps_the_plan(h: HerdState, k: int)
    ensures
        founded(h, k).plan == h.plan,
        founded(h, k).world == h.world,
        founded(h, k).target == h.target,
        founded(h, k).lifespan == h.lifespan,
        founded(h, k).crowd_threshold == h.crowd_threshold,
        founded(h, k).damage_divisor == h.damage_divisor,
        founded(h, k).occupancy == h.occupancy,
        founded(h, k).deaths == h.deaths,
        founded(h, k).births == h.births,
    decreases k,
{
    if k > 0 {
        founding_keeps_the_plan(h, k - 1);
    }
}

/// A run has eight attractors, each drawn from the seed anywhere eight meters clear
/// of the region's edges, before anyone is. Its population is what the spawner
/// refills toward, and unless told otherwise fifteen hundred in a cell is when it
/// starts to hurt, by a hundredth of the excess.
pub proof fn a_run_has_eight_attractors(
    world: World,
    n: usize,
    seed: u64,
    lifespan: u32,
    pattern: Pattern,
    j: int,
)
    requires
        world.wf(),
        world.region_size >= 16384,
        0 <= j < 8,
    ensures
        ({
            let h = founding(world, n, seed, lifespan, pattern);
            let first = seeded(seed);
            &&& h.plan.attractors.len() == 8
            &&& drawn_anywhere(h.plan, h.plan.attractors[j], stream(first, (2 * j) as nat))
            &&& h.plan.lo == 8192
            &&& h.plan.hi == world.region_size - 8192
            &&& h.plan.hz == world.tick_hz
            &&& h.plan.pattern == pattern
            &&& h.world == world
            &&& h.target == n
            &&& h.lifespan == lifespan
            &&& h.crowd_threshold == 1500
            &&& h.damage_divisor == 100
            &&& h.deaths == 0
            &&& h.births == 0
            &&& unfounded(world, n, seed, lifespan, pattern).rng == stream(first, 16)
        }),
{
    founding_keeps_the_plan(unfounded(world, n, seed, lifespan, pattern), n as int);
    let bare = Plan {
        attractors: Seq::empty(),
        pattern,
        lo: 8192,
        hi: world.region_size - 8192,
        hz: world.tick_hz as int,
    };
    attractors_take_two_draws(bare, seeded(seed), 8, j);
}

} // verus!
