//! What a tick takes of a population: crowds, culls and jumps, in numbers.
//!
//! Each law here speaks of a herd before a tick and after it, and of who stands
//! where, rather than of the passes in between.

use vstd::prelude::*;

use crate::conduct::{
    a_tick_in_parts, adopting_keeps_wf, headcount_fits, moving_changes_little, strides_to,
    the_culled_do_not_recover, the_dying_are_distinct, the_dying_are_those_that_die,
    walking_is_striding,
};
use crate::gait::the_first_states;
use crate::motion::{is_gathering, retargeted, strode, Mind};
use crate::pattern::Pattern;
use crate::region::RegionState;
use crate::rng::{drawn, scramble, stream};
use crate::tick::{
    adopted, can_run, counted, crowd_around, culled, dying, ground, headcount, is_dying, jumped,
    jumped_once, moved, moves, phase_ticks, stepped, stranger, suffered, walked, HerdState,
};
use crate::units::Pos2;
use crate::world::{cells_are_in_the_region, World};

verus! {

/// Who is alive and in a cell, of the ids below `k`.
pub open spec fn in_cell(world: World, w: RegionState, c: int, k: int) -> Set<u32> {
    w.live.filter(
        |id: u32| id < k && world.cell_at(w.xs[id as int] as int, w.ys[id as int] as int) == c,
    )
}

/// Everyone who is alive and stands in the cell of an entity, itself among them.
pub open spec fn around(world: World, w: RegionState, i: int) -> Set<u32> {
    in_cell(world, w, world.cell_at(w.xs[i] as int, w.ys[i] as int), w.slots() as int)
}

/// A headcount is a count of heads.
proof fn heads_are_counted(world: World, w: RegionState, c: int, k: int)
    requires
        w.wf(),
        0 <= k <= w.slots(),
    ensures
        in_cell(world, w, c, k).finite(),
        headcount(world, w, c, k) == in_cell(world, w, c, k).len(),
    decreases k,
{
    let all = in_cell(world, w, c, k);
    w.live.lemma_len_filter(
        |id: u32| id < k && world.cell_at(w.xs[id as int] as int, w.ys[id as int] as int) == c,
    );
    if k == 0 {
        assert(all =~= Set::empty());
    } else {
        heads_are_counted(world, w, c, k - 1);
        let rest = in_cell(world, w, c, k - 1);
        let last = (k - 1) as u32;
        if w.live.contains(last) && world.cell_at(w.xs[k - 1] as int, w.ys[k - 1] as int) == c {
            assert(all =~= rest.insert(last));
        } else {
            assert(all =~= rest);
        }
    }
}

/// After a tick, the population of a cell is how many were alive and in it once
/// everything had moved.
pub proof fn a_cell_holds_who_stands_in_it(h: HerdState, w: RegionState, c: int)
    requires
        can_run(h, w),
        0 <= c < h.world.cells_per_region,
    ensures
        ({
            let w1 = moved(h, w).1;
            stepped(h, w).0.occupancy[c] == in_cell(h.world, w1, c, w.slots() as int).len()
        }),
{
    let (h1, w1) = moved(h, w);
    a_tick_in_parts(h, w);
    heads_are_counted(h.world, w1, c, w.slots() as int);
    headcount_fits(h.world, w1, c, w.slots() as int);
    assert(counted(h1, w1).occupancy[c] == headcount(h.world, w1, c, w.slots() as int));
}

/// A crowd over the threshold takes of the health of whoever stands in it how often
/// the divisor goes into the excess, and no more than there is to take: never past
/// the least that 16 bits hold. So a divisor above the excess takes nothing, and one
/// twice as large takes as much of an excess twice as large. In any other cell an
/// entity gains five, up to thirty thousand.
pub proof fn a_crowd_takes_its_excess_over_the_divisor(h: HerdState, w: RegionState, i: int)
    requires
        can_run(h, w),
        0 <= i < w.slots(),
        w.live.contains(i as u32),
    ensures
        ({
            let (h1, w1) = moved(h, w);
            let crowd = around(h.world, w1, i).len() as int;
            let excess = crowd - h.crowd_threshold;
            let before = h1.minds[i].health as int;
            let after = stepped(h, w).0.minds[i].health as int;
            &&& excess > 0 ==> h.damage_divisor > 0
            &&& excess > 0 ==> forall|q: int|
                #[trigger] (q * h.damage_divisor) <= excess < q * h.damage_divisor
                    + h.damage_divisor ==> {
                    &&& before - q >= -32768 ==> after == before - q
                    &&& before - q < -32768 ==> after == -32768
                }
            &&& excess <= 0 ==> {
                &&& before + 5 <= 30000 ==> after == before + 5
                &&& before + 5 > 30000 ==> after == 30000
            }
        }),
{
    let (h1, w1) = moved(h, w);
    let h2 = suffered(h1, w1);
    let c = h.world.cell_at(w1.xs[i] as int, w1.ys[i] as int);
    let d = h.damage_divisor as int;
    a_tick_in_parts(h, w);
    cells_are_in_the_region(h.world, w1.xs[i] as int, w1.ys[i] as int);
    a_cell_holds_who_stands_in_it(h, w, c);
    assert(stepped(h, w).0.minds[i] == h2.minds[i]);
    assert(crowd_around(counted(h1, w1), w1, i) == around(h.world, w1, i).len());
    let excess = around(h.world, w1, i).len() - h.crowd_threshold;
    if excess > 0 {
        assert forall|q: int| #[trigger] (q * h.damage_divisor) <= excess < q * h.damage_divisor
            + h.damage_divisor implies excess / d == q by {
            vstd::arithmetic::div_mod::lemma_fundamental_div_mod_converse(
                excess,
                d,
                q,
                excess - q * d,
            );
            assert(q * d == d * q) by (nonlinear_arith);
        }
        assert(excess / d >= 0) by (nonlinear_arith)
            requires
                excess > 0,
                d > 0,
        ;
    }
}

/// Walking does not change the health of anyone.
proof fn walking_keeps_health(h: HerdState, w: RegionState, i: int)
    requires
        can_run(h, w),
        0 <= i < w.slots(),
    ensures
        ({
            let a = adopted(h, w.slots() as int);
            let gathering = is_gathering(w.tick as int, phase_ticks(h));
            let (h0, w0) = walked(a, w, gathering, w.slots() as int);
            &&& h0.minds[i].health == a.minds[i].health
            &&& h0.minds[i].same_nature(a.minds[i])
            &&& h0.minds.len() == w.slots()
            &&& h0.plan == h.plan
            &&& w0.live == w.live
            &&& w0.slots() == w.slots()
            &&& w0.tick == w.tick
        }),
{
    let a = adopted(h, w.slots() as int);
    let gathering = is_gathering(w.tick as int, phase_ticks(h));
    let n = w.slots() as int;
    adopting_keeps_wf(h, n);
    walking_is_striding(a, w, gathering, n);
    let (h0, w0) = walked(a, w, gathering, n);
    assert(h0.minds[i] == h0.minds[i]);
    if w.live.contains(i as u32) {
        assert(strides_to(
            h.plan,
            a.minds[i],
            ground(w, i),
            gathering,
            h0.minds[i],
            ground(w0, i),
        ));
        reveal(strode);
        reveal(retargeted);
    }
}

/// How many of the first `k` entities a cull draws for: those alive and this game's
/// own.
pub open spec fn culled_before(h: HerdState, w: RegionState, k: int) -> nat
    decreases k,
{
    if k <= 0 {
        0
    } else {
        culled_before(h, w, k - 1) + if w.live.contains((k - 1) as u32) && h.minds[k - 1].mine {
            1nat
        } else {
            0
        }
    }
}

/// A cull draws once for each, in order, and takes the health of those whose draw is
/// low.
proof fn a_cull_draws_in_order(h: HerdState, w: RegionState, k: int, i: int)
    requires
        0 <= k <= h.minds.len(),
        0 <= i < h.minds.len(),
    ensures
        culled(h, w, k).rng == stream(h.rng, culled_before(h, w, k)),
        culled(h, w, k).minds.len() == h.minds.len(),
        ({
            let drew = i < k && w.live.contains(i as u32) && h.minds[i].mine;
            culled(h, w, k).minds[i] == if drew && stream(
                h.rng,
                culled_before(h, w, i) + 1,
            ) as int % 16 < 4 {
                Mind { health: i16::MIN, ..h.minds[i] }
            } else {
                h.minds[i]
            }
        }),
    decreases k,
{
    if k > 0 {
        a_cull_draws_in_order(h, w, k - 1, i);
        a_cull_draws_in_order(h, w, k - 1, k - 1);
    }
}

/// The generator once everything has walked.
pub open spec fn rng_after_walking(h: HerdState, w: RegionState) -> u64 {
    let gathering = is_gathering(w.tick as int, phase_ticks(h));
    walked(adopted(h, w.slots() as int), w, gathering, w.slots() as int).0.rng
}

/// Under the cull pattern, every thirty seconds a draw is made for each live entity
/// of the game's own, in order of id, and whoever draws below four of sixteen is
/// dead after the tick. The others keep the health they had. A cull at one tick is
/// followed by one thirty seconds later. At no other tick, and under no other
/// pattern, does moving touch anyone's health.
pub proof fn a_cull_comes_every_thirty_seconds(h: HerdState, w: RegionState, i: int)
    requires
        can_run(h, w),
        0 <= i < h.minds.len(),
        w.live.contains(i as u32),
    ensures
        ({
            let every = 30 * h.world.tick_hz;
            let due = h.plan.pattern == Pattern::Cull && w.tick as int % every == 0;
            let drew = h.minds[i].mine && stream(
                rng_after_walking(h, w),
                culled_before(h, w, i) + 1,
            ) as int % 16 < 4;
            let health = moved(h, w).0.minds[i].health;
            &&& due && drew ==> health == -32768 && !stepped(h, w).1.live.contains(i as u32)
            &&& !(due && drew) ==> health == h.minds[i].health
            &&& w.tick as int % every == 0 <==> (w.tick + every) % every == 0
        }),
{
    let n = w.slots() as int;
    let a = adopted(h, n);
    let gathering = is_gathering(w.tick as int, phase_ticks(h));
    let (h0, w0) = walked(a, w, gathering, n);
    let (h1, w1) = moved(h, w);
    let every = 30 * h.world.tick_hz;
    adopting_keeps_wf(h, n);
    walking_keeps_health(h, w, i);
    assert(a.minds[i] == h.minds[i]);
    assert((w.tick + every) % every == w.tick as int % every) by {
        vstd::arithmetic::div_mod::lemma_mod_add_multiples_vanish(w.tick as int, every as int);
    }
    assert(h0.plan.hz == h.world.tick_hz);
    if h.plan.pattern == Pattern::Cull && w.tick as int % every == 0 {
        a_cull_draws_in_order(h0, w0, n, i);
        the_same_are_drawn_for(h, w, i);
        if h1.minds[i].health == i16::MIN {
            the_culled_do_not_recover(h, w, i as u32);
        }
    } else if h.plan.pattern == Pattern::Teleport {
        jumping_keeps_minds(h0, w0, n / 1000);
    }
}

/// Jumping changes no mind.
proof fn jumping_keeps_minds(h: HerdState, w: RegionState, k: int)
    requires
        w.slots() > 0 || k <= 0,
    ensures
        jumped(h, w, k).0.minds == h.minds,
        jumped(h, w, k).0.plan == h.plan,
        jumped(h, w, k).1.live == w.live,
        jumped(h, w, k).1.slots() == w.slots(),
    decreases k,
{
    if k > 0 {
        jumping_keeps_minds(h, w, k - 1);
        let i = drawn(jumped(h, w, k - 1).0.rng, w.slots() as int);
        assert(0 <= i < w.slots());
    }
}

/// Walking changes nothing of whom a cull draws for.
proof fn the_same_are_drawn_for(h: HerdState, w: RegionState, k: int)
    requires
        can_run(h, w),
        0 <= k <= h.minds.len(),
    ensures
        ({
            let a = adopted(h, w.slots() as int);
            let gathering = is_gathering(w.tick as int, phase_ticks(h));
            let (h0, w0) = walked(a, w, gathering, w.slots() as int);
            culled_before(h0, w0, k) == culled_before(h, w, k)
        }),
    decreases k,
{
    if k > 0 {
        the_same_are_drawn_for(h, w, k - 1);
        walking_keeps_health(h, w, k - 1);
        adopting_keeps_wf(h, w.slots() as int);
        assert(adopted(h, w.slots() as int).minds[k - 1] == h.minds[k - 1]);
    }
}

/// Which entity a jump picks, by the generator before it.
pub open spec fn picked(w: RegionState, s: u64) -> int {
    scramble(s) as int % w.slots() as int
}

/// Whether the `j`th of some jumps lands an entity.
pub open spec fn lands(h: HerdState, w: RegionState, states: Seq<u64>, j: int, i: int) -> bool {
    picked(w, states[j]) == i && moves(h, w, i)
}

/// Whether these are the states of the generator from one jump to the next: a jump
/// takes one draw to pick an entity, and two more to land it.
pub open spec fn are_jumps(h: HerdState, w: RegionState, states: Seq<u64>) -> bool {
    forall|j: int|
        #![trigger states[j]]
        0 <= j < states.len() - 1 ==> states[j + 1] == stream(
            states[j],
            if moves(h, w, picked(w, states[j])) {
                3
            } else {
                1
            },
        )
}

/// Where a jump lands: anywhere between the margins, each place as likely.
pub open spec fn landing(h: HerdState, s: u64) -> Pos2 {
    let span = h.plan.hi - h.plan.lo + 1;
    Pos2 {
        x: (h.plan.lo + stream(s, 2) as int % span) as i32,
        y: (h.plan.lo + stream(s, 3) as int % span) as i32,
    }
}

/// Where an entity is after some jumps: where it was, if none landed it, and where the
/// last that did landed it otherwise.
pub open spec fn is_landed(
    h: HerdState,
    w: RegionState,
    states: Seq<u64>,
    i: int,
    to: Pos2,
) -> bool {
    ||| to == ground(w, i) && forall|j: int|
        0 <= j < states.len() - 1 ==> !#[trigger] lands(h, w, states, j, i)
    ||| exists|j: int|
        {
            &&& 0 <= j < states.len() - 1
            &&& #[trigger] lands(h, w, states, j, i)
            &&& to == landing(h, states[j])
            &&& forall|l: int| j < l < states.len() - 1 ==> !#[trigger] lands(h, w, states, l, i)
        }
}

/// One jump more.
proof fn one_jump_more(
    h: HerdState,
    w: RegionState,
    states: Seq<u64>,
    t: u64,
    i: int,
    was: Pos2,
    to: Pos2,
)
    requires
        states.len() > 0,
        is_landed(h, w, states, i, was),
        lands(h, w, states, states.len() - 1, i) ==> to == landing(h, states.last()),
        !lands(h, w, states, states.len() - 1, i) ==> to == was,
    ensures
        is_landed(h, w, states.push(t), i, to),
{
    let more = states.push(t);
    let last = states.len() - 1;
    assert forall|j: int| 0 <= j <= last implies #[trigger] lands(h, w, more, j, i) == lands(
        h,
        w,
        states,
        j,
        i,
    ) by {
        assert(more[j] == states[j]);
    }
    if lands(h, w, states, last, i) {
        assert(lands(h, w, more, last, i));
        assert(more[last] == states.last());
    } else if exists|j: int| 0 <= j < last && #[trigger] lands(h, w, states, j, i) {
        let j = choose|j: int|
            {
                &&& 0 <= j < last
                &&& #[trigger] lands(h, w, states, j, i)
                &&& was == landing(h, states[j])
                &&& forall|l: int| j < l < last ==> !#[trigger] lands(h, w, states, l, i)
            };
        assert(lands(h, w, more, j, i));
        assert(more[j] == states[j]);
    }
}

/// One jump, spelt out.
proof fn one_jump(h: HerdState, w: RegionState, i: int)
    requires
        h.plan.wf(),
        w.ys.len() == w.xs.len(),
        w.slots() > 0,
        h.minds.len() == w.slots(),
        0 <= i < w.slots(),
        forall|j: int| 0 <= j < h.minds.len() ==> 0 <= (#[trigger] h.minds[j]).speed,
    ensures
        ({
            let (h1, w1) = jumped_once(h, w);
            let p = picked(w, h.rng);
            &&& h1.minds == h.minds
            &&& h1.plan == h.plan
            &&& w1.live == w.live
            &&& w1.xs.len() == w.xs.len()
            &&& w1.ys.len() == w.xs.len()
            &&& h1.rng == stream(
                h.rng,
                if moves(h, w, p) {
                    3
                } else {
                    1
                },
            )
            &&& p == i && moves(h, w, i) ==> ground(w1, i) == landing(h, h.rng)
            &&& !(p == i && moves(h, w, i)) ==> ground(w1, i) == ground(w, i)
        }),
{
    let p = picked(w, h.rng);
    assert(0 <= p < w.slots());
    assert(0 <= h.minds[p].speed);
    the_first_states(h.rng);
}

/// Jumps, one by one.
proof fn jumps_in_order(h: HerdState, w: RegionState, k: int) -> (states: Seq<u64>)
    requires
        h.plan.wf(),
        w.wf(),
        0 <= k,
        w.slots() > 0,
        h.minds.len() == w.slots(),
        forall|j: int| 0 <= j < h.minds.len() ==> 0 <= (#[trigger] h.minds[j]).speed,
    ensures
        states.len() == k + 1,
        states[0] == h.rng,
        states[k] == jumped(h, w, k).0.rng,
        are_jumps(h, w, states),
        jumped(h, w, k).0.minds == h.minds,
        jumped(h, w, k).0.plan == h.plan,
        jumped(h, w, k).1.live == w.live,
        jumped(h, w, k).1.xs.len() == w.xs.len(),
        jumped(h, w, k).1.ys.len() == w.xs.len(),
        forall|i: int|
            0 <= i < w.slots() ==> is_landed(
                h,
                w,
                states,
                i,
                #[trigger] ground(jumped(h, w, k).1, i),
            ),
    decreases k,
{
    if k == 0 {
        seq![h.rng]
    } else {
        let rest = jumps_in_order(h, w, k - 1);
        let (h0, w0) = jumped(h, w, k - 1);
        let (h1, w1) = jumped(h, w, k);
        let states = rest.push(h1.rng);
        let p = picked(w, h0.rng);
        assert(0 <= p < w.slots());
        one_jump(h0, w0, p);
        assert(moves(h0, w0, p) == moves(h, w, p));
        assert forall|j: int|
            #![trigger states[j]]
            0 <= j < states.len() - 1 implies states[j + 1] == stream(
            states[j],
            if moves(h, w, picked(w, states[j])) {
                3
            } else {
                1
            },
        ) by {
            if j < k - 1 {
                assert(rest[j] == states[j] && rest[j + 1] == states[j + 1]);
            }
        }
        assert forall|i: int| 0 <= i < w.slots() implies is_landed(
            h,
            w,
            states,
            i,
            #[trigger] ground(w1, i),
        ) by {
            one_jump(h0, w0, i);
            assert(is_landed(h, w, rest, i, ground(w0, i)));
            assert(moves(h0, w0, i) == moves(h, w, i));
            assert(landing(h0, h0.rng) == landing(h, h0.rng));
            one_jump_more(h, w, rest, h1.rng, i, ground(w0, i), ground(w1, i));
        }
        states
    }
}

/// Under the teleport pattern, once everything has walked, as many jumps are made as
/// there are whole thousands of slots. Each picks one slot of all, and an entity
/// that lives, moves and is the game's own lands where two more draws put it, at any
/// place between the margins. Whoever is picked more than once is where the last
/// jump landed it, and whoever is not picked is where it walked to.
pub proof fn a_thousandth_jumps_every_tick(h: HerdState, w: RegionState, h0: HerdState, w0: RegionState) -> (
    states: Seq<u64>)
    requires
        can_run(h, w),
        h.plan.pattern == Pattern::Teleport,
        w.slots() > 0,
        (h0, w0) == walked(
            adopted(h, w.slots() as int),
            w,
            is_gathering(w.tick as int, phase_ticks(h)),
            w.slots() as int,
        ),
    ensures
        1000 * (states.len() - 1) <= w.slots() < 1000 * states.len(),
        states[0] == h0.rng,
        states.last() == moved(h, w).0.rng,
        are_jumps(h0, w0, states),
        h0.plan.lo == 8192,
        h0.plan.hi == h.world.region_size - 8192,
        forall|i: int|
            0 <= i < w.slots() ==> is_landed(
                h0,
                w0,
                states,
                i,
                #[trigger] ground(moved(h, w).1, i),
            ),
{
    let n = w.slots() as int;
    let a = adopted(h, n);
    let gathering = is_gathering(w.tick as int, phase_ticks(h));
    adopting_keeps_wf(h, n);
    walking_is_striding(a, w, gathering, n);
    assert forall|j: int| 0 <= j < n implies 0 <= (#[trigger] h0.minds[j]).speed by {
        walking_keeps_health(h, w, j);
        assert(a.minds[j].wf());
    }
    jumps_in_order(h0, w0, n / 1000)
}

/// No other pattern disturbs a population once it has walked, and a cull moves no
/// one.
pub proof fn the_other_patterns_only_walk(h: HerdState, w: RegionState)
    requires
        can_run(h, w),
        h.plan.pattern != Pattern::Teleport,
    ensures
        ({
            let after = walked(
                adopted(h, w.slots() as int),
                w,
                is_gathering(w.tick as int, phase_ticks(h)),
                w.slots() as int,
            );
            &&& moved(h, w).1 == after.1
            &&& h.plan.pattern != Pattern::Cull ==> moved(h, w) == after
        }),
{
    moving_changes_little(h, w);
    let a = adopted(h, w.slots() as int);
    adopting_keeps_wf(h, w.slots() as int);
    walking_is_striding(
        a,
        w,
        is_gathering(w.tick as int, phase_ticks(h)),
        w.slots() as int,
    );
}

/// A tick brings back at most sixty-four, and otherwise all that are missing from
/// the population the region was built with.
pub proof fn sixty_four_at_most_come_back(h: HerdState, w: RegionState)
    requires
        can_run(h, w),
    ensures
        ({
            let (h1, w1) = stepped(h, w);
            let arrived = h1.births - h.births;
            let left = w1.live.len() - arrived;
            &&& h1.target == h.target
            &&& 0 <= arrived <= 64
            &&& left < h.target ==> arrived == h.target - left || arrived == 64
            &&& left >= h.target ==> arrived == 0
            &&& left + arrived <= h.target || arrived == 0
        }),
{
    a_tick_in_parts(h, w);
}

/// A slot that an edge filled since the last tick is a stranger's, in full health.
pub proof fn newcomers_are_strangers(h: HerdState, w: RegionState, i: int)
    requires
        can_run(h, w),
        h.minds.len() <= i < w.slots(),
    ensures
        ({
            let m = moved(h, w).0.minds[i];
            m == stranger() && m.health == 30000 && !m.mine
        }),
{
    let n = w.slots() as int;
    let a = adopted(h, n);
    let gathering = is_gathering(w.tick as int, phase_ticks(h));
    let (h0, w0) = walked(a, w, gathering, n);
    adopting_keeps_wf(h, n);
    walking_is_striding(a, w, gathering, n);
    assert(a.minds[i] == stranger());
    assert(h0.minds[i] == stranger()) by {
        assert(h0.minds[i] == h0.minds[i]);
        reveal(strode);
    }
    if h.plan.pattern == Pattern::Cull {
        a_cull_draws_in_order(h0, w0, n, i);
    } else if h.plan.pattern == Pattern::Teleport {
        jumping_keeps_minds(h0, w0, n / 1000);
    }
}

/// Who dies in a tick is listed, once each, in order of id, behind who went before in
/// it, and counted. Those are the ones that were alive and are no longer.
pub proof fn the_dead_are_listed_in_order(h: HerdState, w: RegionState) -> (dead: Seq<u32>)
    requires
        can_run(h, w),
    ensures
        stepped(h, w).1.gone == w.gone + dead,
        stepped(h, w).0.deaths == h.deaths + dead.len(),
        forall|a: int, b: int| 0 <= a < b < dead.len() ==> #[trigger] dead[a] < #[trigger] dead[b],
        forall|id: u32| #[trigger]
            dead.contains(id) <==> w.live.contains(id) && !stepped(h, w).1.live.contains(id),
{
    let (h1, w1) = moved(h, w);
    let h2 = suffered(h1, w1);
    let n = w.slots() as int;
    a_tick_in_parts(h, w);
    the_dying_are_distinct(h2, w1, n);
    the_dying_are_those_that_die(h2, w1, n);
    let dead = dying(h2, w1, n);
    assert forall|id: u32| #[trigger]
        dead.contains(id) <==> w.live.contains(id) && !stepped(h, w).1.live.contains(id) by {
        assert(stepped(h, w).1.live.contains(id) <==> (w.live.contains(id) && !is_dying(
            h2,
            w1,
            id as int,
        )) || w.slots() <= id < stepped(h, w).1.slots());
    }
    dead
}

} // verus!
