//! What holds of a herd for as long as it is left to run.
//!
//! A tick keeps a herd fit for the next one, so a run goes on until an id, a
//! count or the clock runs out, and what a tick never changes, a run never
//! changes.

use vstd::prelude::*;

use crate::conduct::{
    a_population_lands_in_order, a_stranger_changes_only_in_health, a_tick_in_parts,
    adopting_keeps_wf, is_poised, moves_to, moving_changes_little, moving_keeps_nature,
    natures_never_change, the_dead_stay_dead, the_population_adds_up,
};
use crate::motion::{in_reach, is_gathering, striding_keeps_nature, Mind};
use crate::pattern::Pattern;
use crate::region::RegionState;
use crate::rng::{drawn, scramble, seeded};
use crate::tether::{
    a_landed_herd_is_tethered, a_tethered_herd_is_in_reach, a_tick_keeps_the_tether, is_tethered,
    moving_keeps_the_tether, tethered, the_born_are_tethered, ticks_follow,
};
use crate::tick::{
    adopted, can_bear, can_land, can_run, can_start, can_step, class_of, class_speed, footing,
    founded, founding, ground, missing, moved, movers_in_reach, moves, newborn, phase_ticks, placed,
    refilled, starting_speed, stepped, survived, unfounded, HerdState, MAX_SPAWNS_PER_TICK,
};
use crate::units::{a_share_fits, Pos2};
use crate::world::World;

verus! {

/// The region as the next tick finds it, if nothing but the game touches it.
pub open spec fn begun(w: RegionState) -> RegionState {
    RegionState { gone: Seq::empty(), tick: (w.tick + 1) as u32, ..w }
}

/// A herd and its region after `k` ticks.
pub open spec fn lived(h: HerdState, w: RegionState, k: int) -> (HerdState, RegionState)
    decreases k,
{
    if k <= 0 {
        (h, w)
    } else {
        let (h1, w1) = lived(h, w, k - 1);
        stepped(h1, begun(w1))
    }
}

/// Whether ids, counts and the clock last for `k` more ticks.
pub open spec fn has_room_for(h: HerdState, w: RegionState, k: int) -> bool {
    let slots = w.slots() + MAX_SPAWNS_PER_TICK * k;
    &&& w.tick + k <= u32::MAX
    &&& slots <= u32::MAX
    &&& h.births + MAX_SPAWNS_PER_TICK * k <= u64::MAX
    &&& h.deaths + 2 * slots <= u64::MAX
}

/// Whether a herd has landed and stands where its movement can have taken it.
pub open spec fn is_under_way(h: HerdState, w: RegionState) -> bool {
    &&& h.wf()
    &&& w.wf()
    &&& h.pending.len() == 0
    &&& h.minds.len() == w.slots()
    &&& is_tethered(h, w, w.tick as int)
}

/// Whether the crowds of the first `k` ticks can all be dealt with. With something
/// to divide by, they can.
pub open spec fn bears_all(h: HerdState, w: RegionState, k: int) -> bool {
    forall|j: int|
        0 <= j < k ==> can_bear((#[trigger] lived(h, w, j)).0, begun(lived(h, w, j).1))
}

/// A replacement with a home is a resident, and moves.
proof fn refilling_adds_residents(h: HerdState, w: RegionState, gathering: bool, k: int)
    requires
        0 <= k,
        h.plan.wf(),
        h.minds.len() == w.slots(),
        w.slots() + k <= u32::MAX,
        forall|r: int|
            0 <= r < h.residents.len() ==> h.is_resident(#[trigger] h.residents[r] as int),
    ensures
        ({
            let (h1, w1) = refilled(h, w, gathering, k);
            &&& h1.plan == h.plan
            &&& h1.minds.len() == w1.slots() == w.slots() + k
            &&& forall|r: int|
                0 <= r < h1.residents.len() ==> h1.is_resident(#[trigger] h1.residents[r] as int)
        }),
    decreases k,
{
    if k > 0 {
        refilling_adds_residents(h, w, gathering, k - 1);
        let (h0, w0) = refilled(h, w, gathering, k - 1);
        let (h1, w1) = refilled(h, w, gathering, k);
        let class = class_of(drawn(h0.rng, 100));
        let speed = class_speed(class, h0.plan.hz);
        let (home, at, s) = placed(h0.plan, speed, false, scramble(h0.rng));
        let t = scramble(s);
        let dies_at = (w0.tick + h0.lifespan as int / 2 + 1 + drawn(t, h0.lifespan as int))
            % 0x1_0000_0000;
        let young = newborn(h0.plan, speed, home, at, gathering, dies_at as u32);
        striding_keeps_nature(h0.plan, young, at, gathering, scramble(t));
        a_share_fits(class.0 * 1024 + class.1 * 1024 / 1000, h0.plan.hz);
        assert(h1.minds.last().same_nature(young));
        assert forall|r: int| 0 <= r < h1.residents.len() implies h1.is_resident(
            #[trigger] h1.residents[r] as int,
        ) by {
            if r < h0.residents.len() {
                let i = h0.residents[r] as int;
                assert(h0.is_resident(i));
                assert(h1.minds[i] == h0.minds[i]);
            }
        }
    }
}

/// Whether the list of residents is exact: whoever has a home is on it, no one else
/// is, and no one twice.
pub open spec fn lists_residents(h: HerdState) -> bool {
    &&& h.residents.no_duplicates()
    &&& forall|id: u32| #[trigger]
        h.residents.contains(id) <==> id < h.minds.len() && h.minds[id as int].home is Some
}

/// One entity more, on the list if it has a home, keeps the list exact.
proof fn one_more_keeps_the_list(h: HerdState, after: HerdState)
    requires
        lists_residents(h),
        h.minds.len() < u32::MAX,
        after.minds.len() == h.minds.len() + 1,
        forall|i: int| 0 <= i < h.minds.len() ==> #[trigger] after.minds[i] == h.minds[i],
        after.residents == if after.minds.last().home is Some {
            h.residents.push(h.minds.len() as u32)
        } else {
            h.residents
        },
    ensures
        lists_residents(after),
{
    let id = h.minds.len() as u32;
    assert(!h.residents.contains(id));
    assert forall|other: u32| #[trigger]
        after.residents.contains(other) <==> other < after.minds.len() && after.minds[other as int].home is Some by {
        assert(h.residents.contains(other) <==> other < h.minds.len()
            && h.minds[other as int].home is Some);
        if after.minds.last().home is Some {
            assert(after.residents[h.residents.len() as int] == id);
            if h.residents.contains(other) {
                let k = choose|k: int| 0 <= k < h.residents.len() && h.residents[k] == other;
                assert(after.residents[k] == other);
            }
        }
        if other < h.minds.len() {
            assert(after.minds[other as int] == h.minds[other as int]);
        }
    }
    assert forall|j: int, k: int|
        0 <= j < after.residents.len() && 0 <= k < after.residents.len() && j != k implies after.residents[j]
        != after.residents[k] by {
        assert(j < h.residents.len() ==> h.residents.contains(h.residents[j]));
        assert(k < h.residents.len() ==> h.residents.contains(h.residents[k]));
    }
}

/// Refilling keeps the list of residents exact.
proof fn refilling_keeps_the_list(h: HerdState, w: RegionState, gathering: bool, k: int)
    requires
        0 <= k,
        h.minds.len() == w.slots(),
        w.slots() + k <= u32::MAX,
        lists_residents(h),
    ensures
        ({
            let (h1, w1) = refilled(h, w, gathering, k);
            &&& lists_residents(h1)
            &&& h1.minds.len() == w1.slots() == w.slots() + k
        }),
    decreases k,
{
    if k > 0 {
        refilling_keeps_the_list(h, w, gathering, k - 1);
        let (h0, w0) = refilled(h, w, gathering, k - 1);
        let (h1, w1) = refilled(h, w, gathering, k);
        let speed = class_speed(class_of(drawn(h0.rng, 100)), h0.plan.hz);
        let (home, at, s) = placed(h0.plan, speed, false, scramble(h0.rng));
        let t = scramble(s);
        let dies_at = (w0.tick + h0.lifespan as int / 2 + 1 + drawn(t, h0.lifespan as int))
            % 0x1_0000_0000;
        let young = newborn(h0.plan, speed, home, at, gathering, dies_at as u32);
        striding_keeps_nature(h0.plan, young, at, gathering, scramble(t));
        assert(h1.minds.last().same_nature(young));
        one_more_keeps_the_list(h0, h1);
    }
}

/// Founding a population keeps the list of residents exact.
proof fn founding_keeps_the_list(h: HerdState, k: int)
    requires
        0 <= k,
        h.minds.len() + k <= u32::MAX,
        lists_residents(h),
    ensures
        lists_residents(founded(h, k)),
        founded(h, k).minds.len() == h.minds.len() + k,
    decreases k,
{
    if k > 0 {
        founding_keeps_the_list(h, k - 1);
        let h0 = founded(h, k - 1);
        let h1 = founded(h, k);
        let speed = starting_speed(h0.plan, class_of(drawn(h0.rng, 100)));
        let (home, near, s) = placed(
            h0.plan,
            speed,
            h0.plan.pattern != Pattern::Herd,
            scramble(h0.rng),
        );
        let at = footing(h0.plan, h0.world, speed, near);
        let t = scramble(s);
        let dies_at = (1 + drawn(t, h0.lifespan as int)) as u32;
        let young = newborn(h0.plan, speed, home, Pos2 { x: 0, y: 0 }, true, dies_at);
        striding_keeps_nature(h0.plan, young, at, true, scramble(t));
        assert(h1.minds.last().same_nature(young));
        one_more_keeps_the_list(h0, h1);
    }
}

/// A run starts with an exact list of residents.
pub proof fn a_run_starts_with_its_residents_listed(
    world: World,
    n: usize,
    seed: u64,
    lifespan: u32,
    pattern: Pattern,
)
    requires
        n <= u32::MAX,
    ensures
        lists_residents(founding(world, n, seed, lifespan, pattern)),
{
    founding_keeps_the_list(unfounded(world, n, seed, lifespan, pattern), n as int);
}

/// Every tick keeps the list of residents exact, and leaves a mind for every slot,
/// of which there are never fewer.
pub proof fn a_tick_keeps_the_residents_listed(h: HerdState, w: RegionState)
    requires
        can_land(h, w) || can_run(h, w),
        lists_residents(h),
    ensures
        lists_residents(stepped(h, w).0),
        stepped(h, w).0.minds.len() == stepped(h, w).1.slots(),
        stepped(h, w).1.slots() >= w.slots(),
        stepped(h, w).0.minds.len() >= h.minds.len(),
{
    let (h4, w4) = stepped(h, w);
    if h.pending.len() > 0 {
        a_population_lands_in_order(h, w);
        assert forall|id: u32| #[trigger]
            h4.residents.contains(id) <==> id < h4.minds.len() && h4.minds[id as int].home is Some by {
            assert(h.residents.contains(id) <==> id < h.minds.len()
                && h.minds[id as int].home is Some);
        }
    } else {
        let (h3, w3) = survived(h, w);
        let gathering = is_gathering(w.tick as int, phase_ticks(h));
        a_tick_in_parts(h, w);
        natures_never_change(h, w);
        assert forall|id: u32| #[trigger]
            h3.residents.contains(id) <==> id < h3.minds.len() && h3.minds[id as int].home is Some by {
            let i = id as int;
            assert(h.residents.contains(id) <==> id < h.minds.len() && h.minds[i].home is Some);
            if i < w.slots() {
                assert(h4.minds[i] == h3.minds[i]);
                if i < h.minds.len() {
                    assert(h4.minds[i].same_nature(h.minds[i]));
                } else {
                    a_stranger_changes_only_in_health(h, w, i);
                }
            }
        }
        refilling_keeps_the_list(h3, w3, gathering, missing(h3, w3));
    }
}

/// A tick keeps a herd and its region well-formed.
proof fn a_tick_keeps_wf(h: HerdState, w: RegionState)
    requires
        can_run(h, w),
        1 <= w.tick,
        is_tethered(h, w, w.tick - 1),
    ensures
        stepped(h, w).0.wf(),
        stepped(h, w).1.wf(),
{
    let phase = phase_ticks(h);
    let tick = w.tick as int;
    let was = is_gathering(tick - 1, phase);
    let gathering = is_gathering(tick, phase);
    let since = (tick - 1) % phase;
    let now = tick % phase;
    let a = adopted(h, w.slots() as int);
    let (h1, w1) = moved(h, w);
    let (h3, w3) = survived(h, w);
    let (h4, w4) = stepped(h, w);
    ticks_follow(tick, phase);
    adopting_keeps_wf(h, w.slots() as int);
    moving_changes_little(h, w);
    a_tick_in_parts(h, w);
    natures_never_change(h, w);
    assert forall|i: int| 0 <= i < h4.minds.len() implies (#[trigger] h4.minds[i]).wf() by {
        let n = h4.minds[i];
        let to = ground(w4, i);
        if i < w.slots() {
            let m = a.minds[i];
            assert(m.wf());
            assert(n == (Mind { health: n.health, ..h1.minds[i] }));
            assert(to == ground(w1, i));
            if w.live.contains(i as u32) {
                assert(moves_to(h.plan, m, ground(w, i), gathering, h1.minds[i], to));
                moving_keeps_nature(h.plan, m, ground(w, i), gathering, h1.minds[i], to);
                if m.mine && m.speed > 0 {
                    assert(i < h.minds.len() && moves(h, w, i));
                    moving_keeps_the_tether(
                        h.plan,
                        m,
                        ground(w, i),
                        since,
                        was,
                        now,
                        gathering,
                        h1.minds[i],
                        to,
                    );
                }
            }
        } else {
            the_born_are_tethered(h.plan, n, to, gathering, now, gathering);
        }
    }
    assert forall|r: int| 0 <= r < h3.residents.len() implies h3.is_resident(
        #[trigger] h3.residents[r] as int,
    ) by {
        let i = h.residents[r] as int;
        assert(h.is_resident(i));
        assert(h4.minds[i].same_nature(h.minds[i]));
        assert(h4.minds[i] == h3.minds[i]);
    }
    refilling_adds_residents(h3, w3, gathering, missing(h3, w3));
    assert(h4.occupancy.len() == h.world.cells_per_region);
}

/// A herd that is under way stays under way, and can always take the next step,
/// for as long as ids, counts and the clock last: its own movement never takes it
/// where it could not go on. With nothing to divide by it is stopped by a crowd
/// over the threshold, and by nothing else. For all that time an entity stays what
/// it was, the dead stay dead, and the list of residents stays exact.
pub proof fn a_run_never_gets_stuck(h: HerdState, w: RegionState, k: int)
    requires
        is_under_way(h, w),
        0 <= k,
        has_room_for(h, w, k + 1),
        h.damage_divisor > 0 || bears_all(h, w, k),
    ensures
        ({
            let (h1, w1) = lived(h, w, k);
            &&& is_under_way(h1, w1)
            &&& can_start(h1, begun(w1))
            &&& can_step(h1, begun(w1)) <==> can_bear(h1, begun(w1))
            &&& h.damage_divisor > 0 ==> can_step(h1, begun(w1))
            &&& h1.damage_divisor == h.damage_divisor
            &&& w1.tick == w.tick + k
            &&& w.slots() <= w1.slots() <= w.slots() + MAX_SPAWNS_PER_TICK * k
            &&& h1.births <= h.births + MAX_SPAWNS_PER_TICK * k
            &&& h1.deaths - h.deaths == w.live.len() - w1.live.len() + h1.births - h.births
            &&& forall|i: int|
                0 <= i < h.minds.len() ==> (#[trigger] h1.minds[i]).same_nature(h.minds[i])
            &&& forall|id: u32|
                id < w.slots() && !w.live.contains(id) ==> !#[trigger] w1.live.contains(id)
            &&& lists_residents(h) ==> lists_residents(h1)
        }),
    decreases k,
{
    if k > 0 {
        a_run_never_gets_stuck(h, w, k - 1);
        let (h0, w0) = lived(h, w, k - 1);
        let v = begun(w0);
        let (h1, w1) = lived(h, w, k);
        assert(is_tethered(h0, v, v.tick - 1)) by {
            assert forall|i: int| 0 <= i < h0.minds.len() && #[trigger] moves(
                h0,
                v,
                i,
            ) implies tethered(
                h0.plan,
                h0.minds[i],
                ground(v, i),
                (v.tick - 1) % phase_ticks(h0),
                is_gathering(v.tick - 1, phase_ticks(h0)),
            ) by {
                assert(moves(h0, w0, i));
                assert(ground(v, i) == ground(w0, i));
            }
        }
        assert(can_bear(h0, v));
        assert(can_run(h0, v));
        a_tick_keeps_wf(h0, v);
        a_tick_keeps_the_tether(h0, v);
        a_tick_in_parts(h0, v);
        the_population_adds_up(h0, v);
        natures_never_change(h0, v);
        if lists_residents(h) {
            a_tick_keeps_the_residents_listed(h0, v);
        }
        assert forall|i: int| 0 <= i < h.minds.len() implies (#[trigger] h1.minds[i]).same_nature(
            h.minds[i],
        ) by {
            assert(h0.minds[i].same_nature(h.minds[i]));
            assert(h1.minds[i].same_nature(h0.minds[i]));
        }
        assert forall|id: u32|
            id < w.slots() && !w.live.contains(id) implies !#[trigger] w1.live.contains(id) by {
            assert(!w0.live.contains(id));
            the_dead_stay_dead(h0, v, id);
        }
    }
    let (h1, w1) = lived(h, w, k);
    a_tethered_herd_is_in_reach(h1, w1, w1.tick as int);
    moving_changes_little(h1, begun(w1));
    the_living_have_slots(w);
    the_living_have_slots(w1);
    assert(movers_in_reach(h1, begun(w1))) by {
        assert forall|i: int| 0 <= i < h1.minds.len() && moves(
            h1,
            begun(w1),
            i,
        ) implies in_reach(#[trigger] ground(begun(w1), i)) by {
            assert(moves(h1, w1, i));
            assert(in_reach(ground(w1, i)));
        }
    }
}

/// No more are alive than have a slot.
proof fn the_living_have_slots(w: RegionState)
    requires
        w.wf(),
    ensures
        w.live.len() <= w.slots(),
{
    let all = vstd::set_lib::set_int_range(0, w.slots() as int);
    vstd::set_lib::lemma_int_range(0, w.slots() as int);
    let named = w.live.map(|id: u32| id as int);
    assert(named.subset_of(all));
    vstd::set_lib::lemma_len_subset(named, all);
    vstd::set_lib::lemma_map_size(w.live, named, |id: u32| id as int);
}

/// A run reproduces from its seed. Two seeds that differ in the lowest bit alone
/// have one run: the same herd to start with, and the same herd and region after
/// any number of ticks.
pub proof fn a_run_comes_of_its_seed(
    world: World,
    n: usize,
    seed: u64,
    other: u64,
    lifespan: u32,
    pattern: Pattern,
    w: RegionState,
    k: int,
)
    requires
        seed | 1 == other | 1,
    ensures
        ({
            let one = founding(world, n, seed, lifespan, pattern);
            let two = founding(world, n, other, lifespan, pattern);
            one == two && lived(one, w, k) == lived(two, w, k)
        }),
{
    assert(seeded(seed) == seeded(other));
}

/// A run goes on from its first tick: a population that lands is under way, and
/// what holds of every herd under way holds of it.
pub proof fn a_landed_herd_is_under_way(h: HerdState, w: RegionState)
    requires
        can_land(h, w),
        is_poised(h),
    ensures
        is_under_way(stepped(h, w).0, stepped(h, w).1),
{
    let (h1, w1) = stepped(h, w);
    a_population_lands_in_order(h, w);
    a_landed_herd_is_tethered(h, w, w.tick as int);
    assert forall|i: int| 0 <= i < h1.minds.len() implies (#[trigger] h1.minds[i]).wf() by {
        assert(h.minds[i].wf());
    }
    assert forall|r: int| 0 <= r < h1.residents.len() implies h1.is_resident(
        #[trigger] h1.residents[r] as int,
    ) by {
        assert(h.is_resident(h.residents[r] as int));
    }
}

} // verus!
