//! What a herd promises, tick after tick.
//!
//! Each pass of a tick changes little, and says so here: walking moves one
//! entity at a time, a crowd changes nothing but health, a birth adds a slot and
//! touches no other. What holds of a whole tick follows.

use vstd::prelude::*;

use crate::motion::{
    in_reach, is_gathering, retargeted, striding_keeps_nature, strode, Mind, Plan, ATTRACTORS, FLAP_M,
    FLASH_SPEED, HEALTH_MAX, HORIZON_S, MAX_STRIDE, THRASH_SPEED,
};
use crate::rng::{drawn, scramble, seeded};
use crate::pattern::Pattern;
use crate::region::RegionState;
use crate::tick::{
    adopted, born, buried, class_of, class_speed, counted, culled, dying, footing, founded,
    founded_one, founding, can_land, landed, can_run, ground, headcount, health_after, is_dying,
    jumped, missing, moved, moves, newborn, phase_ticks, placed, refilled, scattered,
    starting_speed, stepped, stranger, suffered, survived, unfounded, walked, HerdState, MARGIN_M,
    MAX_SPAWNS_PER_TICK, REGEN, TELEPORT_PER_MILLE,
};
use crate::units::{a_share_fits, Pos2, Pos3};
use crate::world::{cells_are_in_the_region, rates_fit, World};

verus! {

/// Whether a stride can make of one entity what is found of it.
pub open spec fn strides_to(
    plan: Plan,
    m: Mind,
    at: Pos2,
    gathering: bool,
    n: Mind,
    to: Pos2,
) -> bool {
    exists|s: u64|
        (#[trigger] strode(plan, m, at, gathering, s)).0 == n && strode(
            plan,
            m,
            at,
            gathering,
            s,
        ).1 == to
}

/// Whether only positions on the ground differ.
pub open spec fn same_but_ground(w: RegionState, v: RegionState) -> bool {
    &&& v == (RegionState { xs: v.xs, ys: v.ys, ..w })
    &&& v.xs.len() == w.xs.len()
    &&& v.ys.len() == w.ys.len()
}

/// Walking moves each live entity by one stride, whatever is drawn for it, and
/// leaves everything else.
pub(crate) proof fn walking_is_striding(h: HerdState, w: RegionState, gathering: bool, k: int)
    requires
        w.wf(),
        0 <= k <= w.slots(),
        h.minds.len() == w.slots(),
    ensures
        ({
            let (h1, w1) = walked(h, w, gathering, k);
            &&& h1.moved_on_from(h)
            &&& h1.minds.len() == h.minds.len()
            &&& same_but_ground(w, w1)
            &&& forall|j: int|
                #![trigger h1.minds[j]]
                #![trigger ground(w1, j)]
                0 <= j < w.slots() ==> if j < k && w.live.contains(j as u32) {
                    strides_to(h.plan, h.minds[j], ground(w, j), gathering, h1.minds[j], ground(w1, j))
                } else {
                    h1.minds[j] == h.minds[j] && ground(w1, j) == ground(w, j)
                }
        }),
    decreases k,
{
    if k > 0 {
        walking_is_striding(h, w, gathering, k - 1);
        let (h0, w0) = walked(h, w, gathering, k - 1);
        let (h1, w1) = walked(h, w, gathering, k);
        let i = k - 1;
        assert(h0.minds[i] == h.minds[i] && ground(w0, i) == ground(w, i));
        assert forall|j: int|
            #![trigger h1.minds[j]]
            #![trigger ground(w1, j)]
            0 <= j < w.slots() implies if j < k && w.live.contains(j as u32) {
            strides_to(h.plan, h.minds[j], ground(w, j), gathering, h1.minds[j], ground(w1, j))
        } else {
            h1.minds[j] == h.minds[j] && ground(w1, j) == ground(w, j)
        } by {
            assert(h0.minds[j] == h0.minds[j]);
            if j == i && w.live.contains(i as u32) {
                let (m, p, t) = strode(h.plan, h.minds[i], ground(w, i), gathering, h0.rng);
                assert(h1.minds[i] == m);
                assert(ground(w1, i) == p);
            } else {
                assert(h1.minds[j] == h0.minds[j]);
                assert(ground(w1, j) == ground(w0, j));
            }
        }
    }
}

/// Jumping changes no mind, and puts whatever it moves between the margins.
proof fn jumping_lands_inside(h: HerdState, w: RegionState, k: int)
    requires
        h.plan.wf(),
        forall|j: int| 0 <= j < h.minds.len() ==> 0 <= (#[trigger] h.minds[j]).speed,
        w.wf(),
        h.minds.len() == w.slots(),
        w.slots() > 0,
    ensures
        ({
            let (h1, w1) = jumped(h, w, k);
            &&& h1 == (HerdState { rng: h1.rng, ..h })
            &&& same_but_ground(w, w1)
            &&& forall|j: int|
                0 <= j < w.slots() ==> #[trigger] ground(w1, j) == ground(w, j) || (moves(h, w, j)
                    && h.plan.holds(ground(w1, j)))
        }),
    decreases k,
{
    if k > 0 {
        jumping_lands_inside(h, w, k - 1);
        let (h0, w0) = jumped(h, w, k - 1);
        let (h1, w1) = jumped(h, w, k);
        assert forall|j: int| 0 <= j < w.slots() implies #[trigger] ground(w1, j) == ground(w, j)
            || (moves(h, w, j) && h.plan.holds(ground(w1, j))) by {
            assert(ground(w0, j) == ground(w, j) || (moves(h, w, j) && h.plan.holds(ground(w0, j))));
            let i = drawn(h0.rng, w.slots() as int);
            assert(0 <= h.minds[j].speed);
            if ground(w1, j) != ground(w0, j) {
                assert(i == j);
            }
        }
    }
}

/// Culling takes the health of some, and changes nothing else.
proof fn culling_takes_health(h: HerdState, w: RegionState, k: int)
    requires
        0 <= k <= h.minds.len(),
    ensures
        ({
            let h1 = culled(h, w, k);
            &&& h1.moved_on_from(h)
            &&& h1.minds.len() == h.minds.len()
            &&& forall|j: int|
                0 <= j < h.minds.len() ==> #[trigger] h1.minds[j] == h.minds[j] || {
                    &&& h1.minds[j] == (Mind { health: i16::MIN, ..h.minds[j] })
                    &&& w.live.contains(j as u32)
                    &&& h.minds[j].mine
                }
            &&& forall|j: int| k <= j < h.minds.len() ==> #[trigger] h1.minds[j] == h.minds[j]
        }),
    decreases k,
{
    if k > 0 {
        culling_takes_health(h, w, k - 1);
        let h0 = culled(h, w, k - 1);
        let h1 = culled(h, w, k);
        assert(h0.minds[k - 1] == h.minds[k - 1]);
        assert forall|j: int| 0 <= j < h.minds.len() implies #[trigger] h1.minds[j] == h.minds[j]
            || {
            &&& h1.minds[j] == (Mind { health: i16::MIN, ..h.minds[j] })
            &&& w.live.contains(j as u32)
            &&& h.minds[j].mine
        } by {
            assert(h0.minds[j] == h0.minds[j]);
            if j != k - 1 {
                assert(h1.minds[j] == h0.minds[j]);
            }
        }
    }
}

/// Whether moving can make of a live entity what is found of it: it strides, and
/// then it may lose its health where it stands or jump, if it moves at all.
pub open spec fn moves_to(
    plan: Plan,
    m: Mind,
    at: Pos2,
    gathering: bool,
    n: Mind,
    to: Pos2,
) -> bool {
    exists|health: i16, stood: Pos2|
        {
            &&& #[trigger] strides_to(plan, m, at, gathering, Mind { health, ..n }, stood)
            &&& n.health == health || (n.health == i16::MIN && m.mine)
            &&& to == stood || (m.mine && m.speed > 0 && plan.holds(to))
        }
}

/// What moving makes of a herd and its region.
pub(crate) proof fn moving_changes_little(h: HerdState, w: RegionState)
    requires
        h.wf(),
        w.wf(),
        h.pending.len() == 0,
        h.minds.len() <= w.slots(),
    ensures
        ({
            let a = adopted(h, w.slots() as int);
            let (h1, w1) = moved(h, w);
            let gathering = is_gathering(w.tick as int, phase_ticks(h));
            &&& h1.moved_on_from(h)
            &&& h1.minds.len() == w.slots()
            &&& same_but_ground(w, w1)
            &&& forall|j: int|
                #![trigger h1.minds[j]]
                #![trigger ground(w1, j)]
                0 <= j < w.slots() ==> if w.live.contains(j as u32) {
                    moves_to(h.plan, a.minds[j], ground(w, j), gathering, h1.minds[j], ground(w1, j))
                } else {
                    h1.minds[j] == a.minds[j] && ground(w1, j) == ground(w, j)
                }
        }),
{
    let a = adopted(h, w.slots() as int);
    let n = w.slots() as int;
    let gathering = is_gathering(w.tick as int, phase_ticks(h));
    let (h0, w0) = walked(a, w, gathering, n);
    let (h1, w1) = moved(h, w);
    adopting_keeps_wf(h, n);
    walking_is_striding(a, w, gathering, n);
    assert forall|j: int| 0 <= j < n implies 0 <= (#[trigger] h0.minds[j]).speed by {
        assert(a.minds[j].wf());
        if w.live.contains(j as u32) {
            let s = choose|s: u64|
                (#[trigger] strode(h.plan, a.minds[j], ground(w, j), gathering, s)).0 == h0.minds[j];
            striding_keeps_nature(h.plan, a.minds[j], ground(w, j), gathering, s);
        }
    }
    if h.plan.pattern == Pattern::Teleport && n > 0 {
        jumping_lands_inside(h0, w0, n * TELEPORT_PER_MILLE / 1000);
    }
    if h.plan.pattern == Pattern::Cull {
        culling_takes_health(h0, w0, n);
    }
    assert forall|j: int|
        #![trigger h1.minds[j]]
        #![trigger ground(w1, j)]
        0 <= j < w.slots() implies if w.live.contains(j as u32) {
        moves_to(h.plan, a.minds[j], ground(w, j), gathering, h1.minds[j], ground(w1, j))
    } else {
        h1.minds[j] == a.minds[j] && ground(w1, j) == ground(w, j)
    } by {
        let before = h0.minds[j];
        let stood = ground(w0, j);
        let after = h1.minds[j];
        assert(ground(w1, j) == stood || (moves(h0, w0, j) && h.plan.holds(ground(w1, j))));
        assert(after == before || (after == (Mind { health: i16::MIN, ..before }) && before.mine
            && w.live.contains(j as u32)));
        if w.live.contains(j as u32) {
            let s = choose|s: u64|
                (#[trigger] strode(h.plan, a.minds[j], ground(w, j), gathering, s)).0 == before
                    && strode(h.plan, a.minds[j], ground(w, j), gathering, s).1 == stood;
            striding_keeps_nature(h.plan, a.minds[j], ground(w, j), gathering, s);
            assert(Mind { health: before.health, ..after } == before);
            assert(strides_to(
                h.plan,
                a.minds[j],
                ground(w, j),
                gathering,
                Mind { health: before.health, ..after },
                stood,
            ));
        }
    }
}

/// Adopting slots leaves every entity that was there, and makes a stranger of each
/// that is new: not this game's, without speed, home or lifespan, and in full
/// health. Nothing else changes. Where there is a mind for every slot nothing
/// changes at all, so adopting again changes nothing.
pub proof fn adopting_adds_strangers(h: HerdState, slots: int)
    ensures
        ({
            let a = adopted(h, slots);
            &&& a == (HerdState { minds: a.minds, ..h })
            &&& a.minds.len() == if h.minds.len() >= slots {
                h.minds.len() as int
            } else {
                slots
            }
            &&& forall|i: int| 0 <= i < h.minds.len() ==> #[trigger] a.minds[i] == h.minds[i]
            &&& forall|i: int|
                h.minds.len() <= i < a.minds.len() ==> {
                    let m = #[trigger] a.minds[i];
                    &&& !m.mine
                    &&& m.speed == 0 && m.vel_x == 0 && m.vel_y == 0 && m.horizon == 0
                    &&& m.dest == Pos2 { x: 0, y: 0 }
                    &&& m.wait == 0 && m.dwell == 0 && !m.phase_at
                    &&& m.home is None
                    &&& m.health == HEALTH_MAX
                    &&& m.dies_at == u32::MAX
                }
            &&& slots <= h.minds.len() ==> a == h
            &&& adopted(a, slots) == a
        }),
{
}

/// Adopting keeps a herd well-formed.
pub(crate) proof fn adopting_keeps_wf(h: HerdState, slots: int)
    requires
        h.wf(),
        h.pending.len() == 0,
    ensures
        adopted(h, slots).wf(),
        h.minds.len() <= slots ==> adopted(h, slots).minds.len() == slots,
        forall|j: int|
            0 <= j < h.minds.len() ==> #[trigger] adopted(h, slots).minds[j] == h.minds[j],
        forall|j: int| h.minds.len() <= j < slots ==> #[trigger] adopted(h, slots).minds[j] == stranger(),
{
    let a = adopted(h, slots);
    assert forall|j: int| 0 <= j < a.minds.len() implies (#[trigger] a.minds[j]).wf() by {
        if j < h.minds.len() {
            assert(h.minds[j].wf());
        }
    }
    assert forall|k: int| 0 <= k < a.residents.len() implies a.is_resident(
        #[trigger] a.residents[k] as int,
    ) by {
        assert(h.is_resident(h.residents[k] as int));
    }
}

/// Whether an entity could have been born where it stands.
pub open spec fn could_be_born(plan: Plan, m: Mind, at: Pos2, gathering: bool) -> bool {
    exists|young: Mind, s: u64|
        {
            &&& m == (#[trigger] retargeted(plan, young, at, gathering, s)).0
            &&& young.mine
            &&& young.wf()
            &&& plan.pattern == Pattern::Flap || young.speed * plan.hz <= 60 * 1024
            &&& plan.holds(at)
        }
}

/// A replacement appears between the margins.
proof fn a_replacement_appears_inside(h: HerdState, w: RegionState, gathering: bool)
    requires
        h.plan.wf(),
    ensures
        ({
            let (h1, w1) = born(h, w, gathering);
            could_be_born(
                h.plan,
                h1.minds.last(),
                Pos2 { x: w1.xs.last(), y: w1.ys.last() },
                gathering,
            )
        }),
{
    let hz = h.plan.hz;
    let class = class_of(drawn(h.rng, 100));
    let per_second = class.0 * 1024 + class.1 * 1024 / 1000;
    let speed = class_speed(class, hz);
    a_share_fits(per_second, hz);
    assert(speed * (60 * hz) == 60 * (speed * hz)) by (nonlinear_arith);
    assert(speed * (HORIZON_S * hz) == 60 * (speed * hz));
    let (home, at, s) = placed(h.plan, speed, false, scramble(h.rng));
    assert(h.plan.holds(at)) by {
        assert forall|k: int| 0 <= k < ATTRACTORS implies h.plan.holds(
            #[trigger] h.plan.attractors[k],
        ) by {}
    }
    let t = scramble(s);
    let dies_at = (w.tick + h.lifespan as int / 2 + 1 + drawn(t, h.lifespan as int))
        % 0x1_0000_0000;
    let young = newborn(h.plan, speed, home, at, gathering, dies_at as u32);
    assert(born(h, w, gathering).0.minds.last() == retargeted(
        h.plan,
        young,
        at,
        gathering,
        scramble(t),
    ).0);
}

/// Refilling adds slots and touches none that was there.
proof fn refilling_adds_slots(h: HerdState, w: RegionState, gathering: bool, k: int)
    requires
        h.plan.wf(),
        w.wf(),
        0 <= k,
        h.minds.len() == w.slots(),
        w.slots() + k <= u32::MAX,
        h.births + k <= u64::MAX,
    ensures
        ({
            let (h1, w1) = refilled(h, w, gathering, k);
            &&& h1 == (HerdState {
                minds: h1.minds,
                rng: h1.rng,
                residents: h1.residents,
                births: h1.births,
                ..h
            })
            &&& h1.births == h.births + k
            &&& h1.minds.len() == w.slots() + k
            &&& w1.slots() == w.slots() + k
            &&& w1.ys.len() == w1.xs.len()
            &&& w1.zs.len() == w1.xs.len()
            &&& w1.gone == w.gone
            &&& w1.tick == w.tick
            &&& w1.live.finite()
            &&& w1.live.len() == w.live.len() + k
            &&& forall|id: u32| #[trigger]
                w1.live.contains(id) <==> w.live.contains(id) || w.slots() <= id < w.slots() + k
            &&& forall|j: int|
                #![trigger h1.minds[j]]
                #![trigger ground(w1, j)]
                0 <= j < w.slots() ==> h1.minds[j] == h.minds[j] && ground(w1, j) == ground(w, j)
            &&& forall|j: int| 0 <= j < w.slots() ==> #[trigger] w1.zs[j] == w.zs[j]
            &&& forall|j: int|
                #![trigger h1.minds[j]]
                #![trigger ground(w1, j)]
                w.slots() <= j < w.slots() + k ==> could_be_born(
                    h.plan,
                    h1.minds[j],
                    ground(w1, j),
                    gathering,
                )
        }),
    decreases k,
{
    if k > 0 {
        refilling_adds_slots(h, w, gathering, k - 1);
        let (h0, w0) = refilled(h, w, gathering, k - 1);
        let (h1, w1) = refilled(h, w, gathering, k);
        a_replacement_appears_inside(h0, w0, gathering);
        let id = w0.slots() as u32;
        assert(!w0.live.contains(id));
        assert(w1.live == w0.live.insert(id));
        assert forall|j: int|
            #![trigger h1.minds[j]]
            #![trigger ground(w1, j)]
            0 <= j < w.slots() implies h1.minds[j] == h.minds[j] && ground(w1, j) == ground(w, j) by {
            assert(h0.minds[j] == h.minds[j]);
            assert(h1.minds[j] == h0.minds[j]);
            assert(ground(w1, j) == ground(w0, j));
        }
        assert forall|j: int|
            #![trigger h1.minds[j]]
            #![trigger ground(w1, j)]
            w.slots() <= j < w.slots() + k implies could_be_born(
            h.plan,
            h1.minds[j],
            ground(w1, j),
            gathering,
        ) by {
            if j < w.slots() + k - 1 {
                assert(h1.minds[j] == h0.minds[j]);
                assert(ground(w1, j) == ground(w0, j));
            }
        }
        assert forall|j: int| 0 <= j < w.slots() implies #[trigger] w1.zs[j] == w.zs[j] by {
            assert(w0.zs[j] == w.zs[j]);
        }
    }
}

/// The dead are named once each, in order of id, and were alive.
pub(crate) proof fn the_dying_are_distinct(h: HerdState, w: RegionState, k: int)
    requires
        0 <= k <= u32::MAX,
    ensures
        dying(h, w, k).len() <= k,
        forall|a: int|
            0 <= a < dying(h, w, k).len() ==> (#[trigger] dying(h, w, k)[a]) < k && w.live.contains(
                dying(h, w, k)[a],
            ),
        forall|a: int, b: int|
            0 <= a < b < dying(h, w, k).len() ==> #[trigger] dying(h, w, k)[a] < #[trigger] dying(
                h,
                w,
                k,
            )[b],
    decreases k,
{
    if k > 0 {
        the_dying_are_distinct(h, w, k - 1);
    }
}

/// Burying takes those that die from the living, and no one else.
proof fn burying_takes_the_dying(h: HerdState, w: RegionState)
    requires
        w.wf(),
        h.deaths + w.slots() <= u64::MAX,
    ensures
        ({
            let dead = dying(h, w, w.slots() as int);
            let (h1, w1) = buried(h, w, dead);
            &&& h1 == (HerdState { deaths: h1.deaths, ..h })
            &&& h1.deaths == h.deaths + dead.len()
            &&& w1 == (RegionState { live: w1.live, gone: w.gone + dead, ..w })
            &&& w1.wf()
            &&& w1.live.len() == w.live.len() - dead.len()
            &&& forall|id: u32| #[trigger]
                w1.live.contains(id) <==> w.live.contains(id) && !is_dying(h, w, id as int)
        }),
{
    let n = w.slots() as int;
    let dead = dying(h, w, n);
    the_dying_are_distinct(h, w, n);
    the_dying_are_those_that_die(h, w, n);
    let (h1, w1) = buried(h, w, dead);
    let gone = dead.to_set();
    vstd::seq_lib::seq_to_set_is_finite(dead);
    assert(dead.no_duplicates());
    dead.unique_seq_to_set();
    assert(gone.disjoint(w1.live));
    assert(gone + w1.live =~= w.live);
    vstd::set_lib::lemma_set_disjoint_lens(gone, w1.live);
    assert forall|id: u32| #[trigger]
        w1.live.contains(id) <==> w.live.contains(id) && !is_dying(h, w, id as int) by {
        assert(dead.contains(id) <==> id < n && is_dying(h, w, id as int));
    }
}

/// An id is among the dead when the entity dies.
pub(crate) proof fn the_dying_are_those_that_die(h: HerdState, w: RegionState, k: int)
    requires
        0 <= k <= u32::MAX,
    ensures
        forall|id: u32| #[trigger]
            dying(h, w, k).contains(id) <==> id < k && is_dying(h, w, id as int),
    decreases k,
{
    if k > 0 {
        the_dying_are_those_that_die(h, w, k - 1);
        let rest = dying(h, w, k - 1);
        let all = dying(h, w, k);
        assert forall|id: u32| #[trigger]
            all.contains(id) <==> id < k && is_dying(h, w, id as int) by {
            if is_dying(h, w, k - 1) {
                let last = (k - 1) as u32;
                assert(all == rest.push(last));
                assert(all[rest.len() as int] == last);
                if rest.contains(id) {
                    let a = choose|a: int| 0 <= a < rest.len() && rest[a] == id;
                    assert(all[a] == id);
                }
            }
        }
    }
}

/// A tick in parts: what a herd and its region are once everything has moved, and
/// what is left of that when the tick ends.
pub(crate) proof fn a_tick_in_parts(h: HerdState, w: RegionState)
    requires
        can_run(h, w),
    ensures
        ({
            let (h1, w1) = moved(h, w);
            let h2 = suffered(h1, w1);
            let (h3, w3) = survived(h, w);
            let (h4, w4) = stepped(h, w);
            let died = dying(h2, w1, w.slots() as int).len();
            let more = missing(h3, w3);
            &&& h1.moved_on_from(h)
            &&& h1.minds.len() == w.slots()
            &&& same_but_ground(w, w1)
            &&& h2 == (HerdState { minds: h2.minds, occupancy: h2.occupancy, ..h1 })
            &&& h2.minds.len() == w.slots()
            &&& h4.plan == h.plan
            &&& h4.world == h.world
            &&& h4.target == h.target
            &&& h4.lifespan == h.lifespan
            &&& h4.damage_divisor == h.damage_divisor
            &&& h4.occupancy == h2.occupancy
            &&& h4.pending == h.pending
            &&& h4.deaths == h.deaths + died
            &&& 0 <= more <= MAX_SPAWNS_PER_TICK
            &&& h4.births == h.births + more
            &&& h4.minds.len() == w4.slots() == w.slots() + more
            &&& w4.ys.len() == w4.zs.len() == w4.slots()
            &&& w4.gone == w.gone + dying(h2, w1, w.slots() as int)
            &&& w4.tick == w.tick
            &&& w4.live.finite()
            &&& w3.live.len() == w.live.len() - died
            &&& w4.live.len() == w3.live.len() + more
            &&& forall|id: u32| #[trigger]
                w4.live.contains(id) <==> (w.live.contains(id) && !is_dying(h2, w1, id as int))
                    || w.slots() <= id < w.slots() + more
            &&& forall|j: int|
                #![trigger h4.minds[j]]
                #![trigger ground(w4, j)]
                0 <= j < w.slots() ==> {
                    &&& h4.minds[j] == h2.minds[j]
                    &&& h4.minds[j] == (Mind { health: h4.minds[j].health, ..h1.minds[j] })
                    &&& w.live.contains(j as u32) || h4.minds[j] == h1.minds[j]
                    &&& ground(w4, j) == ground(w1, j)
                }
            &&& forall|j: int| 0 <= j < w.slots() ==> #[trigger] w4.zs[j] == w.zs[j]
            &&& forall|j: int|
                #![trigger h4.minds[j]]
                #![trigger ground(w4, j)]
                w.slots() <= j < w4.slots() ==> could_be_born(
                    h.plan,
                    h4.minds[j],
                    ground(w4, j),
                    is_gathering(w.tick as int, phase_ticks(h)),
                )
        }),
{
    let (h1, w1) = moved(h, w);
    let h2 = suffered(h1, w1);
    let (h3, w3) = survived(h, w);
    let (h4, w4) = stepped(h, w);
    let gathering = is_gathering(w.tick as int, phase_ticks(h));
    let more = missing(h3, w3);
    moving_changes_little(h, w);
    burying_takes_the_dying(h2, w1);
    refilling_adds_slots(h3, w3, gathering, more);
    assert forall|j: int|
        #![trigger h4.minds[j]]
        #![trigger ground(w4, j)]
        0 <= j < w.slots() implies {
        &&& h4.minds[j] == h2.minds[j]
        &&& h4.minds[j] == (Mind { health: h4.minds[j].health, ..h1.minds[j] })
        &&& w.live.contains(j as u32) || h4.minds[j] == h1.minds[j]
        &&& ground(w4, j) == ground(w1, j)
    } by {
        assert(h4.minds[j] == h3.minds[j]);
        assert(h3.minds[j] == h2.minds[j]);
        assert(ground(w4, j) == ground(w3, j));
        assert(ground(w3, j) == ground(w1, j));
    }
}

/// What an entity is never changes: whose it is, how fast it goes, where it
/// belongs and when it dies. A resident keeps its home for the whole run.
pub proof fn natures_never_change(h: HerdState, w: RegionState)
    requires
        can_run(h, w),
    ensures
        forall|i: int|
            0 <= i < h.minds.len() ==> (#[trigger] stepped(h, w).0.minds[i]).same_nature(h.minds[i]),
{
    let (h1, w1) = moved(h, w);
    let (h4, w4) = stepped(h, w);
    let a = adopted(h, w.slots() as int);
    let gathering = is_gathering(w.tick as int, phase_ticks(h));
    adopting_keeps_wf(h, w.slots() as int);
    moving_changes_little(h, w);
    a_tick_in_parts(h, w);
    assert forall|i: int| 0 <= i < h.minds.len() implies (#[trigger] h4.minds[i]).same_nature(
        h.minds[i],
    ) by {
        assert(a.minds[i] == h.minds[i]);
        assert(h1.minds[i] == h1.minds[i]);
        if w.live.contains(i as u32) {
            moving_keeps_nature(h.plan, a.minds[i], ground(w, i), gathering, h1.minds[i], ground(w1, i));
        }
    }
}

/// Moving does not change what an entity is.
pub(crate) proof fn moving_keeps_nature(plan: Plan, m: Mind, at: Pos2, gathering: bool, n: Mind, to: Pos2)
    requires
        moves_to(plan, m, at, gathering, n, to),
    ensures
        n.same_nature(m),
        !m.mine ==> n == m,
        !m.mine || m.speed == 0 ==> to == at && n == (Mind { health: n.health, ..m }),
{
    let (health, stood) = choose|health: i16, stood: Pos2|
        {
            &&& #[trigger] strides_to(plan, m, at, gathering, Mind { health, ..n }, stood)
            &&& n.health == health || (n.health == i16::MIN && m.mine)
            &&& to == stood || (m.mine && m.speed > 0 && plan.holds(to))
        };
    let s = choose|s: u64|
        (#[trigger] strode(plan, m, at, gathering, s)).0 == (Mind { health, ..n }) && strode(
            plan,
            m,
            at,
            gathering,
            s,
        ).1 == stood;
    striding_keeps_nature(plan, m, at, gathering, s);
    reveal(strode);
}

/// An entity that this game did not create, or that never moves, or that is
/// dead, is left where it stands, and no entity changes height.
pub proof fn the_rest_are_left_where_they_stand(h: HerdState, w: RegionState, i: int)
    requires
        can_run(h, w),
        0 <= i < w.slots(),
        i >= h.minds.len() || !moves(h, w, i),
    ensures
        ground(stepped(h, w).1, i) == ground(w, i),
        stepped(h, w).1.zs[i] == w.zs[i],
{
    let (h1, w1) = moved(h, w);
    let (h4, w4) = stepped(h, w);
    let a = adopted(h, w.slots() as int);
    let gathering = is_gathering(w.tick as int, phase_ticks(h));
    adopting_keeps_wf(h, w.slots() as int);
    moving_changes_little(h, w);
    a_tick_in_parts(h, w);
    assert(a.minds[i].wf());
    assert(h4.minds[i] == h4.minds[i]);
    assert(ground(w4, i) == ground(w1, i));
    assert(w4.zs[i] == w.zs[i]);
    if w.live.contains(i as u32) {
        moving_keeps_nature(h.plan, a.minds[i], ground(w, i), gathering, h1.minds[i], ground(w1, i));
    }
}

/// A stranger is left alone by all but its crowd: nothing the game keeps of it
/// changes but its health.
pub proof fn a_stranger_changes_only_in_health(h: HerdState, w: RegionState, i: int)
    requires
        can_run(h, w),
        0 <= i < w.slots(),
        i < h.minds.len() ==> !h.minds[i].mine,
    ensures
        ({
            let before = if i < h.minds.len() {
                h.minds[i]
            } else {
                stranger()
            };
            let after = stepped(h, w).0.minds[i];
            after == (Mind { health: after.health, ..before })
        }),
{
    let (h1, w1) = moved(h, w);
    let (h4, w4) = stepped(h, w);
    let a = adopted(h, w.slots() as int);
    let gathering = is_gathering(w.tick as int, phase_ticks(h));
    adopting_keeps_wf(h, w.slots() as int);
    moving_changes_little(h, w);
    a_tick_in_parts(h, w);
    assert(a.minds[i] == if i < h.minds.len() {
        h.minds[i]
    } else {
        stranger()
    });
    assert(h4.minds[i] == h4.minds[i]);
    assert(h1.minds[i] == h1.minds[i]);
    if w.live.contains(i as u32) {
        moving_keeps_nature(h.plan, a.minds[i], ground(w, i), gathering, h1.minds[i], ground(w1, i));
    }
}

/// One tick of flapping moves an entity by one step, along one axis, and turns it.
proof fn a_flap_steps_and_turns(h: HerdState, w: RegionState, i: int)
    requires
        can_run(h, w),
        h.plan.pattern == Pattern::Flap,
        0 <= i < h.minds.len(),
        moves(h, w, i),
    ensures
        ({
            let (h1, w1) = stepped(h, w);
            let m = h.minds[i];
            let step = if m.phase_at {
                m.speed as int
            } else {
                -m.speed
            };
            &&& ground(w1, i) == (Pos2 { x: (w.xs[i] + step) as i32, y: w.ys[i] })
            &&& h1.minds[i].phase_at == !m.phase_at
            &&& h1.minds[i].same_nature(m)
            &&& h1.plan == h.plan
            &&& h1.minds.len() >= h.minds.len()
        }),
{
    let gathering = is_gathering(w.tick as int, phase_ticks(h));
    let a = adopted(h, w.slots() as int);
    let (h1, w1) = moved(h, w);
    let (h4, w4) = stepped(h, w);
    adopting_keeps_wf(h, w.slots() as int);
    walking_is_striding(a, w, gathering, w.slots() as int);
    a_tick_in_parts(h, w);
    natures_never_change(h, w);
    assert(a.minds[i] == h.minds[i]);
    assert(h4.minds[i] == (Mind { health: h4.minds[i].health, ..h1.minds[i] }));
    assert(ground(w4, i) == ground(w1, i));
    assert(strides_to(h.plan, h.minds[i], ground(w, i), gathering, h1.minds[i], ground(w1, i)));
    reveal(strode);
}

/// Flapping comes back: of two ticks, one after the other, the first moves an entity
/// by a step along the first axis and turns it, whatever the world is doing, and the
/// second undoes both. Between them nothing but the game has moved it.
pub proof fn flapping_comes_back(h: HerdState, w: RegionState, v: RegionState, i: int)
    requires
        can_run(h, w),
        h.plan.pattern == Pattern::Flap,
        0 <= i < h.minds.len(),
        moves(h, w, i),
        in_reach(ground(w, i)),
        can_run(stepped(h, w).0, v),
        v.live.contains(i as u32),
        ground(v, i) == ground(stepped(h, w).1, i),
    ensures
        ({
            let (h1, w1) = stepped(h, w);
            let (h2, w2) = stepped(h1, v);
            let m = h.minds[i];
            &&& w1.xs[i] == w.xs[i] + if m.phase_at {
                m.speed as int
            } else {
                -m.speed
            }
            &&& w1.ys[i] == w.ys[i]
            &&& h1.minds[i].phase_at == !m.phase_at
            &&& ground(w2, i) == ground(w, i)
            &&& h2.minds[i].phase_at == m.phase_at
        }),
{
    let (h1, w1) = stepped(h, w);
    assert(h.minds[i].wf());
    a_flap_steps_and_turns(h, w, i);
    a_flap_steps_and_turns(h1, v, i);
    assert(ground(w1, i).x == w1.xs[i] && ground(v, i).x == v.xs[i]);
}

/// A phase reaches everyone at once: whatever moves has chosen its destination
/// under the phase that is running. Flapping takes no notice of phases.
pub proof fn a_phase_reaches_everyone(h: HerdState, w: RegionState, i: int)
    requires
        can_run(h, w),
        0 <= i < h.minds.len(),
        moves(h, w, i),
        h.plan.pattern != Pattern::Flap,
    ensures
        stepped(h, w).0.minds[i].phase_at == is_gathering(w.tick as int, phase_ticks(h)),
{
    let (h1, w1) = moved(h, w);
    let (h4, w4) = stepped(h, w);
    let gathering = is_gathering(w.tick as int, phase_ticks(h));
    let a = adopted(h, w.slots() as int);
    adopting_keeps_wf(h, w.slots() as int);
    moving_changes_little(h, w);
    a_tick_in_parts(h, w);
    assert(a.minds[i] == h.minds[i]);
    assert(h4.minds[i] == (Mind { health: h4.minds[i].health, ..h1.minds[i] }));
    moving_notices_the_phase(
        h.plan,
        h.minds[i],
        ground(w, i),
        gathering,
        h1.minds[i],
        ground(w1, i),
    );
}

/// Whatever moves takes its destination under the phase that is running, unless
/// it flaps.
proof fn moving_notices_the_phase(
    plan: Plan,
    m: Mind,
    at: Pos2,
    gathering: bool,
    n: Mind,
    to: Pos2,
)
    requires
        moves_to(plan, m, at, gathering, n, to),
        m.mine,
        m.speed > 0,
        plan.pattern != Pattern::Flap,
    ensures
        n.phase_at == gathering,
{
    let (health, stood) = choose|health: i16, stood: Pos2|
        {
            &&& #[trigger] strides_to(plan, m, at, gathering, Mind { health, ..n }, stood)
            &&& n.health == health || (n.health == i16::MIN && m.mine)
            &&& to == stood || (m.mine && m.speed > 0 && plan.holds(to))
        };
    assert(strides_to(plan, m, at, gathering, Mind { health, ..n }, stood));
    reveal(strode);
    reveal(retargeted);
}

/// Slots are never taken away and never reused: what is dead stays dead.
pub proof fn the_dead_stay_dead(h: HerdState, w: RegionState, id: u32)
    requires
        can_run(h, w),
        id < w.slots(),
        !w.live.contains(id),
    ensures
        stepped(h, w).1.slots() >= w.slots(),
        !stepped(h, w).1.live.contains(id),
{
    a_tick_in_parts(h, w);
}

/// The population adds up: who was alive, less who died, plus who was born. The
/// dead and the born are counted. No tick brings back more than it may, and none
/// brings the region above its target.
pub proof fn the_population_adds_up(h: HerdState, w: RegionState)
    requires
        can_run(h, w),
    ensures
        ({
            let (h1, w1) = stepped(h, w);
            let died = h1.deaths - h.deaths;
            let arrived = h1.births - h.births;
            let left = w.live.len() - died;
            &&& died >= 0
            &&& w1.gone.len() == w.gone.len() + died
            &&& 0 <= arrived <= MAX_SPAWNS_PER_TICK
            &&& w1.slots() == w.slots() + arrived
            &&& w1.live.len() == left + arrived
            &&& if left >= h.target {
                arrived == 0
            } else if h.target - left <= MAX_SPAWNS_PER_TICK {
                w1.live.len() == h.target
            } else {
                arrived == MAX_SPAWNS_PER_TICK
            }
        }),
{
    a_tick_in_parts(h, w);
}

/// An entity dies of crowding or of age, and of nothing else: it is alive after a
/// tick unless its health has run out or its time has come.
pub proof fn nothing_dies_of_anything_else(h: HerdState, w: RegionState, id: u32)
    requires
        can_run(h, w),
        id < w.slots(),
    ensures
        stepped(h, w).1.live.contains(id) <==> {
            let after = stepped(h, w).0.minds[id as int];
            w.live.contains(id) && after.health > 0 && w.tick < after.dies_at
        },
{
    let (h4, w4) = stepped(h, w);
    a_tick_in_parts(h, w);
    assert(h4.minds[id as int] == h4.minds[id as int]);
}

/// A culled entity dies in the tick that culls it. Nothing a crowd does to its
/// health pulls it back.
pub proof fn the_culled_do_not_recover(h: HerdState, w: RegionState, id: u32)
    requires
        can_run(h, w),
        id < w.slots(),
        moved(h, w).0.minds[id as int].health == i16::MIN,
    ensures
        !stepped(h, w).1.live.contains(id),
{
    let (h1, w1) = moved(h, w);
    let h2 = suffered(h1, w1);
    a_tick_in_parts(h, w);
    let c = counted(h1, w1);
    assert(c.minds == h1.minds);
    assert(REGEN == 5);
    assert(w.live.contains(id) ==> h2.minds[id as int].health <= 0);
}

/// Recovery never takes an entity past full health, and a crowd that hurts never
/// heals.
pub proof fn health_stays_below_full(health: i16, crowd: int, threshold: int, divisor: int)
    requires
        health <= HEALTH_MAX,
        0 <= crowd,
        0 <= threshold,
        0 < divisor,
    ensures
        health_after(health, crowd, threshold, divisor) <= HEALTH_MAX,
        crowd > threshold ==> health_after(health, crowd, threshold, divisor) <= health,
        crowd <= threshold && health < HEALTH_MAX ==> health_after(
            health,
            crowd,
            threshold,
            divisor,
        ) > health,
{
    if crowd > threshold {
        assert((crowd - threshold) / divisor >= 0) by (nonlinear_arith)
            requires
                crowd > threshold,
                divisor > 0,
        ;
    }
}

/// Spawning a population appends it.
proof fn landing_appends(w: RegionState, pending: Seq<Pos3>, k: int)
    requires
        w.wf(),
        0 <= k <= pending.len(),
        w.slots() + pending.len() <= u32::MAX,
    ensures
        ({
            let v = landed(w, pending, k);
            &&& v.slots() == w.slots() + k
            &&& v.ys.len() == v.slots()
            &&& v.zs.len() == v.slots()
            &&& v.gone == w.gone
            &&& v.tick == w.tick
            &&& v.live.finite()
            &&& forall|id: u32| #[trigger]
                v.live.contains(id) <==> w.live.contains(id) || w.slots() <= id < w.slots() + k
            &&& forall|j: int|
                #![trigger pending[j]]
                #![trigger ground(v, w.slots() + j)]
                0 <= j < k ==> {
                    &&& ground(v, w.slots() + j) == (Pos2 { x: pending[j].x, y: pending[j].y })
                    &&& v.zs[w.slots() + j] == pending[j].z
                }
        }),
    decreases k,
{
    if k > 0 {
        landing_appends(w, pending, k - 1);
        let u = landed(w, pending, k - 1);
        let v = landed(w, pending, k);
        assert forall|j: int|
            #![trigger pending[j]]
            #![trigger ground(v, w.slots() + j)]
            0 <= j < k implies {
            &&& ground(v, w.slots() + j) == (Pos2 { x: pending[j].x, y: pending[j].y })
            &&& v.zs[w.slots() + j] == pending[j].z
        } by {
            if j < k - 1 {
                assert(ground(u, w.slots() + j) == (Pos2 { x: pending[j].x, y: pending[j].y }));
            }
        }
    }
}

/// The first tick lands the population: each entity gets the id of its place in
/// it, from zero, and stands alive where it was put. Nothing else happens.
pub proof fn a_population_lands_in_order(h: HerdState, w: RegionState)
    requires
        can_land(h, w),
    ensures
        ({
            let (h1, w1) = stepped(h, w);
            &&& h1 == (HerdState { pending: Seq::empty(), ..h })
            &&& w1.wf()
            &&& w1.slots() == h.pending.len()
            &&& w1.gone == w.gone
            &&& w1.tick == w.tick
            &&& forall|id: u32| #[trigger] w1.live.contains(id) <==> id < h.pending.len()
            &&& forall|i: int|
                #![trigger h.pending[i]]
                #![trigger ground(w1, i)]
                0 <= i < h.pending.len() ==> {
                    &&& ground(w1, i) == (Pos2 { x: h.pending[i].x, y: h.pending[i].y })
                    &&& w1.zs[i] == h.pending[i].z
                }
        }),
{
    let n = h.pending.len() as int;
    let w1 = stepped(h, w).1;
    landing_appends(w, h.pending, n);
    assert forall|i: int|
        #![trigger h.pending[i]]
        #![trigger ground(w1, i)]
        0 <= i < h.pending.len() implies {
        &&& ground(w1, i) == (Pos2 { x: h.pending[i].x, y: h.pending[i].y })
        &&& w1.zs[i] == h.pending[i].z
    } by {
        assert(ground(w1, w.slots() + i) == (Pos2 { x: h.pending[i].x, y: h.pending[i].y }));
    }
}

/// Whether each entity of a waiting population could have been born where it
/// waits, while the world gathers.
pub open spec fn is_poised(h: HerdState) -> bool {
    &&& h.pending.len() == h.minds.len()
    &&& forall|i: int|
        0 <= i < h.minds.len() ==> could_be_born(
            h.plan,
            #[trigger] h.minds[i],
            Pos2 { x: h.pending[i].x, y: h.pending[i].y },
            true,
        )
}

/// One more entity is poised where it waits, and dies within one lifespan.
proof fn a_founder_is_poised(h: HerdState)
    requires
        h.plan.wf(),
        h.lifespan > 0,
    ensures
        ({
            let h1 = founded_one(h);
            let m = h1.minds.last();
            let p = h1.pending.last();
            &&& could_be_born(h.plan, m, Pos2 { x: p.x, y: p.y }, true)
            &&& 1 <= m.dies_at <= h.lifespan
        }),
{
    let hz = h.plan.hz;
    let class = class_of(drawn(h.rng, 100));
    let speed = starting_speed(h.plan, class);
    let per_second = class.0 * 1024 + class.1 * 1024 / 1000;
    a_share_fits(per_second, hz);
    a_share_fits(FLASH_SPEED * 1024, hz);
    a_share_fits(THRASH_SPEED * 1024, hz);
    assert(0 <= speed * hz <= 2_048_000 && 0 <= speed <= MAX_STRIDE) by {
        assert(FLAP_M * 1024 * hz <= 2_048_000);
    }
    assert(speed * (60 * hz) == 60 * (speed * hz)) by (nonlinear_arith);
    assert(speed * (HORIZON_S * hz) == 60 * (speed * hz));
    let (home, near, s) = placed(h.plan, speed, h.plan.pattern != Pattern::Herd, scramble(h.rng));
    let at = footing(h.plan, h.world, speed, near);
    assert(h.plan.holds(at)) by {
        assert forall|k: int| 0 <= k < ATTRACTORS implies h.plan.holds(
            #[trigger] h.plan.attractors[k],
        ) by {}
    }
    let t = scramble(s);
    let dies_at = (1 + drawn(t, h.lifespan as int)) as u32;
    let young = newborn(h.plan, speed, home, Pos2 { x: 0, y: 0 }, true, dies_at);
    assert(founded_one(h).minds.last() == retargeted(h.plan, young, at, true, scramble(t)).0);
    striding_keeps_nature(h.plan, young, at, true, scramble(t));
}

/// Adding entities to a waiting population keeps it poised.
proof fn founding_keeps_poise(h: HerdState, k: int)
    requires
        h.plan.wf(),
        h.lifespan > 0 || k == 0,
        h.minds.len() == 0,
        h.pending.len() == 0,
        0 <= k,
    ensures
        founded(h, k).plan == h.plan,
        founded(h, k).lifespan == h.lifespan,
        founded(h, k).minds.len() == k,
        is_poised(founded(h, k)),
        forall|i: int|
            0 <= i < k ==> 1 <= (#[trigger] founded(h, k).minds[i]).dies_at <= h.lifespan,
    decreases k,
{
    if k > 0 {
        founding_keeps_poise(h, k - 1);
        let h0 = founded(h, k - 1);
        let h1 = founded(h, k);
        a_founder_is_poised(h0);
        assert forall|i: int| 0 <= i < h1.minds.len() implies could_be_born(
            h1.plan,
            #[trigger] h1.minds[i],
            Pos2 { x: h1.pending[i].x, y: h1.pending[i].y },
            true,
        ) by {
            if i < k - 1 {
                assert(h1.minds[i] == h0.minds[i]);
                assert(h1.pending[i] == h0.pending[i]);
            }
        }
        assert forall|i: int| 0 <= i < k implies 1 <= (#[trigger] h1.minds[i]).dies_at
            <= h.lifespan by {
            if i < k - 1 {
                assert(h1.minds[i] == h0.minds[i]);
            }
        }
    }
}

/// A run starts with its whole population waiting, each entity poised where it
/// will stand, and with ages spread over one lifespan.
pub proof fn a_run_starts_poised(
    world: World,
    n: usize,
    seed: u64,
    lifespan: u32,
    pattern: Pattern,
)
    requires
        world.wf(),
        world.region_size >= 2 * MARGIN_M * 1024,
        lifespan > 0 || n == 0,
    ensures
        founding(world, n, seed, lifespan, pattern).minds.len() == n,
        is_poised(founding(world, n, seed, lifespan, pattern)),
        forall|i: int|
            0 <= i < n ==> 1 <= (#[trigger] founding(
                world,
                n,
                seed,
                lifespan,
                pattern,
            ).minds[i]).dies_at <= lifespan,
{
    let empty = unfounded(world, n, seed, lifespan, pattern);
    let lo = MARGIN_M * 1024;
    let bare = Plan {
        attractors: Seq::empty(),
        pattern,
        lo,
        hi: world.region_size - lo,
        hz: world.tick_hz as int,
    };
    rates_fit(world.tick_hz as int);
    attractors_are_inside(bare, seeded(seed), ATTRACTORS as int);
    assert forall|k: int| 0 <= k < ATTRACTORS implies empty.plan.holds(
        #[trigger] empty.plan.attractors[k],
    ) by {
        assert(bare.holds(scattered(bare, seeded(seed), ATTRACTORS as int).0[k]));
    }
    founding_keeps_poise(empty, n as int);
}

/// An attractor is between the margins.
proof fn attractors_are_inside(plan: Plan, s: u64, k: int)
    requires
        0 <= plan.lo <= plan.hi <= 0x4000_0000,
        0 <= k,
    ensures
        scattered(plan, s, k).0.len() == k,
        forall|j: int| 0 <= j < k ==> plan.holds(#[trigger] scattered(plan, s, k).0[j]),
    decreases k,
{
    if k > 0 {
        attractors_are_inside(plan, s, k - 1);
        let (rest, t) = scattered(plan, s, k - 1);
        let all = scattered(plan, s, k).0;
        assert forall|j: int| 0 <= j < k implies plan.holds(#[trigger] all[j]) by {
            if j < k - 1 {
                assert(all[j] == rest[j]);
            }
        }
    }
}

/// A replacement lives for half a lifespan to one and a half, unless the clock
/// runs out first.
pub proof fn a_replacement_lives_about_a_lifespan(h: HerdState, w: RegionState, gathering: bool)
    requires
        0 < h.lifespan,
        w.tick + h.lifespan + h.lifespan / 2 <= u32::MAX,
    ensures
        ({
            let m = born(h, w, gathering).0.minds.last();
            w.tick + h.lifespan / 2 + 1 <= m.dies_at <= w.tick + h.lifespan + h.lifespan / 2
        }),
{
    let speed = class_speed(class_of(drawn(h.rng, 100)), h.plan.hz);
    let (home, at, s) = placed(h.plan, speed, false, scramble(h.rng));
    let t = scramble(s);
    let dies_at = (w.tick + h.lifespan as int / 2 + 1 + drawn(t, h.lifespan as int))
        % 0x1_0000_0000;
    let young = newborn(h.plan, speed, home, at, gathering, dies_at as u32);
    striding_keeps_nature(h.plan, young, at, gathering, scramble(t));
}

/// A flapping entity that a run starts with stands a meter inside its cell, and a
/// step takes it across the boundary: the two places it steps between are in
/// different cells. The last column has no boundary to cross.
pub proof fn flapping_crosses_a_boundary(plan: Plan, world: World, at: Pos2)
    requires
        world.wf(),
        plan.wf(),
        plan.pattern == Pattern::Flap,
        plan.lo == MARGIN_M * 1024,
        plan.hi == world.region_size - plan.lo,
        plan.holds(at),
        world.cell_size > 2 * plan.lo,
        world.axis_cell(at.x as int) < world.cells_per_axis - 1,
    ensures
        ({
            let p = footing(plan, world, FLAP_M * 1024, at);
            &&& world.axis_cell(p.x as int) == world.axis_cell(at.x as int)
            &&& world.axis_cell(p.x + FLAP_M * 1024) == world.axis_cell(p.x as int) + 1
        }),
{
    let size = world.cell_size as int;
    let n = world.cells_per_axis as int;
    let q = at.x as int / size;
    let edge = (q + 1) * size;
    assert(0 <= q && q * size <= at.x < edge) by (nonlinear_arith)
        requires
            q == at.x as int / size,
            edge == (q + 1) * size,
            0 <= at.x,
            size > 0,
    ;
    assert(q < n - 1);
    assert(size <= edge <= size * (n - 1)) by (nonlinear_arith)
        requires
            edge == (q + 1) * size,
            0 <= q < n - 1,
            size > 0,
    ;
    assert(size * (n - 1) == size * n - size) by (nonlinear_arith);
    assert((edge - 1024) / size == q && (edge + 1024) / size == q + 1) by (nonlinear_arith)
        requires
            edge == (q + 1) * size,
            size > 16384,
    ;
}

/// No cell holds more than there are.
pub(crate) proof fn headcount_fits(world: World, w: RegionState, c: int, k: int)
    requires
        0 <= k,
    ensures
        0 <= headcount(world, w, c, k) <= k,
    decreases k,
{
    if k > 0 {
        headcount_fits(world, w, c, k - 1);
    }
}

/// How many stand in the first `cells` cells.
pub open spec fn crowded(occupancy: Seq<u32>, cells: int) -> int
    decreases cells,
{
    if cells <= 0 {
        0
    } else {
        crowded(occupancy, cells - 1) + occupancy[cells - 1]
    }
}

/// The first `cells` cells, counted over the first `k` entities.
spec fn headcounts(world: World, w: RegionState, k: int, cells: int) -> int
    decreases cells,
{
    if cells <= 0 {
        0
    } else {
        headcounts(world, w, k, cells - 1) + headcount(world, w, cells - 1, k)
    }
}

/// One live entity more is one more in one cell.
proof fn each_is_counted_once(world: World, w: RegionState, k: int, cells: int)
    requires
        0 < k,
        0 <= cells,
    ensures
        headcounts(world, w, k, cells) == headcounts(world, w, k - 1, cells) + if w.live.contains(
            (k - 1) as u32,
        ) && 0 <= world.cell_at(w.xs[k - 1] as int, w.ys[k - 1] as int) < cells {
            1int
        } else {
            0
        },
    decreases cells,
{
    if cells > 0 {
        each_is_counted_once(world, w, k, cells - 1);
    }
}

/// A population of none fills no cell.
proof fn no_one_is_nowhere(world: World, w: RegionState, cells: int)
    ensures
        headcounts(world, w, 0, cells) == 0,
    decreases cells,
{
    if cells > 0 {
        no_one_is_nowhere(world, w, cells - 1);
    }
}

/// The cells hold each of the first `k` entities that is alive, once.
proof fn the_cells_hold_the_first(world: World, w: RegionState, k: int)
    requires
        world.wf(),
        w.wf(),
        0 <= k <= w.slots(),
    ensures
        w.live.filter(|id: u32| id < k).finite(),
        headcounts(world, w, k, world.cells_per_region as int) == w.live.filter(
            |id: u32| id < k,
        ).len(),
    decreases k,
{
    let all = w.live.filter(|id: u32| id < k);
    w.live.lemma_len_filter(|id: u32| id < k);
    if k == 0 {
        no_one_is_nowhere(world, w, world.cells_per_region as int);
        assert(all =~= Set::empty());
    } else {
        the_cells_hold_the_first(world, w, k - 1);
        each_is_counted_once(world, w, k, world.cells_per_region as int);
        cells_are_in_the_region(world, w.xs[k - 1] as int, w.ys[k - 1] as int);
        let rest = w.live.filter(|id: u32| id < k - 1);
        let last = (k - 1) as u32;
        if w.live.contains(last) {
            assert(all =~= rest.insert(last));
        } else {
            assert(all =~= rest);
        }
    }
}

/// After a tick the cells hold everyone who was alive when they were counted,
/// once each.
pub proof fn the_cells_hold_everyone(h: HerdState, w: RegionState)
    requires
        can_run(h, w),
    ensures
        crowded(stepped(h, w).0.occupancy, h.world.cells_per_region as int) == w.live.len(),
{
    let (h1, w1) = moved(h, w);
    let (h4, w4) = stepped(h, w);
    let cells = h.world.cells_per_region as int;
    a_tick_in_parts(h, w);
    the_cells_hold_the_first(h.world, w1, w.slots() as int);
    assert(w1.live.filter(|id: u32| id < w.slots()) =~= w.live);
    counts_are_headcounts(h1, w1, cells);
}

/// What is counted is the headcount.
proof fn counts_are_headcounts(h: HerdState, w: RegionState, cells: int)
    requires
        w.wf(),
        0 <= cells <= h.world.cells_per_region,
    ensures
        crowded(counted(h, w).occupancy, cells) == headcounts(
            h.world,
            w,
            w.slots() as int,
            cells,
        ),
    decreases cells,
{
    if cells > 0 {
        counts_are_headcounts(h, w, cells - 1);
        headcount_fits(h.world, w, cells - 1, w.slots() as int);
    }
}

} // verus!
