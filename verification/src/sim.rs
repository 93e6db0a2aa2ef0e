//! The herd of a region.
//!
//! The world alternates between gathering and dispersing, so residents crowd
//! into their home, spread back out around it, and crowd again. A crowded cell
//! hurts what stands in it, so a crowd thins from wherever it is densest, and a
//! spawner refills the region.

use vstd::prelude::*;

use crate::conduct::{headcount_fits, the_dying_are_distinct};
use crate::motion::{
    aimed, component_keeps_to_speed, dwell_of, gathering, in_reach, near, nearest, offset_of,
    pattern_dest_of, retargeted, scramble_twice, separation_fits, striding_keeps_nature, strode,
    Mind, Plan, ATTRACTORS, ATTRACTOR_RADIUS_M, ATTRACT_IN_16, DISPERSE_RADIUS_M, DWELL_MAX_S,
    DWELL_MIN_S, FLAP_M, FLASH_SPEED, HEALTH_MAX, HORIZON_S, MAX_HORIZON, MAX_STRIDE, PHASE_S,
    THRASH_FAR_M, THRASH_SPEED,
};
use crate::pattern::Pattern;
use crate::region::{Region, RegionState};
use crate::rng::{drawn, rng_in, scramble, seeded, Rng};
use crate::tick::{
    adopted, born, buried, can_hurt, can_start, can_step, class_of, class_speed, classes, counted, crowd_around, culled, dying,
    footing, founded, founded_one, founding, ground, headcount, health_after, hurt, jumped, landed,
    missing, moved, movers_in_reach, moves, placed, refilled, scattered, starting_speed, stepped, stranger,
    unfounded, walked, walked_one, HerdState, CROWD_THRESHOLD, CULL_IN_16, CULL_PERIOD_S,
    DAMAGE_DIVISOR, MARGIN_M, MAX_SPAWNS_PER_TICK, REGEN, SPAWN_AT_ATTRACTOR_IN_16,
    TELEPORT_PER_MILLE,
};
use crate::units::{
    a_share_fits, clamped, dist_sq, meters, millimeters, radius_sq, root_is_unique, separation,
    sqrt_approx, Pos2, Pos3,
};
use crate::world::{cell_index, rates_fit, World};

verus! {

/// The game of a region.
pub struct Herd {
    world: World,
    attractors: Vec<Pos2>,
    pattern: Pattern,
    lo: i32,
    hi: i32,
    tick_hz: i32,
    minds: Vec<Mind>,
    rng: Rng,
    pending: Vec<Pos3>,
    residents: Vec<u32>,
    occupancy: Vec<u32>,
    target: usize,
    lifespan: u32,
    crowd_threshold: usize,
    damage_divisor: usize,
    deaths: u64,
    births: u64,
}

impl View for Herd {
    type V = HerdState;

    closed spec fn view(&self) -> HerdState {
        HerdState {
            plan: Plan {
                attractors: self.attractors@,
                pattern: self.pattern,
                lo: self.lo as int,
                hi: self.hi as int,
                hz: self.tick_hz as int,
            },
            world: self.world,
            minds: self.minds@,
            rng: self.rng@,
            pending: self.pending@,
            residents: self.residents@,
            occupancy: self.occupancy@,
            target: self.target,
            lifespan: self.lifespan,
            crowd_threshold: self.crowd_threshold,
            damage_divisor: self.damage_divisor,
            deaths: self.deaths,
            births: self.births,
        }
    }
}

/// `v` held inside `lo..=hi`.
fn clamp(v: i32, lo: i32, hi: i32) -> (c: i32)
    requires
        lo <= hi,
    ensures
        c == clamped(v as int, lo as int, hi as int),
{
    if v < lo {
        lo
    } else if v > hi {
        hi
    } else {
        v
    }
}

/// A herd stays well-formed when one of its entities changes in its errand or
/// health alone.
proof fn a_change_keeps_wf(h: HerdState, i: int, m: Mind, rng: u64)
    requires
        h.wf(),
        0 <= i < h.minds.len(),
        m.wf(),
        m.same_nature(h.minds[i]),
    ensures
        h.with(i, m, rng).wf(),
{
    let after = h.with(i, m, rng);
    assert forall|j: int| 0 <= j < after.minds.len() implies (#[trigger] after.minds[j]).wf() by {
        if j != i {
            assert(h.minds[j].wf());
        }
    }
    assert forall|k: int| 0 <= k < after.residents.len() implies after.is_resident(
        #[trigger] after.residents[k] as int,
    ) by {
        assert(h.is_resident(h.residents[k] as int));
    }
}

impl Herd {
    /// A point within `radius` of `anchor`, held inside the region.
    fn offset(&mut self, anchor: Pos2, radius: i32) -> (p: Pos2)
        requires
            old(self)@.plan.wf(),
            in_reach(anchor),
            0 <= radius <= MAX_HORIZON,
        ensures
            p == offset_of(old(self)@.plan, anchor, radius as int, old(self)@.rng),
            final(self)@ == (HerdState { rng: scramble_twice(old(self)@.rng), ..old(self)@ }),
            old(self)@.plan.holds(p),
    {
        let x: i32 = clamp(anchor.x + self.rng.spread(radius), self.lo, self.hi);
        let y: i32 = clamp(anchor.y + self.rng.spread(radius), self.lo, self.hi);
        Pos2 { x, y }
    }

    /// Points an entity at a destination and builds the velocity that walks it
    /// there. One divide, paid on arrival rather than per tick.
    fn aim(&mut self, i: usize, at: Pos2, dest: Pos2)
        requires
            i < old(self)@.minds.len(),
            old(self)@.minds[i as int].wf(),
            in_reach(at),
            0 <= dest.x <= 0x4000_0000,
            0 <= dest.y <= 0x4000_0000,
        ensures
            final(self)@ == old(self)@.with(
                i as int,
                aimed(old(self)@.minds[i as int], at, dest),
                old(self)@.rng,
            ),
            aimed(old(self)@.minds[i as int], at, dest).wf(),
    {
        let mut m: Mind = self.minds[i];
        proof {
            separation_fits(at, dest);
        }
        let d: u64 = dist_sq(at, dest);
        let dist: i64 = sqrt_approx(d) as i64;
        let dx: i64 = (dest.x - at.x) as i64;
        let dy: i64 = (dest.y - at.y) as i64;
        proof {
            let sep = separation(at, dest);
            root_is_unique(dist as int, sep);
            assert(dx * dx + dy * dy == sep) by (nonlinear_arith)
                requires
                    dx == dest.x - at.x,
                    dy == dest.y - at.y,
                    sep == (at.x - dest.x) * (at.x - dest.x) + (at.y - dest.y) * (at.y - dest.y),
            ;
            assert(dx * dx >= 0) by (nonlinear_arith);
            assert(dy * dy >= 0) by (nonlinear_arith);
            component_keeps_to_speed(dx as int, m.speed as int, dist as int, sep);
            component_keeps_to_speed(dy as int, m.speed as int, dist as int, sep);
            assert(-0x8000_0000_0000 <= dx * m.speed <= 0x8000_0000_0000) by (nonlinear_arith)
                requires
                    -0x5000_0000 <= dx <= 0x5000_0000,
                    0 <= m.speed <= 61440,
            ;
            assert(-0x8000_0000_0000 <= dy * m.speed <= 0x8000_0000_0000) by (nonlinear_arith)
                requires
                    -0x5000_0000 <= dy <= 0x5000_0000,
                    0 <= m.speed <= 61440,
            ;
        }
        m.dest = dest;
        if dist == 0 {
            m.vel_x = 0;
            m.vel_y = 0;
        } else {
            m.vel_x = (dx * m.speed as i64 / dist) as i32;
            m.vel_y = (dy * m.speed as i64 / dist) as i32;
        }
        self.minds.set(i, m);
    }

    /// Where a hostile pattern sends an entity, or `None` for the plausible
    /// one, which has its own rules.
    fn pattern_dest(&mut self, i: usize, at: Pos2) -> (dest: Option<Pos2>)
        requires
            old(self)@.plan.wf(),
            i < old(self)@.minds.len(),
            old(self)@.minds[i as int].wf(),
            in_reach(at),
        ensures
            match pattern_dest_of(
                old(self)@.plan,
                old(self)@.minds[i as int],
                at,
                old(self)@.rng,
            ) {
                Some((d, t)) => {
                    &&& dest == Some(d)
                    &&& old(self)@.plan.holds(d)
                    &&& final(self)@ == old(self)@.with(
                        i as int,
                        Mind { dwell: 0, ..old(self)@.minds[i as int] },
                        t,
                    )
                },
                None => dest is None && final(self)@ == old(self)@,
            },
    {
        let mut m: Mind = self.minds[i];
        match self.pattern {
            // One cell, everyone, no dwell.
            Pattern::Flash => {
                m.dwell = 0;
                self.minds.set(i, m);
                let a: Pos2 = self.attractors[0];
                assert(old(self)@.plan.holds(old(self)@.plan.attractors[0]));
                Some(self.offset(a, meters(ATTRACTOR_RADIUS_M)))
            },
            // In to the attractor, then out past where a viewer standing in it
            // still holds a ghost, then back.
            Pattern::Thrash => {
                let home: usize = match m.home {
                    Some(h) => h as usize,
                    None => 0,
                };
                let a: Pos2 = self.attractors[home];
                assert(old(self)@.plan.holds(old(self)@.plan.attractors[home as int]));
                proof {
                    separation_fits(at, a);
                }
                let far: i32 = meters(THRASH_FAR_M);
                let out: bool = dist_sq(at, a) > radius_sq(far / 2);
                m.dwell = 0;
                self.minds.set(i, m);
                let swing: i32 = if out {
                    meters(ATTRACTOR_RADIUS_M)
                } else {
                    far
                };
                Some(self.offset(a, swing))
            },
            _ => None,
        }
    }

    /// Ticks to stand for at an attractor.
    fn draw_dwell(&mut self) -> (ticks: u32)
        requires
            old(self)@.plan.wf(),
        ensures
            ticks == dwell_of(old(self)@.plan, old(self)@.rng),
            final(self)@ == (HerdState { rng: scramble(old(self)@.rng), ..old(self)@ }),
    {
        let hz: u32 = self.tick_hz as u32;
        assert(0 < (DWELL_MAX_S - DWELL_MIN_S) * hz <= 55_000) by (nonlinear_arith)
            requires
                1 <= hz <= 1000,
        ;
        DWELL_MIN_S * hz + self.rng.below((DWELL_MAX_S - DWELL_MIN_S) * hz)
    }

    /// The attractor a nomad visits: one it can reach, or the nearest.
    fn pick_attractor(&mut self, at: Pos2, horizon: i32) -> (a: Pos2)
        requires
            old(self)@.plan.wf(),
            in_reach(at),
        ensures
            ({
                let h = old(self)@;
                let close = near(h.plan.attractors, at, horizon as int, ATTRACTORS as int);
                if close.len() == 0 {
                    &&& a == h.plan.attractors[nearest(h.plan.attractors, at, ATTRACTORS as int)]
                    &&& final(self)@ == h
                } else {
                    &&& a == close[drawn(h.rng, close.len() as int)]
                    &&& final(self)@ == (HerdState { rng: scramble(h.rng), ..h })
                }
            }),
            old(self)@.plan.holds(a),
    {
        let ghost places = self.attractors@;
        let ghost plan = self@.plan;
        let reach: u64 = radius_sq(horizon);
        let mut close: Vec<Pos2> = Vec::new();
        let mut best: usize = 0;
        for k in 0..self.attractors.len()
            invariant
                self@ == old(self)@,
                plan == self@.plan,
                places == self.attractors@,
                plan.attractors == places,
                plan.wf(),
                in_reach(at),
                reach == horizon * horizon,
                close@ == near(places, at, horizon as int, k as int),
                close@.len() <= k,
                forall|j: int| 0 <= j < close@.len() ==> plan.holds(#[trigger] close@[j]),
                best == nearest(places, at, k as int),
                best < ATTRACTORS,
                k > 0 ==> best < k,
        {
            let here: Pos2 = self.attractors[k];
            assert(plan.holds(places[k as int]));
            assert(plan.holds(places[best as int]));
            proof {
                separation_fits(at, here);
                separation_fits(at, places[best as int]);
            }
            let d: u64 = dist_sq(at, here);
            if d <= reach {
                close.push(here);
            }
            if d < dist_sq(at, self.attractors[best]) {
                best = k;
            }
        }
        if close.len() == 0 {
            assert(plan.holds(places[best as int]));
            self.attractors[best]
        } else {
            let k: usize = self.rng.below(close.len() as u32) as usize;
            close[k]
        }
    }

    /// Picks a destination and the velocity that walks to it.
    fn retarget(&mut self, i: usize, at: Pos2, gathering: bool)
        requires
            old(self)@.plan.wf(),
            i < old(self)@.minds.len(),
            old(self)@.minds[i as int].wf(),
            in_reach(at),
        ensures
            ({
                let h = old(self)@;
                let (m, t) = retargeted(h.plan, h.minds[i as int], at, gathering, h.rng);
                &&& final(self)@ == h.with(i as int, m, t)
                &&& m.wf()
            }),
    {
        let ghost h = self@;
        let ghost plan = self@.plan;
        proof {
            reveal(retargeted);
        }
        let mut m: Mind = self.minds[i];
        m.phase_at = gathering;
        self.minds.set(i, m);
        if m.speed == 0 {
            return;
        }
        match self.pattern_dest(i, at) {
            Some(dest) => {
                self.aim(i, at, dest);
                assert(self@.minds =~= h.minds.update(i as int, self@.minds[i as int]));
                return;
            },
            None => {},
        }
        let dest: Pos2;
        match m.home {
            // A resident goes home to gather and spreads around home to
            // disperse, so its crowd returns to the same size every cycle.
            Some(home) => {
                let a: Pos2 = self.attractors[home as usize];
                assert(plan.holds(plan.attractors[home as int]));
                if gathering {
                    m.dwell = self.draw_dwell();
                    dest = self.offset(a, meters(ATTRACTOR_RADIUS_M));
                } else {
                    m.dwell = 0;
                    dest = self.offset(a, meters(DISPERSE_RADIUS_M));
                }
            },
            // A nomad has nowhere to be. It mostly wanders, and occasionally
            // visits whichever attractor it can reach.
            None => {
                if self.rng.below(16) < ATTRACT_IN_16 {
                    let a: Pos2 = self.pick_attractor(at, m.horizon);
                    m.dwell = self.draw_dwell();
                    dest = self.offset(a, meters(ATTRACTOR_RADIUS_M));
                } else {
                    m.dwell = 0;
                    dest = self.offset(at, m.horizon);
                }
            },
        }
        self.minds.set(i, m);
        self.aim(i, at, dest);
        assert(self@.minds =~= h.minds.update(i as int, self@.minds[i as int]));
    }

    /// Moves one entity.
    fn stride(&mut self, w: &mut Region, i: usize, gathering: bool)
        requires
            old(self)@.plan.wf(),
            old(w)@.wf(),
            i < old(w)@.slots(),
            i < old(self)@.minds.len(),
            old(self)@.minds[i as int].wf(),
            moves(old(self)@, old(w)@, i as int) ==> in_reach(ground(old(w)@, i as int)),
        ensures
            (final(self)@, final(w)@) == walked_one(old(self)@, old(w)@, gathering, i as int),
            final(self)@.minds[i as int].wf(),
            final(w)@.wf(),
    {
        let ghost h = self@;
        let ghost r = w@;
        proof {
            reveal(strode);
        }
        if !w.contains(i as u32) {
            return;
        }
        let mut m: Mind = self.minds[i];
        let x: i32 = w.x(i);
        let y: i32 = w.y(i);
        let at: Pos2 = Pos2 { x, y };
        if !m.mine || m.speed == 0 {
            assert(self@ =~= h.with(i as int, m, h.rng));
            assert(w@ =~= r.move_to(i as int, x, y));
            return;
        }
        // Flapping does not walk anywhere: it steps back and forth across
        // the boundary it was placed on, one crossing a tick.
        if self.pattern == Pattern::Flap {
            let step: i32 = if m.phase_at {
                m.speed
            } else {
                -m.speed
            };
            m.phase_at = !m.phase_at;
            self.minds.set(i, m);
            w.move_to(i, x + step, y);
            return;
        }
        if m.phase_at != gathering {
            // A phase reaches everyone at once. Left to notice at the end of an
            // errand, a class slow enough that an errand outlasts the phase
            // never responds to one at all.
            m.wait = 0;
            self.minds.set(i, m);
            self.retarget(i, at, gathering);
            assert(self@.minds =~= h.minds.update(i as int, self@.minds[i as int]));
        } else if m.wait > 0 {
            m.wait = m.wait - 1;
            self.minds.set(i, m);
            assert(w@ =~= r.move_to(i as int, x, y));
            return;
        } else {
            proof {
                separation_fits(at, m.dest);
            }
            if dist_sq(at, m.dest) <= radius_sq(m.speed) {
                // Arrival is within one tick's travel, since a step never lands
                // exactly on a destination. Stand first if this destination was
                // worth standing at; the next tick arrives again, finds no
                // dwell left, and moves on.
                m.wait = m.dwell;
                m.dwell = 0;
                self.minds.set(i, m);
                if m.wait == 0 {
                    self.retarget(i, at, gathering);
                    assert(self@.minds =~= h.minds.update(i as int, self@.minds[i as int]));
                }
                assert(w@ =~= r.move_to(i as int, x, y));
                return;
            }
            assert(self@ =~= h.with(i as int, m, h.rng));
        }
        let m: Mind = self.minds[i];
        w.move_to(i, x + m.vel_x, y + m.vel_y);
    }

    /// Grows what is kept of each entity to cover `slots`.
    ///
    /// Slots this game did not create get state that leaves them alone.
    fn adopt(&mut self, slots: usize)
        requires
            old(self)@.wf(),
            old(self)@.pending.len() == 0,
        ensures
            final(self)@ == adopted(old(self)@, slots as int),
            final(self)@.wf(),
    {
        let ghost h = self@;
        let ghost before = self.minds.len();
        if self.minds.len() >= slots {
            return;
        }
        while self.minds.len() < slots
            invariant
                before <= self.minds.len() <= slots,
                before == h.minds.len(),
                self@ == (HerdState { minds: self.minds@, ..h }),
                self.minds@ == h.minds + Seq::new(
                    (self.minds.len() - before) as nat,
                    |k: int| stranger(),
                ),
            decreases slots - self.minds.len(),
        {
            self.minds.push(
                Mind {
                    mine: false,
                    vel_x: 0,
                    vel_y: 0,
                    speed: 0,
                    dest: Pos2 { x: 0, y: 0 },
                    horizon: 0,
                    wait: 0,
                    dwell: 0,
                    home: None,
                    phase_at: false,
                    health: HEALTH_MAX,
                    dies_at: u32::MAX,
                },
            );
            assert(self.minds@ =~= h.minds + Seq::new(
                (self.minds.len() - before) as nat,
                |k: int| stranger(),
            ));
        }
        proof {
            assert forall|j: int| 0 <= j < self@.minds.len() implies (
            #[trigger] self@.minds[j]).wf() by {
                if j < before {
                    assert(h.minds[j].wf());
                }
            }
            assert forall|k: int| 0 <= k < self@.residents.len() implies self@.is_resident(
                #[trigger] self@.residents[k] as int,
            ) by {
                assert(h.is_resident(h.residents[k] as int));
            }
        }
    }

    /// Moves every entity.
    fn walk(&mut self, w: &mut Region, gathering: bool)
        requires
            old(self)@.wf(),
            old(w)@.wf(),
            old(self)@.minds.len() == old(w)@.slots(),
            movers_in_reach(old(self)@, old(w)@),
        ensures
            (final(self)@, final(w)@) == walked(
                old(self)@,
                old(w)@,
                gathering,
                old(w)@.slots() as int,
            ),
            final(self)@.wf(),
            final(w)@.wf(),
            final(w)@.slots() == old(w)@.slots(),
            final(self)@.minds.len() == old(self)@.minds.len(),
            final(self)@.moved_on_from(old(self)@),
    {
        let ghost h = self@;
        let ghost r = w@;
        let n: usize = w.id_space();
        for i in 0..n
            invariant
                (self@, w@) == walked(h, r, gathering, i as int),
                self@.wf(),
                w@.wf(),
                n == r.slots(),
                n == w@.slots(),
                self@.minds.len() == n,
                w@.live == r.live,
                movers_in_reach(h, r),
                h.minds.len() == n,
                self@.moved_on_from(h),
                forall|j: int|
                    0 <= j < n ==> (#[trigger] self@.minds[j]).same_nature(h.minds[j]),
                forall|j: int| i <= j < n ==> #[trigger] ground(w@, j) == ground(r, j),
        {
            let ghost h1 = self@;
            let ghost w1 = w@;
            assert(ground(w1, i as int) == ground(r, i as int));
            assert(self@.minds[i as int].wf());
            assert(self@.minds[i as int].same_nature(h.minds[i as int]));
            self.stride(w, i, gathering);
            proof {
                let k = i as int;
                striding_keeps_nature(h1.plan, h1.minds[k], ground(w1, k), gathering, h1.rng);
                if w1.live.contains(i as u32) {
                    a_change_keeps_wf(h1, k, self@.minds[k], self@.rng);
                }
                assert forall|j: int| k < j < n implies #[trigger] ground(w@, j) == ground(r, j) by {
                    assert(ground(w1, j) == ground(r, j));
                }
            }
        }
    }

    /// Sends a share of the population anywhere.
    fn jump(&mut self, w: &mut Region)
        requires
            old(self)@.wf(),
            old(w)@.wf(),
            old(self)@.minds.len() == old(w)@.slots(),
        ensures
            (final(self)@, final(w)@) == jumped(
                old(self)@,
                old(w)@,
                old(w)@.slots() * TELEPORT_PER_MILLE / 1000,
            ),
            final(self)@.wf(),
            final(w)@.wf(),
            final(w)@.slots() == old(w)@.slots(),
            final(self)@.minds == old(self)@.minds,
            final(self)@.moved_on_from(old(self)@),
    {
        let ghost h = self@;
        let ghost r = w@;
        let n: usize = w.id_space();
        let jumps: usize = n * TELEPORT_PER_MILLE / 1_000;
        for k in 0..jumps
            invariant
                (self@, w@) == jumped(h, r, k as int),
                self@ == (HerdState { rng: self@.rng, ..h }),
                self@.wf(),
                w@.wf(),
                n == w@.slots(),
                n == r.slots(),
                jumps > 0 ==> n > 0,
                n == self@.minds.len(),
        {
            let ghost h1 = self@;
            let i: usize = self.rng.below(n as u32) as usize;
            let m: Mind = self.minds[i];
            if w.contains(i as u32) && m.mine && m.speed != 0 {
                let x: i32 = rng_in(&mut self.rng, self.lo, self.hi);
                let y: i32 = rng_in(&mut self.rng, self.lo, self.hi);
                w.move_to(i, x, y);
            }
            proof {
                a_setting_keeps_wf(h1, self@);
            }
        }
    }

    /// Takes the health of a share of the population.
    fn cull(&mut self, w: &Region)
        requires
            old(self)@.wf(),
            w@.wf(),
            old(self)@.minds.len() == w@.slots(),
        ensures
            final(self)@ == culled(old(self)@, w@, w@.slots() as int),
            final(self)@.wf(),
            final(self)@.minds.len() == old(self)@.minds.len(),
            final(self)@.moved_on_from(old(self)@),
    {
        let ghost h = self@;
        let n: usize = w.id_space();
        for i in 0..n
            invariant
                self@ == culled(h, w@, i as int),
                self@.moved_on_from(h),
                self@.wf(),
                n == w@.slots(),
                n == self@.minds.len(),
                w@.wf(),
        {
            let ghost h1 = self@;
            let mut m: Mind = self.minds[i];
            assert(h1.minds[i as int].wf());
            if w.contains(i as u32) && m.mine {
                if self.rng.below(16) < CULL_IN_16 {
                    // Past anything regeneration can pull back: the health pass
                    // runs after this one, and zero would survive it.
                    m.health = i16::MIN;
                }
                self.minds.set(i, m);
                proof {
                    a_change_keeps_wf(h1, i as int, m, self@.rng);
                }
            }
        }
    }

    /// Counts where everything ended up.
    fn count(&mut self, w: &Region)
        requires
            old(self)@.wf(),
            w@.wf(),
        ensures
            final(self)@ == counted(old(self)@, w@),
            final(self)@.wf(),
    {
        let ghost h = self@;
        let ghost r = w@;
        let cells: usize = self.occupancy.len();
        for c in 0..cells
            invariant
                cells == h.world.cells_per_region,
                self@ == (HerdState { occupancy: self@.occupancy, ..h }),
                self@.occupancy.len() == cells,
                forall|j: int| 0 <= j < c ==> self@.occupancy[j] == 0,
        {
            self.occupancy.set(c, 0);
        }
        let n: usize = w.id_space();
        for i in 0..n
            invariant
                r == w@,
                r.wf(),
                h.wf(),
                n == r.slots(),
                self@ == (HerdState { occupancy: self@.occupancy, ..h }),
                self@.occupancy.len() == h.world.cells_per_region,
                forall|c: int|
                    0 <= c < h.world.cells_per_region ==> #[trigger] self@.occupancy[c] == headcount(
                        h.world,
                        r,
                        c,
                        i as int,
                    ),
        {
            if w.contains(i as u32) {
                let c: usize = cell_index(&self.world, w.x(i), w.y(i));
                proof {
                    headcount_fits(h.world, r, c as int, i as int);
                }
                assert(self@.occupancy[c as int] == headcount(h.world, r, c as int, i as int));
                let there: u32 = self.occupancy[c];
                self.occupancy.set(c, there + 1);
            }
        }
        assert(self@.occupancy =~= counted(h, r).occupancy) by {
            assert forall|c: int| 0 <= c < h.world.cells_per_region implies self@.occupancy[c]
                == counted(h, r).occupancy[c] by {
                assert(self@.occupancy[c] == headcount(h.world, r, c, n as int));
            }
        }
    }

    /// What a crowd does to the health of one that stands in it.
    fn health_in(&self, health: i16, crowd: usize) -> (after: i16)
        requires
            self@.damage_divisor > 0 || crowd <= self@.crowd_threshold,
        ensures
            after == health_after(
                health,
                crowd as int,
                self@.crowd_threshold as int,
                self@.damage_divisor as int,
            ),
    {
        if crowd > self.crowd_threshold {
            let hurt: usize = (crowd - self.crowd_threshold) / self.damage_divisor;
            if hurt > 65_535 {
                // More than there is between the best health and the worst.
                i16::MIN
            } else {
                let left: i32 = health as i32 - hurt as i32;
                clamp(left, i16::MIN as i32, i16::MAX as i32) as i16
            }
        } else {
            let rested: i32 = health as i32 + REGEN as i32;
            if rested < HEALTH_MAX as i32 {
                rested as i16
            } else {
                HEALTH_MAX
            }
        }
    }

    /// Whether every crowd can be dealt with.
    fn bears(&self, w: &Region) -> (yes: bool)
        requires
            self@.wf(),
            w@.wf(),
        ensures
            yes == can_hurt(self@, w@),
    {
        if self.damage_divisor > 0 {
            return true;
        }
        let n: usize = w.id_space();
        for i in 0..n
            invariant
                self@.wf(),
                w@.wf(),
                n == w@.slots(),
                self@.damage_divisor == 0,
                forall|j: int|
                    0 <= j < i && w@.live.contains(j as u32) ==> #[trigger] crowd_around(
                        self@,
                        w@,
                        j,
                    ) <= self@.crowd_threshold,
        {
            if w.contains(i as u32) {
                let c: usize = cell_index(&self.world, w.x(i), w.y(i));
                if self.occupancy[c] as usize > self.crowd_threshold {
                    assert(crowd_around(self@, w@, i as int) > self@.crowd_threshold);
                    return false;
                }
            }
        }
        true
    }

    /// Hurts what is crowded and lets the rest recover. Gives the ids of those
    /// that die of it, or whose time has come.
    fn suffer(&mut self, w: &Region) -> (dead: Vec<u32>)
        requires
            old(self)@.wf(),
            w@.wf(),
            old(self)@.minds.len() == w@.slots(),
            can_hurt(old(self)@, w@),
        ensures
            final(self)@ == hurt(old(self)@, w@),
            dead@ == dying(hurt(old(self)@, w@), w@, w@.slots() as int),
            final(self)@.wf(),
    {
        let ghost h = self@;
        let ghost r = w@;
        let ghost after = hurt(h, r);
        let tick: u32 = w.tick();
        let mut dead: Vec<u32> = Vec::new();
        let n: usize = w.id_space();
        for i in 0..n
            invariant
                r == w@,
                r.wf(),
                h.wf(),
                tick == r.tick,
                n == r.slots(),
                n == h.minds.len(),
                can_hurt(h, r),
                after == hurt(h, r),
                self@ == (HerdState { minds: self@.minds, ..h }),
                self@.minds.len() == n,
                forall|j: int| 0 <= j < i ==> #[trigger] self@.minds[j] == after.minds[j],
                forall|j: int| i <= j < n ==> #[trigger] self@.minds[j] == h.minds[j],
                dead@ == dying(after, r, i as int),
        {
            if w.contains(i as u32) {
                let c: usize = cell_index(&self.world, w.x(i), w.y(i));
                let crowd: usize = self.occupancy[c] as usize;
                let mut m: Mind = self.minds[i];
                assert(crowd == crowd_around(h, r, i as int));
                m.health = self.health_in(m.health, crowd);
                self.minds.set(i, m);
                assert(m == after.minds[i as int]);
                if m.health <= 0 || tick >= m.dies_at {
                    dead.push(i as u32);
                }
            }
        }
        assert(self@.minds =~= after.minds);
        proof {
            only_health_changes(h, r);
        }
        dead
    }

    /// Despawns the dead.
    fn bury(&mut self, w: &mut Region, dead: Vec<u32>)
        requires
            old(self)@.wf(),
            old(w)@.wf(),
            dead@ == dying(old(self)@, old(w)@, old(w)@.slots() as int),
            old(self)@.deaths + old(w)@.slots() <= u64::MAX,
        ensures
            (final(self)@, final(w)@) == buried(old(self)@, old(w)@, dead@),
            final(self)@.wf(),
            final(w)@.wf(),
    {
        let ghost h = self@;
        let ghost r = w@;
        proof {
            the_dying_are_distinct(h, r, r.slots() as int);
        }
        for k in 0..dead.len()
            invariant
                dead@ == dying(h, r, r.slots() as int),
                dead@.len() <= r.slots(),
                forall|a: int| 0 <= a < dead@.len() ==> r.live.contains(#[trigger] dead@[a]),
                forall|a: int, b: int|
                    0 <= a < b < dead@.len() ==> #[trigger] dead@[a] < #[trigger] dead@[b],
                h.wf(),
                h.deaths + r.slots() <= u64::MAX,
                (self@, w@) == buried(h, r, dead@.take(k as int)),
                w@.wf(),
        {
            let ghost before = dead@.take(k as int);
            let ghost after = dead@.take(k + 1);
            let id: u32 = dead[k];
            assert(after =~= before.push(id));
            assert(!before.contains(id));
            w.despawn(id);
            self.deaths = self.deaths + 1;
            assert(after.to_set() =~= before.to_set().insert(id)) by {
                broadcast use vstd::seq_lib::group_seq_properties;

                assert(after == before.push(id));
            }
            assert(w@.live =~= r.live.difference(after.to_set()));
            assert(w@.gone =~= r.gone + after);
        }
        assert(dead@.take(dead@.len() as int) =~= dead@);
    }

    /// Where a new entity belongs and where it appears.
    fn place(&mut self, speed: i32, always: bool) -> (found: (Option<u8>, Pos2))
        requires
            old(self)@.plan.wf(),
        ensures
            ({
                let h = old(self)@;
                let (home, at, s) = placed(h.plan, speed as int, always, h.rng);
                &&& found == (home, at)
                &&& final(self)@ == (HerdState { rng: s, ..h })
            }),
            old(self)@.plan.holds(found.1),
            found.0 matches Some(home) ==> home < ATTRACTORS && speed > 0,
    {
        let ghost plan = self@.plan;
        if speed > 0 && (always || self.rng.below(16) < SPAWN_AT_ATTRACTOR_IN_16) {
            let home: u8 = self.rng.below(ATTRACTORS as u32) as u8;
            let a: Pos2 = self.attractors[home as usize];
            assert(plan.holds(plan.attractors[home as int]));
            let at: Pos2 = self.offset(a, meters(ATTRACTOR_RADIUS_M));
            (Some(home), at)
        } else {
            let x: i32 = rng_in(&mut self.rng, self.lo, self.hi);
            let y: i32 = rng_in(&mut self.rng, self.lo, self.hi);
            (None, Pos2 { x, y })
        }
    }

    /// Raw units per tick of a motion class.
    fn class_pace(&self, class: (i32, i32)) -> (speed: i32)
        requires
            self@.plan.wf(),
            0 <= class.0 <= 30,
            0 <= class.1 < 1000,
        ensures
            speed == class_speed((class.0 as int, class.1 as int), self@.plan.hz),
            0 <= speed * self@.plan.hz <= 31 * 1024,
            0 <= speed <= 31 * 1024,
    {
        let per_second: i32 = millimeters(class.0, class.1);
        let hz: i32 = self.tick_hz;
        let speed: i32 = per_second / hz;
        proof {
            a_share_fits(per_second as int, hz as int);
        }
        speed
    }

    /// Raw units an entity will travel toward one destination.
    fn outlook(&self, speed: i32) -> (horizon: i32)
        requires
            self@.plan.wf(),
            0 <= speed * self@.plan.hz <= 2_048_000,
        ensures
            horizon == speed * (HORIZON_S * self@.plan.hz),
            0 <= horizon <= MAX_HORIZON,
    {
        let hz: i32 = self.tick_hz;
        assert(speed * (60 * hz) == 60 * (speed * hz)) by (nonlinear_arith);
        speed * (HORIZON_S * hz)
    }

    /// Replaces one entity. Slots are never reused, so a long run grows for as
    /// long as anything dies.
    fn spawn_one(&mut self, w: &mut Region, gathering: bool)
        requires
            old(self)@.wf(),
            old(w)@.wf(),
            old(self)@.pending.len() == 0,
            old(self)@.minds.len() == old(w)@.slots(),
            old(w)@.slots() < u32::MAX,
            old(self)@.births < u64::MAX,
            old(self)@.lifespan > 0,
        ensures
            (final(self)@, final(w)@) == born(old(self)@, old(w)@, gathering),
            final(self)@.wf(),
            final(w)@.wf(),
            final(self)@.minds.len() == final(w)@.slots(),
    {
        let ghost h = self@;
        let ghost r = w@;
        let roll: u32 = self.rng.below(100);
        let speed: i32 = self.class_pace(class(roll));
        let (home, at) = self.place(speed, false);
        let z: i32 = self.rng.below(self.world.vertical_extent as u32) as i32;
        let span: u64 = self.lifespan as u64 / 2 + 1 + self.rng.below(self.lifespan) as u64;
        let dies_at: u32 = ((w.tick() as u64 + span) % 0x1_0000_0000) as u32;
        let i: usize = self.minds.len();
        let horizon: i32 = self.outlook(speed);
        self.minds.push(
            Mind {
                mine: true,
                vel_x: 0,
                vel_y: 0,
                speed,
                dest: at,
                horizon,
                wait: 0,
                dwell: 0,
                home,
                phase_at: gathering,
                health: HEALTH_MAX,
                dies_at,
            },
        );
        let id: u32 = w.spawn(at.at_height(z));
        if home.is_some() {
            self.residents.push(id);
        }
        let ghost young = self@;
        self.retarget(i, at, gathering);
        self.births = self.births + 1;
        proof {
            striding_keeps_nature(h.plan, young.minds[i as int], at, gathering, young.rng);
            assert(self@.minds =~= h.minds.push(self@.minds[i as int]));
            one_more_keeps_wf(h, self@);
        }
    }
}

impl Herd {
    /// Raw units per tick of an entity that a run starts with.
    fn starting_pace(&self, class: (i32, i32)) -> (speed: i32)
        requires
            self@.plan.wf(),
            0 <= class.0 <= 30,
            0 <= class.1 < 1000,
        ensures
            speed == starting_speed(self@.plan, (class.0 as int, class.1 as int)),
            0 <= speed <= MAX_STRIDE,
            0 <= speed * self@.plan.hz <= 2_048_000,
    {
        let hz: i32 = self.tick_hz;
        let moves: bool = class.0 > 0 || class.1 > 0;
        proof {
            a_share_fits(FLASH_SPEED * 1024, hz as int);
            a_share_fits(THRASH_SPEED * 1024, hz as int);
            a_share_fits(0, hz as int);
            assert(2048 * hz <= 2_048_000);
        }
        match self.pattern {
            Pattern::Flap if moves => meters(FLAP_M),
            Pattern::Flash if moves => meters(FLASH_SPEED) / hz,
            Pattern::Thrash if moves => meters(THRASH_SPEED) / hz,
            _ => self.class_pace(class),
        }
    }

    /// Adds one entity to the population that the first step spawns.
    fn found_one(&mut self)
        requires
            old(self)@.wf(),
            old(self)@.pending.len() == old(self)@.minds.len() < u32::MAX,
            old(self)@.lifespan > 0,
        ensures
            final(self)@ == founded_one(old(self)@),
            final(self)@.wf(),
            final(self)@.minds.len() == old(self)@.minds.len() + 1,
    {
        let ghost h = self@;
        let ghost plan = self@.plan;
        let roll: u32 = self.rng.below(100);
        let speed: i32 = self.starting_pace(class(roll));
        // Every pattern but the plausible one needs viewers to draw from, and
        // draws them from whatever moves.
        let (home, near) = self.place(speed, self.pattern != Pattern::Herd);
        let at: Pos2 = self.footing(speed, near);
        let z: i32 = self.rng.below(self.world.vertical_extent as u32) as i32;
        self.pending.push(at.at_height(z));
        let dies_at: u32 = 1 + self.rng.below(self.lifespan);
        let i: usize = self.minds.len();
        let horizon: i32 = self.outlook(speed);
        self.minds.push(
            Mind {
                mine: true,
                vel_x: 0,
                vel_y: 0,
                speed,
                dest: Pos2 { x: 0, y: 0 },
                horizon,
                wait: 0,
                dwell: 0,
                home,
                phase_at: true,
                health: HEALTH_MAX,
                dies_at,
            },
        );
        if home.is_some() {
            self.residents.push(i as u32);
        }
        let ghost young = self@;
        self.retarget(i, at, true);
        proof {
            striding_keeps_nature(plan, young.minds[i as int], at, true, young.rng);
            assert(self@.minds =~= h.minds.push(self@.minds[i as int]));
            one_more_keeps_wf(h, self@);
        }
    }

    /// Where an entity that a run starts with stands.
    ///
    /// Flapping needs somewhere to flap across, so it starts a meter inside a
    /// cell with the boundary a step away.
    fn footing(&self, speed: i32, at: Pos2) -> (p: Pos2)
        requires
            self@.wf(),
            self@.plan.holds(at),
        ensures
            p == footing(self@.plan, self@.world, speed as int, at),
            self@.plan.holds(p),
    {
        if self.pattern == Pattern::Flap && speed > 0 {
            let cell: i32 = self.world.cell_size;
            proof {
                edges_fit(self@.world, at.x as int);
            }
            let edge: i32 = (at.x / cell + 1) * cell;
            Pos2 { x: clamp(edge - meters(1), self.lo, self.hi), y: at.y }
        } else {
            at
        }
    }
}

impl Herd {
    /// A herd of `n`, which the first step spawns. A run reproduces from its
    /// seed.
    pub fn new(world: &World, n: usize, seed: u64, lifespan: u32, pattern: Pattern) -> (herd: Herd)
        requires
            world.wf(),
            world.region_size >= 2 * MARGIN_M * 1024,
            n <= u32::MAX,
            lifespan > 0 || n == 0,
        ensures
            herd@ == founding(*world, n, seed, lifespan, pattern),
            herd@.wf(),
            herd@.minds.len() == n,
            herd@.pending.len() == n,
    {
        let mut rng: Rng = Rng::new(seed);
        let lo: i32 = meters(MARGIN_M);
        let hi: i32 = world.region_size - lo;
        let ghost bare = Plan {
            attractors: Seq::empty(),
            pattern,
            lo: lo as int,
            hi: hi as int,
            hz: world.tick_hz as int,
        };
        let mut attractors: Vec<Pos2> = Vec::new();
        for k in 0..ATTRACTORS
            invariant
                lo <= hi,
                0 <= lo,
                bare.lo == lo,
                bare.hi == hi,
                (attractors@, rng@) == scattered(bare, seeded(seed), k as int),
                attractors@.len() == k,
                forall|j: int| 0 <= j < k ==> bare.holds(#[trigger] attractors@[j]),
        {
            let x: i32 = rng_in(&mut rng, lo, hi);
            let y: i32 = rng_in(&mut rng, lo, hi);
            attractors.push(Pos2 { x, y });
        }
        let mut occupancy: Vec<u32> = Vec::new();
        let cells: usize = world.cells_per_region as usize;
        for c in 0..cells
            invariant
                cells == world.cells_per_region,
                occupancy@ == Seq::new(c as nat, |j: int| 0u32),
        {
            occupancy.push(0);
            assert(occupancy@ =~= Seq::new((c + 1) as nat, |j: int| 0u32));
        }
        proof {
            rates_fit(world.tick_hz as int);
        }
        let mut herd: Herd = Herd {
            world: *world,
            attractors,
            pattern,
            lo,
            hi,
            tick_hz: world.tick_hz as i32,
            minds: Vec::new(),
            rng,
            pending: Vec::new(),
            residents: Vec::new(),
            occupancy,
            target: n,
            lifespan,
            crowd_threshold: CROWD_THRESHOLD,
            damage_divisor: DAMAGE_DIVISOR,
            deaths: 0,
            births: 0,
        };
        let ghost empty = herd@;
        assert(empty =~= unfounded(*world, n, seed, lifespan, pattern));
        assert(empty.plan.attractors == attractors@);
        assert(empty.plan.wf()) by {
            assert forall|k: int| 0 <= k < ATTRACTORS implies empty.plan.holds(
                #[trigger] empty.plan.attractors[k],
            ) by {
                assert(bare.holds(attractors@[k]));
            }
        }
        for k in 0..n
            invariant
                n <= u32::MAX,
                lifespan > 0 || n == 0,
                herd@.lifespan == lifespan,
                herd@ == founded(empty, k as int),
                herd@.wf(),
                herd@.minds.len() == k,
                herd@.pending.len() == k,
        {
            herd.found_one();
        }
        herd
    }

    /// Spawns the waiting population.
    fn land(&mut self, w: &mut Region)
        requires
            old(self)@.wf(),
            old(w)@.wf(),
            old(w)@.slots() + old(self)@.pending.len() <= u32::MAX,
        ensures
            final(self)@ == (HerdState { pending: Seq::empty(), ..old(self)@ }),
            final(w)@ == landed(old(w)@, old(self)@.pending, old(self)@.pending.len() as int),
            final(self)@.wf(),
            final(w)@.wf(),
            final(w)@.slots() == old(w)@.slots() + old(self)@.pending.len(),
    {
        let ghost r = w@;
        let ghost waiting = self@.pending;
        let n: usize = self.pending.len();
        for k in 0..n
            invariant
                n == waiting.len(),
                waiting == self@.pending,
                self@ == old(self)@,
                w@ == landed(r, waiting, k as int),
                w@.wf(),
                w@.slots() == r.slots() + k,
                r.slots() + n <= u32::MAX,
        {
            let p: Pos3 = self.pending[k];
            w.spawn(p);
        }
        self.pending = Vec::new();
        assert(self@.pending =~= Seq::empty());
    }

    /// Refills toward the population the region was built with, a few at a time
    /// so a die-off does not arrive back as one spike.
    fn refill(&mut self, w: &mut Region, gathering: bool)
        requires
            old(self)@.wf(),
            old(w)@.wf(),
            old(self)@.pending.len() == 0,
            old(self)@.minds.len() == old(w)@.slots(),
            old(w)@.slots() + MAX_SPAWNS_PER_TICK <= u32::MAX,
            old(self)@.births + MAX_SPAWNS_PER_TICK <= u64::MAX,
        ensures
            (final(self)@, final(w)@) == refilled(
                old(self)@,
                old(w)@,
                gathering,
                missing(old(self)@, old(w)@),
            ),
            final(self)@.wf(),
            final(w)@.wf(),
            final(self)@.minds.len() == final(w)@.slots(),
            final(self)@.pending.len() == 0,
    {
        let ghost h = self@;
        let ghost r = w@;
        let alive: usize = w.entity_count();
        let mut want: usize = 0;
        if self.target > alive {
            want = self.target - alive;
        }
        if want > MAX_SPAWNS_PER_TICK {
            want = MAX_SPAWNS_PER_TICK;
        }
        for k in 0..want
            invariant
                want <= MAX_SPAWNS_PER_TICK,
                (self@, w@) == refilled(h, r, gathering, k as int),
                self@.wf(),
                w@.wf(),
                self@.pending.len() == 0,
                self@.minds.len() == w@.slots(),
                w@.slots() == r.slots() + k,
                self@.births == h.births + k,
                want > 0 ==> h.lifespan > 0,
                self@.lifespan == h.lifespan,
                r.slots() + MAX_SPAWNS_PER_TICK <= u32::MAX,
                h.births + MAX_SPAWNS_PER_TICK <= u64::MAX,
        {
            self.spawn_one(w, gathering);
        }
    }

    /// One tick.
    pub fn step(&mut self, w: &mut Region)
        requires
            can_step(old(self)@, old(w)@),
        ensures
            (final(self)@, final(w)@) == stepped(old(self)@, old(w)@),
            final(self)@.wf(),
            final(w)@.wf(),
            final(self)@.pending.len() == 0,
            final(self)@.minds.len() == final(w)@.slots(),
    {
        self.attempt(w);
    }

    /// One tick, if it can be finished. With nothing to divide by, a crowd over the
    /// threshold cannot be dealt with: the tick then ends once everything has moved
    /// and been counted.
    pub fn attempt(&mut self, w: &mut Region) -> (done: bool)
        requires
            can_start(old(self)@, old(w)@),
        ensures
            done == can_step(old(self)@, old(w)@),
            done ==> (final(self)@, final(w)@) == stepped(old(self)@, old(w)@),
            !done ==> {
                let (h1, w1) = moved(old(self)@, old(w)@);
                final(self)@ == counted(h1, w1) && final(w)@ == w1
            },
            final(self)@.wf(),
            final(w)@.wf(),
            final(self)@.pending.len() == 0,
            final(self)@.minds.len() == final(w)@.slots(),
    {
        let ghost h = self@;
        let ghost r = w@;
        let hz: u32 = self.tick_hz as u32;
        assert(180 * hz > 0);
        let gathers: bool = gathering(w.tick(), PHASE_S * hz);
        if self.pending.len() > 0 {
            self.land(w);
            return true;
        }
        let ghost grown = adopted(h, r.slots() as int);
        self.adopt(w.id_space());
        assert(movers_in_reach(grown, r)) by {
            assert forall|i: int| 0 <= i < grown.minds.len() && moves(grown, r, i) implies in_reach(
                #[trigger] ground(r, i),
            ) by {
                if i < h.minds.len() {
                    assert(moves(h, r, i));
                } else {
                    assert(grown.minds[i] == stranger());
                }
            }
        }
        self.walk(w, gathers);
        match self.pattern {
            Pattern::Teleport => self.jump(w),
            Pattern::Cull => {
                assert(30 * hz > 0);
                if w.tick() % (CULL_PERIOD_S * hz) == 0 {
                    self.cull(w);
                }
            },
            _ => {},
        }
        self.count(w);
        if !self.bears(w) {
            return false;
        }
        let dead: Vec<u32> = self.suffer(w);
        self.bury(w, dead);
        self.refill(w, gathers);
        true
    }
}

/// How a population sits in cells.
#[derive(Clone, Copy, Debug, PartialEq, Eq, Structural)]
pub struct Occupancy {
    /// How many stand in the fullest cell.
    pub max: usize,
}

/// How the population sat in cells when it was last counted.
pub fn occupancy(herd: &Herd) -> (o: Occupancy)
    requires
        herd@.wf(),
    ensures
        forall|c: int| 0 <= c < herd@.occupancy.len() ==> #[trigger] herd@.occupancy[c] <= o.max,
        exists|c: int| 0 <= c < herd@.occupancy.len() && #[trigger] herd@.occupancy[c] == o.max,
{
    let ghost counts = herd@.occupancy;
    proof {
        let n = herd@.world.cells_per_axis as int;
        assert(n * n > 0) by (nonlinear_arith)
            requires
                n > 0,
        ;
    }
    let mut max: u32 = herd.occupancy[0];
    for c in 0..herd.occupancy.len()
        invariant
            counts == herd.occupancy@,
            counts.len() > 0,
            forall|j: int| 0 <= j < c ==> #[trigger] counts[j] <= max,
            exists|j: int| 0 <= j < counts.len() && #[trigger] counts[j] == max,
    {
        if herd.occupancy[c] > max {
            max = herd.occupancy[c];
        }
    }
    Occupancy { max: max as usize }
}

impl Herd {
    /// Whether the herd can start on a tick of a region.
    pub fn ready(&self, w: &Region) -> (yes: bool)
        requires
            self@.wf(),
            w@.wf(),
        ensures
            yes == can_start(self@, w@),
    {
        let slots: usize = w.id_space();
        if self.pending.len() > 0 {
            return slots == 0;
        }
        if self.minds.len() > slots || slots as u64 > u32::MAX as u64 - MAX_SPAWNS_PER_TICK as u64
            || self.deaths > u64::MAX - slots as u64 || self.births > u64::MAX
            - MAX_SPAWNS_PER_TICK as u64 {
            return false;
        }
        let n: usize = self.minds.len();
        for i in 0..n
            invariant
                n == self@.minds.len(),
                n <= slots,
                slots == w@.slots(),
                w@.wf(),
                self@.pending.len() == 0,
                forall|j: int|
                    0 <= j < i && moves(self@, w@, j) ==> in_reach(#[trigger] ground(w@, j)),
        {
            let m: Mind = self.minds[i];
            let x: i32 = w.x(i);
            let y: i32 = w.y(i);
            if w.contains(i as u32) && m.mine && m.speed > 0 && !(-0x1000_0000 <= x && x
                <= 0x5000_0000 && -0x1000_0000 <= y && y <= 0x5000_0000) {
                assert(moves(self@, w@, i as int) && !in_reach(ground(w@, i as int)));
                return false;
            }
        }
        true
    }

    /// Whether the population is still waiting for the first step.
    pub fn waiting(&self) -> (waiting: bool)
        ensures
            waiting == (self@.pending.len() > 0),
    {
        self.pending.len() > 0
    }

    /// Entities a client could plausibly be attached to.
    pub fn residents(&self) -> (ids: &Vec<u32>)
        ensures
            ids@ == self@.residents,
    {
        &self.residents
    }

    /// The entities that clients are attached to, if as many as that many are.
    pub fn avatars(&self, viewers: usize) -> (ids: Vec<u32>)
        ensures
            ids@ == self@.residents.take(
                if viewers < self@.residents.len() {
                    viewers as int
                } else {
                    self@.residents.len() as int
                },
            ),
    {
        let mut ids: Vec<u32> = Vec::new();
        let mut n: usize = viewers;
        if self.residents.len() < n {
            n = self.residents.len();
        }
        for k in 0..n
            invariant
                n <= self.residents@.len(),
                ids@ == self.residents@.take(k as int),
        {
            ids.push(self.residents[k]);
            assert(ids@ =~= self.residents@.take(k + 1));
        }
        ids
    }

    /// Slots ever allocated. None is reused, so this is the measure of what a
    /// long run has grown to.
    pub fn slots(&self) -> (n: usize)
        ensures
            n == self@.minds.len(),
    {
        self.minds.len()
    }

    /// How many have died.
    pub fn deaths(&self) -> (n: u64)
        ensures
            n == self@.deaths,
    {
        self.deaths
    }

    /// How many have been spawned to replace the dead.
    pub fn births(&self) -> (n: u64)
        ensures
            n == self@.births,
    {
        self.births
    }

    /// What the game keeps of an entity.
    pub fn mind(&self, i: usize) -> (m: Mind)
        requires
            i < self@.minds.len(),
        ensures
            m == self@.minds[i as int],
    {
        self.minds[i]
    }

    /// Sets how much of a crowd's excess hurts.
    pub fn set_damage_divisor(&mut self, divisor: usize)
        ensures
            final(self)@ == (HerdState { damage_divisor: divisor, ..old(self)@ }),
            old(self)@.wf() ==> final(self)@.wf(),
    {
        let ghost h = self@;
        self.damage_divisor = divisor;
        proof {
            if h.wf() {
                a_setting_keeps_wf(h, self@);
            }
        }
    }

    /// Sets how many a cell holds before it hurts.
    pub fn set_crowd_threshold(&mut self, threshold: usize)
        ensures
            final(self)@ == (HerdState { crowd_threshold: threshold, ..old(self)@ }),
            old(self)@.wf() ==> final(self)@.wf(),
    {
        let ghost h = self@;
        self.crowd_threshold = threshold;
        proof {
            if h.wf() {
                a_setting_keeps_wf(h, self@);
            }
        }
    }
}

/// A herd stays well-formed when it draws or its settings change.
proof fn a_setting_keeps_wf(h: HerdState, after: HerdState)
    requires
        h.wf(),
        after == (HerdState {
            rng: after.rng,
            crowd_threshold: after.crowd_threshold,
            damage_divisor: after.damage_divisor,
            ..h
        }),
    ensures
        after.wf(),
{
    assert forall|k: int| 0 <= k < after.residents.len() implies after.is_resident(
        #[trigger] after.residents[k] as int,
    ) by {
        assert(h.is_resident(h.residents[k] as int));
    }
}

/// The far edge of a cell inside the region is inside the region.
proof fn edges_fit(world: World, x: int)
    requires
        world.wf(),
        0 <= x < world.region_size,
    ensures
        0 <= x / world.cell_size as int,
        0 <= (x / world.cell_size as int + 1) * world.cell_size <= world.region_size,
{
    let size = world.cell_size as int;
    let n = world.cells_per_axis as int;
    let q = x / size;
    assert(0 <= q < n) by (nonlinear_arith)
        requires
            q == x / size,
            0 <= x < size * n,
            size > 0,
    ;
    assert(0 <= (q + 1) * size <= size * n) by (nonlinear_arith)
        requires
            0 <= q < n,
            size > 0,
    ;
}

/// A herd stays well-formed when it gains an entity, and lists it as a resident
/// only if it is one.
proof fn one_more_keeps_wf(h: HerdState, after: HerdState)
    requires
        h.wf(),
        after.minds.len() == h.minds.len() + 1,
        after.minds =~= h.minds.push(after.minds.last()),
        after.minds.last().wf(),
        after.residents == h.residents || {
            &&& after.residents == h.residents.push(h.minds.len() as u32)
            &&& after.is_resident(h.minds.len() as u32 as int)
        },
        after == (HerdState {
            minds: after.minds,
            rng: after.rng,
            residents: after.residents,
            pending: after.pending,
            births: after.births,
            ..h
        }),
        after.pending.len() > 0 ==> after.pending.len() == after.minds.len() <= u32::MAX,
    ensures
        after.wf(),
{
    assert forall|j: int| 0 <= j < after.minds.len() implies (#[trigger] after.minds[j]).wf() by {
        if j < h.minds.len() {
            assert(h.minds[j].wf());
        }
    }
    assert forall|k: int| 0 <= k < after.residents.len() implies after.is_resident(
        #[trigger] after.residents[k] as int,
    ) by {
        if k < h.residents.len() {
            assert(h.is_resident(h.residents[k] as int));
        }
    }
}

/// The motion classes: a share in a hundred, meters per second, and thousandths.
pub fn mix() -> (m: Vec<(u32, i32, i32)>)
    ensures
        m@ == classes(),
{
    let mut m: Vec<(u32, i32, i32)> = Vec::new();
    m.push((35, 0, 0));
    m.push((25, 0, 200));
    m.push((25, 1, 500));
    m.push((10, 6, 0));
    m.push((5, 30, 0));
    assert(m@ =~= classes());
    m
}

/// Meters per second and thousandths of the motion class that a roll below 100
/// picks.
fn class(roll: u32) -> (c: (i32, i32))
    ensures
        (c.0 as int, c.1 as int) == class_of(roll as int),
{
    if roll < 35 {
        (0, 0)
    } else if roll < 60 {
        (0, 200)
    } else if roll < 85 {
        (1, 500)
    } else if roll < 95 {
        (6, 0)
    } else {
        (30, 0)
    }
}

/// A tick in a crowd changes nothing of an entity but its health.
proof fn only_health_changes(h: HerdState, w: RegionState)
    requires
        h.wf(),
    ensures
        hurt(h, w).wf(),
        forall|i: int|
            0 <= i < h.minds.len() ==> (#[trigger] hurt(h, w).minds[i]).same_nature(h.minds[i]),
{
    let after = hurt(h, w);
    assert forall|j: int| 0 <= j < after.minds.len() implies (#[trigger] after.minds[j]).wf() by {
        assert(h.minds[j].wf());
    }
    assert forall|k: int| 0 <= k < after.residents.len() implies after.is_resident(
        #[trigger] after.residents[k] as int,
    ) by {
        assert(h.is_resident(h.residents[k] as int));
    }
}

} // verus!
