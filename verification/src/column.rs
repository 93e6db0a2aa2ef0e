//! The column a crowd stands in, in meters and seconds.
//!
//! The laws of where a crowd's entities start, how they pace, and which of them
//! leave and come.

use vstd::prelude::*;

use crate::crowd::{
    a_sweep_repeats_nothing, all_paced, asks, attended, can_churn, churns, going, migrates,
    moved_over, nobody, paced, population, refusal, start, sweep_len, taking_on_keeps_the_rest, took_on, went_through,
    whereabouts, CrowdState, Held,
};
use crate::ids::{EntityKind, RegionId};
use crate::link::Call;
use crate::units::Pos3;
use crate::upkeep::moving_over_changes_what_moved;

verus! {

/// Where a call asks for an entity, or leaves one.
pub open spec fn asked_at<E>(call: Call<E>) -> Pos3 {
    match call {
        Call::Spawn { at, .. } => at,
        Call::Migrate { at, .. } => at,
        _ => Pos3 { x: 0, y: 0, z: 0 },
    }
}

/// The places of one column, by number.
proof fn a_place_of_a_column(lane: i32, k: usize)
    requires
        -2_097_118 <= lane <= 2_097_117,
    ensures
        start(lane, k).x == lane * 1024,
        start(lane, k).z == 0,
        65536 <= start(lane, k).y <= 3135 * 1024,
        start(lane, k).y == 65536 + 1024 * (k as int % 3072),
{
}

/// What a crowd asks for starts in its lane, on the ground, in a column: each a
/// meter north of the one before, from 64 m on, until 3072 places are taken, and
/// then from the first again. So of any 3072 in a row no two start at one place.
pub proof fn a_column_fills_a_meter_at_a_time<E>(
    c: CrowdState,
    kinds: Seq<EntityKind>,
    said: Seq<Call<E>>,
    j: int,
    k: int,
)
    requires
        c.wf(),
        asks(c, kinds, said),
        c.next + said.len() <= usize::MAX,
        0 <= j < k < said.len(),
    ensures
        ({
            let a = asked_at(said[j]);
            let b = asked_at(said[k]);
            &&& a.x == c.lane * 1024
            &&& b.x == c.lane * 1024
            &&& a.z == 0
            &&& b.z == 0
            &&& 65536 <= a.y < 65536 + 3072 * 1024
            &&& k - j < 3072 ==> a.y != b.y
            &&& k == j + 1 && a.y < 65536 + 3071 * 1024 ==> b.y == a.y + 1024
            &&& k == j + 1 && a.y == 65536 + 3071 * 1024 ==> b.y == 65536
            &&& k == j + 3072 ==> a.y == b.y
            &&& c.next == 0 && k < 3072 ==> b.y == 65536 + 1024 * k
            &&& c.next == 0 && j == 0 ==> a.y == 65536
        }),
{
    let p = c.next + j;
    let q = c.next + k;
    assert(said[j] is Spawn);
    assert(said[k] is Spawn);
    a_place_of_a_column(c.lane, p as usize);
    a_place_of_a_column(c.lane, q as usize);
}

/// The next a crowd asks for starts a meter north of the last it asked for, also
/// where that was in an earlier call: the place of one that is refused is used up
/// too.
pub proof fn the_next_starts_a_meter_north<E>(
    c: CrowdState,
    first: Seq<Call<E>>,
    kinds: Seq<EntityKind>,
    more: Seq<EntityKind>,
    second: Seq<Call<E>>,
)
    requires
        c.wf(),
        c.next == 0,
        asks(c, kinds, first),
        first.len() > 0,
        second.len() > 0,
        first.len() + second.len() <= usize::MAX,
        asks(took_on(c, first), more, second),
    ensures
        ({
            let a = asked_at(first.last());
            let b = asked_at(second[0]);
            &&& b.x == a.x
            &&& b.z == a.z
            &&& a.y < 65536 + 3071 * 1024 ==> b.y == a.y + 1024
            &&& a.y == 65536 + 3071 * 1024 ==> b.y == 65536
        }),
{
    taking_on_keeps_the_rest(c, first);
    let n = first.len();
    assert(first[n - 1] is Spawn);
    assert(second[0] is Spawn);
    a_place_of_a_column(c.lane, (n - 1) as usize);
    a_place_of_a_column(c.lane, n as usize);
}

/// What was asked for and not refused is held as it was asked for: by the handle
/// that came back, at home, where it was asked for, headed east, and waiting for an
/// id. What was held before is held as it was.
pub proof fn what_is_asked_for_is_held<E>(
    c: CrowdState,
    kinds: Seq<EntityKind>,
    said: Seq<Call<E>>,
    k: int,
)
    requires
        asks(c, kinds, said),
        c.next + said.len() <= usize::MAX,
        0 <= k < said.len(),
        forall|j: int| 0 <= j < said.len() ==> refusal(#[trigger] said[j]) is None,
    ensures
        ({
            let after = took_on(c, said);
            let one = after.held[c.held.len() + k];
            &&& after.held.len() == c.held.len() + said.len()
            &&& after.next == c.next + said.len()
            &&& forall|i: int| 0 <= i < c.held.len() ==> #[trigger] after.held[i] == c.held[i]
            &&& said[k] matches Call::Spawn { region, at, kind, answer: Ok(handle) }
            &&& region == c.home
            &&& kind == kinds[k]
            &&& one.handle == handle
            &&& one.kind == kind
            &&& one.region == c.home
            &&& one.at == at
            &&& one.heading == 1
            &&& one.entity is None
        }),
    decreases said.len(),
{
    taking_on_keeps_the_rest(c, said);
    all_are_held(c, kinds, said);
    let n = said.len() as int;
    let rest = said.drop_last();
    assert(refusal(said[k]) is None);
    assert(said[k] is Spawn);
    if k < n - 1 {
        assert(asks(c, kinds, rest)) by {
            assert forall|j: int| 0 <= j < rest.len() implies {
                &&& #[trigger] rest[j] matches Call::Spawn { region, at, kind, .. }
                &&& region == c.home
                &&& at == start(c.lane, (c.next + j) as usize)
                &&& kind == kinds[j]
            } by {
                assert(rest[j] == said[j]);
            }
        }
        assert forall|j: int| 0 <= j < rest.len() implies refusal(#[trigger] rest[j]) is None by {
            assert(rest[j] == said[j]);
        }
        what_is_asked_for_is_held(c, kinds, rest, k);
        all_are_held(c, kinds, rest);
        assert(rest[k] == said[k]);
        assert(said.last() == said[n - 1]);
    } else {
        taking_on_keeps_the_rest(c, rest);
        assert forall|j: int| 0 <= j < rest.len() implies refusal(#[trigger] rest[j]) is None by {
            assert(rest[j] == said[j]);
        }
        assert(asks(c, kinds, rest)) by {
            assert forall|j: int| 0 <= j < rest.len() implies {
                &&& #[trigger] rest[j] matches Call::Spawn { region, at, kind, .. }
                &&& region == c.home
                &&& at == start(c.lane, (c.next + j) as usize)
                &&& kind == kinds[j]
            } by {
                assert(rest[j] == said[j]);
            }
        }
        all_are_held(c, kinds, rest);
        assert(said.last() == said[k]);
    }
}

/// When nothing is refused, everything asked for is held.
proof fn all_are_held<E>(c: CrowdState, kinds: Seq<EntityKind>, said: Seq<Call<E>>)
    requires
        asks(c, kinds, said),
        c.next + said.len() <= usize::MAX,
        forall|j: int| 0 <= j < said.len() ==> refusal(#[trigger] said[j]) is None,
    ensures
        took_on(c, said).held.len() == c.held.len() + said.len(),
    decreases said.len(),
{
    if said.len() > 0 {
        let rest = said.drop_last();
        assert(said.last() == said[said.len() - 1]);
        assert(said.last() is Spawn && refusal(said.last()) is None);
        assert forall|j: int| 0 <= j < rest.len() implies {
            &&& #[trigger] rest[j] matches Call::Spawn { region, at, kind, .. }
            &&& region == c.home
            &&& at == start(c.lane, (c.next + j) as usize)
            &&& kind == kinds[j]
        } by {
            assert(rest[j] == said[j]);
        }
        assert forall|j: int| 0 <= j < rest.len() implies refusal(#[trigger] rest[j]) is None by {
            assert(rest[j] == said[j]);
        }
        all_are_held(c, kinds, rest);
    }
}

/// A new crowd holds no one, has used no place, and has walked no one over. Its
/// walkers cover two meters a second at however many sends a second it was told: the
/// whole units of that in each. None at all is taken for one.
pub proof fn a_walker_covers_two_meters_a_second(
    home: RegionId,
    away: Option<RegionId>,
    lane: i32,
    send_hz: u32,
)
    ensures
        ({
            let c = nobody(home, away, lane, send_hz);
            &&& send_hz >= 1 ==> c.step * send_hz <= 2048 < (c.step + 1) * send_hz
            &&& send_hz == 0 ==> c.step == 2048
            &&& c.held.len() == 0
            &&& c.lane == lane
            &&& c.next == 0
            &&& c.home == home
            &&& c.away == away
            &&& c.cursor == 0
            &&& c.migrated == 0
        }),
{
    let hz = if send_hz > 1 {
        send_hz as int
    } else {
        1
    };
    let v = 2048int / hz;
    vstd::arithmetic::div_mod::lemma_fundamental_div_mod(2048, hz);
    vstd::arithmetic::div_mod::lemma_mod_bound(2048, hz);
    vstd::arithmetic::div_mod::lemma_div_pos_is_pos(2048, hz);
    assert(v * hz == hz * v && (v + 1) * hz == hz * v + hz) by (nonlinear_arith);
    assert(v <= 2048) by (nonlinear_arith)
        requires
            v * hz <= 2048,
            v >= 0,
            hz >= 1,
    ;
}

/// A walker takes its step east or west, as it is headed, unless that would take it
/// out of the 32 m either side of its lane, counted in whole meters rounded down.
/// Then it stays and turns around. Nothing else of it changes, and of the crowd only
/// the walkers do. What the edge is told is where each of them now is, by handle.
pub proof fn a_walker_turns_at_thirty_two_meters(c: CrowdState, i: int)
    requires
        c.wf(),
        0 <= i < c.held.len(),
    ensures
        ({
            let one = c.held[i];
            let after = all_paced(c);
            let now = after.held[i];
            let x = if one.heading == 1 {
                one.at.x + c.step
            } else {
                one.at.x - c.step
            };
            let inside = (c.lane - 32) * 1024 <= x < (c.lane + 33) * 1024;
            &&& inside ==> now.at.x == x && now.heading == one.heading
            &&& !inside ==> now.at.x == one.at.x && now.heading == -one.heading
            &&& now.at.y == one.at.y
            &&& now.at.z == one.at.z
            &&& now.handle == one.handle
            &&& now.kind == one.kind
            &&& now.region == one.region
            &&& now.entity == one.entity
            &&& after == (CrowdState { held: after.held, ..c })
            &&& after.held.len() == c.held.len()
            &&& whereabouts(after.held).len() == c.held.len()
            &&& whereabouts(after.held)[i] == (one.handle, now.at)
        }),
{
    let one = c.held[i];
    assert(one.wf(c.lane as int));
    assert(c.step * one.heading == c.step || c.step * one.heading == -c.step) by (nonlinear_arith)
        requires
            one.heading == 1 || one.heading == -1,
    ;
    assert(one.heading == 1 ==> c.step * one.heading == c.step) by (nonlinear_arith);
    assert(one.heading == -1 ==> c.step * one.heading == -c.step) by (nonlinear_arith);
    assert(all_paced(c).held[i] == paced(c, one));
}

/// Of a population, as many as were asked for have a client behind them, and they
/// are asked for first.
pub proof fn observers_are_asked_for_first(observers: int, total: int, k: int)
    requires
        0 <= observers <= total,
        0 <= k < total,
    ensures
        population(observers, total).len() == total,
        population(observers, total)[k] == EntityKind::Observer <==> k < observers,
        population(observers, total)[k] == EntityKind::Unattended <==> observers <= k,
{
}

/// How many of those held from a place on have a client behind them.
pub open spec fn observers_from(held: Seq<Held>, i: int) -> int
    decreases held.len() - i,
{
    if i >= held.len() {
        0
    } else {
        observers_from(held, i + 1) + if held[i].kind == EntityKind::Observer {
            1int
        } else {
            0
        }
    }
}

/// The observers from a place on, when the last is known.
proof fn observers_from_the_end(held: Seq<Held>, i: int)
    requires
        0 <= i < held.len(),
    ensures
        observers_from(held, i) == observers_from(held.drop_last(), i) + if held.last().kind
            == EntityKind::Observer {
            1int
        } else {
            0
        },
        observers_from(held, i) >= 0,
    decreases held.len() - i,
{
    if i < held.len() - 1 {
        observers_from_the_end(held, i + 1);
        assert(held.drop_last()[i] == held[i]);
    } else {
        assert(observers_from(held, i + 1) == 0);
        assert(observers_from(held.drop_last(), i) == 0);
    }
}

/// Observers leave from the end of a crowd: one is given back after all those held
/// behind it.
pub proof fn the_last_observers_leave_first(held: Seq<Held>, i: int)
    requires
        0 <= i < held.len(),
        held[i].kind == EntityKind::Observer,
    ensures
        0 <= observers_from(held, i + 1) < attended(held).len(),
        attended(held)[observers_from(held, i + 1)] == held[i].handle,
        attended(held).len() == observers_from(held, 0),
    decreases held.len(),
{
    let front = held.drop_last();
    let n = held.len() as int;
    attended_are_counted(held);
    if i == n - 1 {
        assert(observers_from(held, n) == 0);
    } else {
        observers_from_the_end(held, i + 1);
        the_last_observers_leave_first(front, i);
    }
}

/// Those who can leave are the observers.
proof fn attended_are_counted(held: Seq<Held>)
    ensures
        attended(held).len() == observers_from(held, 0),
    decreases held.len(),
{
    if held.len() > 0 {
        attended_are_counted(held.drop_last());
        observers_from_the_end(held, 0);
    }
}

/// A sweep looks at as many as it was told to, and at no more than there are.
pub proof fn a_sweep_looks_at_as_many_as_told(c: CrowdState, n: usize)
    ensures
        sweep_len(c, n) <= n,
        sweep_len(c, n) <= c.held.len(),
        sweep_len(c, n) == n || sweep_len(c, n) == c.held.len(),
{
}

/// Every move that was not refused is counted, once.
pub proof fn every_move_is_counted<E>(
    c: CrowdState,
    away: RegionId,
    places: Seq<int>,
    said: Seq<Call<E>>,
)
    requires
        c.migrated + said.len() <= u64::MAX,
        said.len() <= places.len(),
        forall|k: int| 0 <= k < places.len() ==> 0 <= #[trigger] places[k] < c.held.len(),
        forall|k: int| 0 <= k < said.len() ==> #[trigger] said[k] is Migrate,
        forall|k: int| 0 <= k < said.len() - 1 ==> refusal(#[trigger] said[k]) is None,
    ensures
        ({
            let after = moved_over(c, away, places, said);
            &&& said.len() > 0 && refusal(said.last()) is Some ==> after.migrated == c.migrated
                + said.len() - 1
            &&& said.len() == 0 || refusal(said.last()) is None ==> after.migrated == c.migrated
                + said.len()
            &&& after.held.len() == c.held.len()
            &&& after.next == c.next
            &&& after.cursor == c.cursor
        }),
    decreases said.len(),
{
    if said.len() > 0 {
        let rest = said.drop_last();
        assert(said.last() == said[said.len() - 1]);
        assert forall|k: int| 0 <= k < rest.len() implies #[trigger] rest[k] is Migrate && refusal(
            rest[k],
        ) is None by {
            assert(rest[k] == said[k]);
        }
        every_move_is_counted(c, away, places, rest);
        if rest.len() > 0 {
            assert(rest.last() == rest[rest.len() - 1]);
        }
    }
}

/// Whether calls ended as an answer says: with none refused, or at the first that was,
/// for the reason it was.
pub open spec fn ended_as<E>(said: Seq<Call<E>>, failed: Option<E>) -> bool {
    match failed {
        None => forall|k: int| 0 <= k < said.len() ==> refusal(#[trigger] said[k]) is None,
        Some(e) => {
            &&& said.len() > 0
            &&& refusal(said[said.len() - 1]) == Some(e)
            &&& forall|k: int| 0 <= k < said.len() - 1 ==> refusal(#[trigger] said[k]) is None
        },
    }
}

/// What goes through is all said and none of it refused. What fails ends with the
/// first call that was refused, for its reason, and says no more than it would have.
pub proof fn the_first_refusal_ends_it<E>(said: Seq<Call<E>>, full: int, failed: Option<E>)
    requires
        went_through(said, full, failed),
        full >= 0,
    ensures
        ended_as(said, failed),
        failed is None ==> said.len() == full,
        failed is Some ==> said.len() <= full,
{
    if said.len() > 0 {
        assert(said.last() == said[said.len() - 1]);
    }
}

/// What is said in two parts, the first without a refusal, ends as the second does.
pub(crate) proof fn going_on_ends_as_it_ends<E>(said: Seq<Call<E>>, k: int, failed: Option<E>)
    requires
        0 <= k <= said.len(),
        ended_as(said.take(k), None),
        ended_as(said.skip(k), failed),
    ensures
        ended_as(said, failed),
{
    let first = said.take(k);
    let second = said.skip(k);
    let n = said.len() as int;
    assert forall|j: int| 0 <= j < k implies refusal(#[trigger] said[j]) is None by {
        assert(first[j] == said[j]);
    }
    let end = if failed is None {
        n
    } else {
        n - 1
    };
    assert forall|j: int| k <= j < end implies refusal(#[trigger] said[j]) is None by {
        assert(second[j - k] == said[j]);
    }
    if failed is Some {
        assert(second[second.len() - 1] == said[n - 1]);
    }
}

/// A churn ends at the first call that is refused, and fails for its reason. Otherwise
/// it says how many it gave back: none, if it had nothing to do, and as many as it was
/// told, if it did; and of calls it made twice as many.
pub proof fn a_churn_ends_at_the_first_refusal<E>(
    c: CrowdState,
    n: usize,
    said: Seq<Call<E>>,
    r: Result<usize, E>,
    after: CrowdState,
)
    requires
        churns(c, n, said, r, after),
    ensures
        ended_as(said, r.err()),
        r matches Ok(k) ==> said.len() == 2 * k && (k == 0 || k == n),
        r matches Ok(k) ==> (k == n <==> n <= attended(c.held).len()),
{
    if can_churn(c.held, n as int) {
        let d = if said.len() < n {
            said.len() as int
        } else {
            n as int
        };
        let given = said.take(d);
        let asked = said.skip(d);
        match refusal(given.last()) {
            Some(e) => {
                the_first_refusal_ends_it(given, n as int, Some(e));
                assert(said =~= given);
            },
            None => {
                the_first_refusal_ends_it(given, n as int, None);
                the_first_refusal_ends_it(asked, n as int, r.err());
                going_on_ends_as_it_ends(said, d, r.err());
            },
        }
    }
}

/// A migration ends at the first move that is refused, and fails for its reason.
pub proof fn a_migration_ends_at_the_first_refusal<E>(
    c: CrowdState,
    n: usize,
    said: Seq<Call<E>>,
    r: Result<(), E>,
    after: CrowdState,
)
    requires
        migrates(c, n, said, r, after),
    ensures
        ended_as(said, r.err()),
        c.away is None ==> said.len() == 0 && r is Ok && after == c,
{
    let k = sweep_len(c, n);
    match c.away {
        Some(away) if k > 0 => {
            the_first_refusal_ends_it(said, going(c, k).len() as int, r.err());
        },
        _ => {},
    }
}

/// Who stands that many after the cursor, going round.
pub open spec fn after_the_cursor(c: CrowdState, j: int) -> int {
    (c.cursor + 1 + j) % c.held.len() as int
}

/// How many of the first `j` after the cursor the regions have answered for.
pub open spec fn answered_for(c: CrowdState, j: int) -> int
    decreases j,
{
    if j <= 0 {
        0
    } else {
        answered_for(c, j - 1) + if c.held[after_the_cursor(c, j - 1)].entity is Some {
            1int
        } else {
            0
        }
    }
}

/// A sweep takes those answered for in order.
proof fn a_sweep_is_in_order(c: CrowdState, steps: int, k: int) -> (j: int)
    ensures
        going(c, steps).len() == answered_for(c, steps),
        0 <= k < going(c, steps).len() ==> {
            &&& 0 <= j < steps
            &&& answered_for(c, j) == k
            &&& going(c, steps)[k] == after_the_cursor(c, j)
            &&& c.held[after_the_cursor(c, j)].entity is Some
        },
    decreases steps,
{
    if steps <= 0 {
        0
    } else {
        let j = a_sweep_is_in_order(c, steps - 1, k);
        if k == answered_for(c, steps - 1) {
            steps - 1
        } else {
            j
        }
    }
}

/// A migration looks at as many as it was told to, and at no more than there are, one
/// after the other from behind the cursor, going round, and leaves the cursor at the
/// last. It moves those that the regions have answered for, in that order: each by its
/// handle, at the place where it stands, home if it is away and away if it is home.
/// What is moved goes by the handle that came back, in the other region, and waits
/// for an id.
pub proof fn a_migration_goes_round<E>(
    c: CrowdState,
    n: usize,
    said: Seq<Call<E>>,
    r: Result<(), E>,
    after: CrowdState,
    k: int,
) -> (j: int)
    requires
        migrates(c, n, said, r, after),
        c.migrated + c.held.len() <= u64::MAX,
        0 < c.held.len() <= usize::MAX,
        c.away is Some,
        n > 0,
        0 <= k < said.len(),
    ensures
        ({
            let i = after_the_cursor(c, j);
            let one = c.held[i];
            let steps = if n < c.held.len() {
                n as int
            } else {
                c.held.len() as int
            };
            let there = if one.region == c.home {
                c.away->0
            } else {
                c.home
            };
            &&& 0 <= j < steps
            &&& 0 <= i < c.held.len()
            &&& one.entity is Some
            &&& answered_for(c, j) == k
            &&& r is Ok ==> said.len() == answered_for(c, steps)
            &&& after.cursor == (c.cursor + steps) % c.held.len() as int
            &&& said[k] matches Call::Migrate { handle, to, at, answer }
            &&& handle == one.handle
            &&& to == there
            &&& at == one.at
            &&& answer matches Ok(new) ==> after.held[i] == (Held {
                handle: new,
                region: there,
                entity: None,
                ..one
            })
            &&& answer is Err ==> after.held[i] == one
        }),
{
    let steps = sweep_len(c, n);
    let away = c.away->0;
    let places = going(c, steps);
    a_sweep_repeats_nothing(c, steps);
    the_first_refusal_ends_it(said, places.len() as int, r.err());
    moving_over_changes_what_moved(c, away, places, said);
    let j = a_sweep_is_in_order(c, steps, k);
    let i = places[k];
    assert(said[k] is Migrate);
    assert(0 <= places[k] < c.held.len());
    assert(said.last() == said[said.len() - 1]);
    vstd::arithmetic::div_mod::lemma_mod_bound(c.cursor + steps, c.held.len() as int);
    if said[k]->Migrate_answer is Err {
        assert(refusal(said[k]) is Some);
        assert(k == said.len() - 1);
        assert forall|a: int| 0 <= a < said.len() - 1 implies #[trigger] places[a] != i by {
            assert(places[a] != places[k]);
        }
    } else {
        assert(refusal(said[k]) is None);
    }
    j
}

} // verus!
