//! How a crowd is kept.
//!
//! An edge forgets a handle the moment the entity is given back or has moved on,
//! so a crowd must never name it again. Whatever is churned or migrated, in
//! whatever order, it names only what it holds, and it holds nothing forgotten.

use vstd::prelude::*;

use crate::crowd::{
    a_sweep_repeats_nothing, all_named, attended, can_churn, churns, gives_back, going, is_first,
    kept, leaving, migrates, moved_over, moves_over, next_spot, other_side, refusal, settled, spot,
    spots_differ, sweep_len, taking_on_keeps_the_rest, thinned, took_on, went_through, whereabouts,
    CrowdState, Held,
};
use crate::ids::{EntityHandle, EntityId, EntityKind, RegionId};
use crate::link::Call;
use crate::reports::Heard;

verus! {

/// Whether a crowd holds an entity of that handle.
pub open spec fn holds(held: Seq<Held>, handle: EntityHandle) -> bool {
    exists|i: int| 0 <= i < held.len() && (#[trigger] held[i]).handle == handle
}

/// Whether no two entities go by one handle, and none by a forgotten one.
pub open spec fn is_clear(held: Seq<Held>, forgotten: Set<EntityHandle>) -> bool {
    &&& forall|i: int, j: int|
        0 <= i < j < held.len() ==> (#[trigger] held[i]).handle != (#[trigger] held[j]).handle
    &&& forall|i: int| 0 <= i < held.len() ==> !forgotten.contains((#[trigger] held[i]).handle)
}

/// The handle a call was answered with.
pub open spec fn issued<E>(call: Call<E>) -> Option<EntityHandle> {
    match call {
        Call::Spawn { answer: Ok(handle), .. } => Some(handle),
        Call::Migrate { answer: Ok(handle), .. } => Some(handle),
        _ => None,
    }
}

/// The handle a call made the edge forget.
pub open spec fn given_up<E>(call: Call<E>) -> Option<EntityHandle> {
    match call {
        Call::Despawn { handle, done: Ok(_) } => Some(handle),
        Call::Migrate { handle, answer: Ok(_), .. } => Some(handle),
        _ => None,
    }
}

/// Whether an edge issues each handle once: none that is held, none that it has
/// forgotten, and none twice.
pub open spec fn issues_afresh<E>(
    held: Seq<Held>,
    forgotten: Set<EntityHandle>,
    said: Seq<Call<E>>,
) -> bool {
    &&& forall|k: int|
        0 <= k < said.len() ==> (issued(#[trigger] said[k]) matches Some(handle) ==> {
            &&& !holds(held, handle)
            &&& !forgotten.contains(handle)
        })
    &&& forall|j: int, k: int|
        0 <= j < k < said.len() && issued(said[j]) is Some ==> issued(#[trigger] said[j]) != issued(
            #[trigger] said[k],
        )
}

/// What an edge has forgotten after a run of calls.
pub open spec fn forgotten_after<E>(forgotten: Set<EntityHandle>, said: Seq<Call<E>>) -> Set<
    EntityHandle,
> {
    Set::new(
        |handle: EntityHandle|
            forgotten.contains(handle) || exists|k: int|
                0 <= k < said.len() && given_up(#[trigger] said[k]) == Some(handle),
    )
}

/// Whether a call names only entities that are held.
pub open spec fn names_only_held<E>(held: Seq<Held>, call: Call<E>) -> bool {
    match call {
        Call::Spawn { .. } => true,
        Call::Migrate { handle, .. } => holds(held, handle),
        Call::Despawn { handle, .. } => holds(held, handle),
        Call::Moved { moves, .. } => forall|k: int|
            0 <= k < moves.len() ==> holds(held, (#[trigger] moves[k]).0),
    }
}

/// What is kept was held, in the same order, and does not leave; what does not
/// leave is kept.
pub(crate) proof fn keeping(held: Seq<Held>, gone: Seq<EntityHandle>)
    ensures
        kept(held, gone).len() <= held.len(),
        forall|i: int|
            0 <= i < kept(held, gone).len() ==> {
                &&& !gone.contains((#[trigger] kept(held, gone)[i]).handle)
                &&& exists|j: int| i <= j < held.len() && kept(held, gone)[i] == #[trigger] held[j]
            },
        forall|j: int|
            0 <= j < held.len() && !gone.contains((#[trigger] held[j]).handle) ==> kept(
                held,
                gone,
            ).contains(held[j]),
    decreases held.len(),
{
    if held.len() > 0 {
        let front = held.drop_last();
        let rest = kept(front, gone);
        let all = kept(held, gone);
        keeping(front, gone);
        assert forall|i: int| 0 <= i < all.len() implies {
            &&& !gone.contains((#[trigger] all[i]).handle)
            &&& exists|j: int| i <= j < held.len() && all[i] == #[trigger] held[j]
        } by {
            if i < rest.len() {
                assert(all[i] == rest[i]);
                let j = choose|j: int| i <= j < front.len() && rest[i] == #[trigger] front[j];
                assert(held[j] == front[j]);
            } else {
                assert(all[i] == held[held.len() - 1]);
            }
        }
        assert forall|j: int|
            0 <= j < held.len() && !gone.contains((#[trigger] held[j]).handle) implies all.contains(
            held[j],
        ) by {
            if j < front.len() {
                assert(front[j] == held[j]);
                assert(rest.contains(front[j]));
                let i = choose|i: int| 0 <= i < rest.len() && rest[i] == held[j];
                assert(all[i] == held[j]);
            } else {
                assert(all[rest.len() as int] == held[j]);
            }
        }
    }
}

/// What is kept of a clear crowd is clear.
proof fn keeping_stays_clear(
    held: Seq<Held>,
    gone: Seq<EntityHandle>,
    forgotten: Set<EntityHandle>,
)
    requires
        is_clear(held, forgotten),
    ensures
        is_clear(kept(held, gone), forgotten),
    decreases held.len(),
{
    keeping(held, gone);
    if held.len() > 0 {
        let front = held.drop_last();
        let rest = kept(front, gone);
        let all = kept(held, gone);
        assert(is_clear(front, forgotten)) by {
            assert forall|i: int, j: int| 0 <= i < j < front.len() implies (
            #[trigger] front[i]).handle != (#[trigger] front[j]).handle by {
                assert(held[i].handle != held[j].handle);
            }
            assert forall|i: int| 0 <= i < front.len() implies !forgotten.contains(
                (#[trigger] front[i]).handle,
            ) by {
                assert(!forgotten.contains(held[i].handle));
            }
        }
        keeping_stays_clear(front, gone, forgotten);
        keeping(front, gone);
        assert forall|i: int, j: int| 0 <= i < j < all.len() implies (#[trigger] all[i]).handle != (
        #[trigger] all[j]).handle by {
            assert(all[i] == rest[i]);
            if j < rest.len() {
                assert(all[j] == rest[j]);
            } else {
                let a = choose|a: int| i <= a < front.len() && rest[i] == #[trigger] front[a];
                assert(held[a].handle != held[held.len() - 1].handle);
            }
        }
        assert forall|i: int| 0 <= i < all.len() implies !forgotten.contains(
            (#[trigger] all[i]).handle,
        ) by {
            let j = choose|j: int| i <= j < held.len() && all[i] == #[trigger] held[j];
            assert(!forgotten.contains(held[j].handle));
        }
    }
}

/// Anything the edge says is gone stops being held, however it went, and nothing
/// else does.
pub proof fn settling_drops_what_is_gone(c: CrowdState, heard: Heard, handle: EntityHandle)
    requires
        heard.removed.contains(handle),
    ensures
        !holds(settled(c, heard).held, handle),
        forall|one: Held| #[trigger]
            all_named(c.held, heard.spawned).contains(one) && !heard.removed.contains(one.handle)
                ==> settled(c, heard).held.contains(one),
{
    keeping(all_named(c.held, heard.spawned), heard.removed);
}

/// An entity as the reports of ids leave it, if no two are of one handle.
pub open spec fn known(one: Held, spawned: Seq<(EntityHandle, RegionId, EntityId)>) -> Held {
    let k = choose|k: int| 0 <= k < spawned.len() && (#[trigger] spawned[k]).0 == one.handle;
    if 0 <= k < spawned.len() && spawned[k].0 == one.handle {
        Held { region: spawned[k].1, entity: Some((spawned[k].1, spawned[k].2)), ..one }
    } else {
        one
    }
}

/// Whether no two reports are of one handle.
pub open spec fn are_distinct(spawned: Seq<(EntityHandle, RegionId, EntityId)>) -> bool {
    forall|j: int, k: int|
        0 <= j < k < spawned.len() ==> (#[trigger] spawned[j]).0 != (#[trigger] spawned[k]).0
}

/// An entity that no report names is known by none.
proof fn the_unreported_are_as_they_were(
    one: Held,
    spawned: Seq<(EntityHandle, RegionId, EntityId)>,
)
    requires
        forall|k: int| 0 <= k < spawned.len() ==> (#[trigger] spawned[k]).0 != one.handle,
    ensures
        known(one, spawned) == one,
{
}

/// An entity that a report names takes its id and its region.
proof fn the_reported_are_known(
    one: Held,
    spawned: Seq<(EntityHandle, RegionId, EntityId)>,
    k: int,
)
    requires
        are_distinct(spawned),
        0 <= k < spawned.len(),
        spawned[k].0 == one.handle,
    ensures
        known(one, spawned) == (Held {
            region: spawned[k].1,
            entity: Some((spawned[k].1, spawned[k].2)),
            ..one
        }),
{
    let j = choose|j: int| 0 <= j < spawned.len() && (#[trigger] spawned[j]).0 == one.handle;
    if j < k {
        assert(spawned[j].0 != spawned[k].0);
    } else if k < j {
        assert(spawned[k].0 != spawned[j].0);
    }
}

/// With handles that differ, and one report of each at most, every entity takes
/// the id and the region that were reported for it.
proof fn naming_makes_known(held: Seq<Held>, spawned: Seq<(EntityHandle, RegionId, EntityId)>)
    requires
        is_clear(held, Set::empty()),
        are_distinct(spawned),
    ensures
        all_named(held, spawned) == held.map_values(|one: Held| known(one, spawned)),
    decreases spawned.len(),
{
    let all = all_named(held, spawned);
    naming_keeps_handles(held, spawned);
    if spawned.len() == 0 {
        assert forall|i: int| 0 <= i < held.len() implies #[trigger] all[i] == known(
            held[i],
            spawned,
        ) by {
            the_unreported_are_as_they_were(held[i], spawned);
        }
    } else {
        let front = spawned.drop_last();
        let report = spawned.last();
        let near = all_named(held, front);
        assert(are_distinct(front)) by {
            assert forall|j: int, k: int| 0 <= j < k < front.len() implies (
            #[trigger] front[j]).0 != (#[trigger] front[k]).0 by {
                assert(spawned[j].0 != spawned[k].0);
            }
        }
        naming_makes_known(held, front);
        naming_keeps_handles(held, front);
        assert forall|i: int| 0 <= i < held.len() implies #[trigger] all[i] == known(
            held[i],
            spawned,
        ) by {
            let one = held[i];
            assert(near[i].handle == one.handle);
            if one.handle == report.0 {
                assert(is_first(near, report.0, i)) by {
                    assert forall|j: int| 0 <= j < i implies (#[trigger] near[j]).handle
                        != report.0 by {
                        assert(held[j].handle != held[i].handle);
                    }
                }
                let f = choose|f: int| is_first(near, report.0, f);
                assert(is_first(near, report.0, f));
                assert(f == i) by {
                    if f < i {
                        assert(near[f].handle != report.0);
                    } else if i < f {
                        assert(near[i].handle != report.0);
                    }
                }
                the_reported_are_known(one, spawned, spawned.len() - 1);
                assert forall|k: int| 0 <= k < front.len() implies (#[trigger] front[k]).0
                    != one.handle by {
                    assert(spawned[k].0 != spawned[spawned.len() - 1].0);
                }
                the_unreported_are_as_they_were(one, front);
                assert(near[i] == known(one, front));
            } else {
                assert(all[i] == near[i]) by {
                    let f = choose|f: int| is_first(near, report.0, f);
                    if is_first(near, report.0, f) {
                        assert(near[f].handle == report.0);
                    }
                }
                assert(near[i] == known(one, front));
                if exists|k: int| 0 <= k < front.len() && (#[trigger] front[k]).0 == one.handle {
                    let k = choose|k: int|
                        0 <= k < front.len() && (#[trigger] front[k]).0 == one.handle;
                    assert(spawned[k] == front[k]);
                    the_reported_are_known(one, front, k);
                    the_reported_are_known(one, spawned, k);
                } else {
                    the_unreported_are_as_they_were(one, front);
                    assert forall|k: int| 0 <= k < spawned.len() implies (#[trigger] spawned[k]).0
                        != one.handle by {
                        if k < front.len() {
                            assert(front[k] == spawned[k]);
                        }
                    }
                    the_unreported_are_as_they_were(one, spawned);
                }
            }
        }
    }
    assert(all =~= held.map_values(|one: Held| known(one, spawned)));
}

/// What settling makes of a crowd whose handles differ, where no two reports are
/// of one handle. Each entity that a report names takes that id and that region,
/// and the others stay as they were; whatever is reported gone is not held, named
/// or not; and those that are left keep their order. A report of a handle that is
/// not held does nothing. Nothing else of the crowd changes.
pub proof fn settling_names_and_drops(c: CrowdState, heard: Heard)
    requires
        is_clear(c.held, Set::empty()),
        are_distinct(heard.spawned),
    ensures
        settled(c, heard) == (CrowdState {
            held: c.held.map_values(|one: Held| known(one, heard.spawned)).filter(
                |one: Held| !heard.removed.contains(one.handle),
            ),
            ..c
        }),
        forall|i: int, k: int|
            0 <= i < c.held.len() && 0 <= k < heard.spawned.len() && (
            #[trigger] heard.spawned[k]).0 == (#[trigger] c.held[i]).handle ==> known(
                c.held[i],
                heard.spawned,
            ) == (Held {
                region: heard.spawned[k].1,
                entity: Some((heard.spawned[k].1, heard.spawned[k].2)),
                ..c.held[i]
            }),
        forall|i: int|
            0 <= i < c.held.len() && (forall|k: int|
                0 <= k < heard.spawned.len() ==> (#[trigger] heard.spawned[k]).0
                    != c.held[i].handle) ==> known(#[trigger] c.held[i], heard.spawned)
                == c.held[i],
{
    naming_makes_known(c.held, heard.spawned);
    keeping_filters(all_named(c.held, heard.spawned), heard.removed);
    assert forall|i: int, k: int|
        0 <= i < c.held.len() && 0 <= k < heard.spawned.len() && (#[trigger] heard.spawned[k]).0
            == (#[trigger] c.held[i]).handle implies known(c.held[i], heard.spawned) == (Held {
        region: heard.spawned[k].1,
        entity: Some((heard.spawned[k].1, heard.spawned[k].2)),
        ..c.held[i]
    }) by {
        the_reported_are_known(c.held[i], heard.spawned, k);
    }
}

/// Settling reads every report, so settling again changes nothing.
pub proof fn settling_again_changes_nothing(c: CrowdState, heard: Heard)
    ensures
        settled(
            settled(c, heard),
            (Heard { spawned: Seq::empty(), removed: Seq::empty(), ..heard }),
        ) == settled(c, heard),
{
    keeping_without_leaving(settled(c, heard).held);
}

/// Where no one leaves, everyone is kept.
proof fn keeping_without_leaving(held: Seq<Held>)
    ensures
        kept(held, Seq::empty()) == held,
    decreases held.len(),
{
    if held.len() > 0 {
        keeping_without_leaving(held.drop_last());
        assert(held.drop_last().push(held.last()) =~= held);
    }
}

/// Naming changes no handle and no count.
pub(crate) proof fn naming_keeps_handles(held: Seq<Held>, spawned: Seq<(EntityHandle, RegionId, EntityId)>)
    ensures
        all_named(held, spawned).len() == held.len(),
        forall|i: int|
            0 <= i < held.len() ==> (#[trigger] all_named(held, spawned)[i]).handle
                == held[i].handle,
    decreases spawned.len(),
{
    if spawned.len() > 0 {
        naming_keeps_handles(held, spawned.drop_last());
    }
}

/// Settling adds no one, and changes nothing but who is held and what is known of
/// them.
pub(crate) proof fn settling_adds_no_one(c: CrowdState, heard: Heard)
    ensures
        settled(c, heard).held.len() <= c.held.len(),
        settled(c, heard) == (CrowdState { held: settled(c, heard).held, ..c }),
{
    naming_keeps_handles(c.held, heard.spawned);
    keeping(all_named(c.held, heard.spawned), heard.removed);
}

/// Settling leaves a clear crowd clear.
pub proof fn settling_stays_clear(c: CrowdState, forgotten: Set<EntityHandle>, heard: Heard)
    requires
        is_clear(c.held, forgotten),
    ensures
        is_clear(settled(c, heard).held, forgotten),
{
    let known = all_named(c.held, heard.spawned);
    naming_keeps_handles(c.held, heard.spawned);
    assert(is_clear(known, forgotten)) by {
        assert forall|i: int, j: int| 0 <= i < j < known.len() implies (#[trigger] known[i]).handle
            != (#[trigger] known[j]).handle by {
            assert(c.held[i].handle != c.held[j].handle);
        }
        assert forall|i: int| 0 <= i < known.len() implies !forgotten.contains(
            (#[trigger] known[i]).handle,
        ) by {
            assert(!forgotten.contains(c.held[i].handle));
        }
    }
    keeping_stays_clear(known, heard.removed, forgotten);
}

/// A churn never makes a crowd larger, however it ends.
pub(crate) proof fn a_churn_adds_no_one<E>(
    c: CrowdState,
    n: usize,
    said: Seq<Call<E>>,
    r: Result<usize, E>,
    after: CrowdState,
)
    requires
        churns(c, n, said, r, after),
        c.next + n <= usize::MAX,
    ensures
        after.held.len() <= c.held.len(),
        after.migrated == c.migrated,
        r matches Ok(gone) ==> gone <= n,
{
    if can_churn(c.held, n as int) && !stopped_short(n, said) {
        let (given, asked) = churn_parts(c, n, said, r, after);
        let thin = thinned(c, n as int);
        let gone = leaving(c.held, n as int);
        assert forall|k: int| 0 <= k < n implies gone.contains(#[trigger] attended(c.held)[k]) by {
            assert(gone[k] == attended(c.held)[k]);
        }
        at_least_the_leaving_leave(c.held, n as int, gone);
        taking_on_appends(thin, asked);
        taking_on_keeps_the_rest(thin, asked);
    }
}

/// Whoever has a client behind them is held, and is an observer.
pub(crate) proof fn the_attended_are_held(held: Seq<Held>)
    ensures
        attended(held).len() <= held.len(),
        forall|k: int|
            0 <= k < attended(held).len() ==> is_observer(held, #[trigger] attended(held)[k]),
    decreases held.len(),
{
    if held.len() > 0 {
        let front = held.drop_last();
        let rest = attended(front);
        let all = attended(held);
        the_attended_are_held(front);
        assert forall|k: int| 0 <= k < all.len() implies is_observer(held, #[trigger] all[k]) by {
            let last = held.len() - 1;
            if held.last().kind == EntityKind::Observer && k == 0 {
                assert(held[last].handle == all[k]);
            } else {
                let m = all.len() - rest.len();
                assert(all[k] == rest[k - m]);
                assert(is_observer(front, rest[k - m]));
                let i = choose|i: int|
                    0 <= i < front.len() && (#[trigger] front[i]).handle == rest[k - m]
                        && front[i].kind == EntityKind::Observer;
                assert(held[i] == front[i]);
            }
        }
    }
}

/// Whether a handle is that of an observer held.
pub open spec fn is_observer(held: Seq<Held>, handle: EntityHandle) -> bool {
    exists|i: int|
        0 <= i < held.len() && (#[trigger] held[i]).handle == handle && held[i].kind
            == EntityKind::Observer
}

/// If `n` observers are among those that go, `n` go at least.
proof fn at_least_the_leaving_leave(held: Seq<Held>, n: int, gone: Seq<EntityHandle>)
    requires
        0 <= n <= attended(held).len(),
        forall|k: int| 0 <= k < n ==> gone.contains(#[trigger] attended(held)[k]),
    ensures
        kept(held, gone).len() <= held.len() - n,
    decreases held.len(),
{
    keeping(held, gone);
    if held.len() > 0 && n > 0 {
        let front = held.drop_last();
        let rest = attended(front);
        let all = attended(held);
        if held.last().kind == EntityKind::Observer {
            assert(all[0] == held.last().handle);
            assert forall|k: int| 0 <= k < n - 1 implies gone.contains(#[trigger] rest[k]) by {
                assert(all[k + 1] == rest[k]);
            }
            at_least_the_leaving_leave(front, n - 1, gone);
        } else {
            at_least_the_leaving_leave(front, n, gone);
        }
    }
}

/// A crowd whose handles differ is as large after a churn as before.
pub proof fn a_churn_replaces_what_it_gives_back<E>(
    c: CrowdState,
    n: usize,
    said: Seq<Call<E>>,
    r: Result<usize, E>,
    after: CrowdState,
)
    requires
        churns(c, n, said, r, after),
        r is Ok,
        c.next + n <= usize::MAX,
        is_clear(c.held, Set::empty()),
    ensures
        after.held.len() == c.held.len(),
{
    if can_churn(c.held, n as int) {
        let gone = leaving(c.held, n as int);
        only_the_leaving_leave(c.held, n as int, gone);
        let asked = said.skip(n as int);
        assert(went_through(asked, n as int, None));
        assert forall|k: int| 0 <= k < asked.len() implies issued(#[trigger] asked[k]) is Some by {
            assert(refusal(asked[k]) is None) by {
                if k == asked.len() - 1 {
                    assert(asked[k] == asked.last());
                }
            }
        }
        taking_on_appends(thinned(c, n as int), asked);
    }
}

/// With handles that differ, if the last `n` observers are all that go, `n` go.
proof fn only_the_leaving_leave(held: Seq<Held>, n: int, gone: Seq<EntityHandle>)
    requires
        0 <= n <= attended(held).len(),
        is_clear(held, Set::empty()),
        forall|i: int|
            0 <= i < held.len() ==> (gone.contains((#[trigger] held[i]).handle) <==> attended(
                held,
            ).take(n).contains(held[i].handle)),
    ensures
        kept(held, gone).len() == held.len() - n,
    decreases held.len(),
{
    if held.len() > 0 {
        let front = held.drop_last();
        let rest = attended(front);
        let all = attended(held);
        let last = held[held.len() - 1];
        let observes = last.kind == EntityKind::Observer;
        let m = if observes && n > 0 {
            n - 1
        } else {
            n
        };
        the_attended_are_held(front);
        // No one before the last goes by its handle.
        assert forall|k: int| 0 <= k < rest.len() implies #[trigger] rest[k] != last.handle by {
            assert(is_observer(front, rest[k]));
            let i = choose|i: int|
                0 <= i < front.len() && (#[trigger] front[i]).handle == rest[k] && front[i].kind
                    == EntityKind::Observer;
            assert(held[i].handle != held[held.len() - 1].handle);
        }
        assert(is_clear(front, Set::empty())) by {
            assert forall|i: int, j: int| 0 <= i < j < front.len() implies (
            #[trigger] front[i]).handle != (#[trigger] front[j]).handle by {
                assert(held[i].handle != held[j].handle);
            }
        }
        assert forall|i: int| 0 <= i < front.len() implies (gone.contains(
            (#[trigger] front[i]).handle,
        ) <==> rest.take(m).contains(front[i].handle)) by {
            let handle = held[i].handle;
            assert(handle != last.handle) by {
                assert(held[i].handle != held[held.len() - 1].handle);
            }
            if observes && n > 0 {
                assert(all.take(n) =~= seq![last.handle] + rest.take(m));
                if rest.take(m).contains(handle) {
                    let k = choose|k: int| 0 <= k < m && rest.take(m)[k] == handle;
                    assert(all.take(n)[k + 1] == handle);
                }
                if all.take(n).contains(handle) {
                    let k = choose|k: int| 0 <= k < n && all.take(n)[k] == handle;
                    assert(rest.take(m)[k - 1] == handle);
                }
            } else if n > 0 {
                assert(all.take(n) =~= rest.take(m));
            } else {
                assert(all.take(n) =~= Seq::empty());
                assert(rest.take(m) =~= Seq::empty());
            }
        }
        only_the_leaving_leave(front, m, gone);
        assert(gone.contains(held[held.len() - 1].handle) <==> all.take(n).contains(last.handle));
        if observes && n > 0 {
            assert(all.take(n)[0] == last.handle);
        } else if all.take(n).contains(last.handle) {
            let k = choose|k: int| 0 <= k < n && all.take(n)[k] == last.handle;
            assert(rest[k] == last.handle);
        }
    }
}

/// A churn hands back observers and asks for observers: whoever has no client
/// behind them stays, as they are, and no one else is replaced. Those that stay
/// keep their order, before those that are new.
pub proof fn a_churn_hands_back_observers<E>(
    c: CrowdState,
    n: usize,
    said: Seq<Call<E>>,
    r: Result<usize, E>,
    after: CrowdState,
)
    requires
        churns(c, n, said, r, after),
        is_clear(c.held, Set::empty()),
        c.next + n <= usize::MAX,
    ensures
        forall|k: int|
            0 <= k < said.len() ==> match #[trigger] said[k] {
                Call::Despawn { handle, .. } => is_observer(c.held, handle),
                Call::Spawn { kind, .. } => kind == EntityKind::Observer,
                _ => false,
            },
        forall|i: int|
            0 <= i < c.held.len() && (#[trigger] c.held[i]).kind == EntityKind::Unattended
                ==> after.held.contains(c.held[i]),
        r matches Ok(gone) && gone > 0 ==> {
            let stay = thinned(c, n as int).held;
            &&& stay == c.held.filter(
                |one: Held| !leaving(c.held, n as int).contains(one.handle),
            )
            &&& stay.len() == c.held.len() - n
            &&& after.held.take(stay.len() as int) == stay
            &&& forall|i: int|
                stay.len() <= i < after.held.len() ==> (#[trigger] after.held[i]).kind
                    == EntityKind::Observer
        },
{
    if can_churn(c.held, n as int) {
        let gone = leaving(c.held, n as int);
        let d = if said.len() < n {
            said.len() as int
        } else {
            n as int
        };
        let given = said.take(d);
        let asked = said.skip(d);
        the_attended_are_held(c.held);
        assert forall|k: int| 0 <= k < said.len() implies match #[trigger] said[k] {
            Call::Despawn { handle, .. } => is_observer(c.held, handle),
            Call::Spawn { kind, .. } => kind == EntityKind::Observer,
            _ => false,
        } by {
            if k < d {
                assert(given[k] == said[k]);
                assert(gone[k] == attended(c.held)[k]);
            } else {
                assert(asked[k - d] == said[k]);
            }
        }
        let stay = thinned(c, n as int).held;
        keeping_filters(c.held, gone);
        keeping(c.held, gone);
        only_the_leaving_leave(c.held, n as int, gone);
        assert forall|i: int|
            0 <= i < c.held.len() && (#[trigger] c.held[i]).kind == EntityKind::Unattended
                implies stay.contains(c.held[i]) by {
            if gone.contains(c.held[i].handle) {
                let k = choose|k: int| 0 <= k < gone.len() && gone[k] == c.held[i].handle;
                assert(attended(c.held)[k] == gone[k]);
                let j = choose|j: int|
                    0 <= j < c.held.len() && (#[trigger] c.held[j]).handle == gone[k]
                        && c.held[j].kind == EntityKind::Observer;
                if i < j {
                    assert(c.held[i].handle != c.held[j].handle);
                } else if j < i {
                    assert(c.held[j].handle != c.held[i].handle);
                }
            }
        }
        if refusal(given.last()) is None {
            taking_on_keeps_the_rest(thinned(c, n as int), asked);
            assert(after.held.take(stay.len() as int) =~= stay);
            newcomers_are_as_asked(thinned(c, n as int), asked);
            assert forall|i: int|
                0 <= i < c.held.len() && (#[trigger] c.held[i]).kind == EntityKind::Unattended
                    implies after.held.contains(c.held[i]) by {
                let j = choose|j: int| 0 <= j < stay.len() && stay[j] == c.held[i];
                assert(after.held[j] == c.held[i]);
            }
        }
    }
}

/// Whoever is taken on is of a kind that was asked for.
proof fn newcomers_are_as_asked<E>(c: CrowdState, asked: Seq<Call<E>>)
    requires
        forall|k: int|
            0 <= k < asked.len() ==> (#[trigger] asked[k] matches Call::Spawn { kind, .. } && kind
                == EntityKind::Observer),
    ensures
        c.held.len() <= took_on(c, asked).held.len(),
        forall|i: int|
            c.held.len() <= i < took_on(c, asked).held.len() ==> (#[trigger] took_on(
                c,
                asked,
            ).held[i]).kind == EntityKind::Observer,
    decreases asked.len(),
{
    if asked.len() > 0 {
        let front = asked.drop_last();
        assert forall|k: int| 0 <= k < front.len() implies (#[trigger] front[k] matches Call::Spawn {
            kind,
            ..
        } && kind == EntityKind::Observer) by {
            assert(front[k] == asked[k]);
        }
        newcomers_are_as_asked(c, front);
        assert(asked[asked.len() - 1] is Spawn);
        let b = took_on(c, front);
        let after = took_on(c, asked);
        assert forall|i: int| c.held.len() <= i < after.held.len() implies (
        #[trigger] after.held[i]).kind == EntityKind::Observer by {
            if i < b.held.len() {
                assert(after.held[i] == b.held[i]);
            }
        }
    }
}

/// What is kept is what does not leave, in order.
proof fn keeping_filters(held: Seq<Held>, gone: Seq<EntityHandle>)
    ensures
        kept(held, gone) == held.filter(|one: Held| !gone.contains(one.handle)),
    decreases held.len(),
{
    reveal(Seq::filter);
    if held.len() > 0 {
        keeping_filters(held.drop_last(), gone);
    }
}

/// Taking on appends what was issued, in order, and forgets nothing.
proof fn taking_on_appends<E>(c: CrowdState, asked: Seq<Call<E>>)
    requires
        forall|k: int| 0 <= k < asked.len() - 1 ==> issued(#[trigger] asked[k]) is Some,
        forall|k: int| 0 <= k < asked.len() ==> #[trigger] asked[k] is Spawn,
    ensures
        ({
            let after = took_on(c, asked);
            let more = if asked.len() > 0 && issued(asked.last()) is None {
                asked.len() - 1
            } else {
                asked.len() as int
            };
            &&& after.held.len() == c.held.len() + more
            &&& forall|i: int|
                0 <= i < c.held.len() ==> #[trigger] after.held[i] == c.held[i]
            &&& forall|k: int|
                0 <= k < more ==> issued(#[trigger] asked[k]) == Some(
                    after.held[c.held.len() + k].handle,
                )
        }),
    decreases asked.len(),
{
    if asked.len() > 0 {
        let front = asked.drop_last();
        assert forall|k: int| 0 <= k < front.len() implies issued(#[trigger] front[k]) is Some
            && front[k] is Spawn by {
            assert(front[k] == asked[k]);
        }
        taking_on_appends(c, front);
        let b = took_on(c, front);
        let after = took_on(c, asked);
        assert(front.len() > 0 ==> issued(front.last()) is Some);
        assert forall|k: int| 0 <= k < asked.len() && (k < asked.len() - 1 || issued(asked.last()) is Some)
            implies issued(#[trigger] asked[k]) == Some(after.held[c.held.len() + k].handle) by {
            if k < front.len() {
                assert(front[k] == asked[k]);
                assert(after.held[c.held.len() + k] == b.held[c.held.len() + k]);
            }
        }
        assert forall|i: int| 0 <= i < c.held.len() implies #[trigger] after.held[i] == c.held[i] by {
            assert(b.held[i] == c.held[i]);
        }
    }
}

/// Whether a churn was refused while it gave entities back. Those it had given
/// back by then are forgotten, and still held.
pub open spec fn stopped_short<E>(n: usize, said: Seq<Call<E>>) -> bool {
    0 < said.len() <= n && refusal(said.last()) is Some
}

/// A churn names only what is held, so nothing forgotten.
pub proof fn a_churn_names_only_what_is_held<E>(
    c: CrowdState,
    n: usize,
    said: Seq<Call<E>>,
    r: Result<usize, E>,
    after: CrowdState,
)
    requires
        churns(c, n, said, r, after),
    ensures
        forall|k: int| 0 <= k < said.len() ==> names_only_held(c.held, #[trigger] said[k]),
{
    if can_churn(c.held, n as int) {
        the_attended_are_held(c.held);
        let d = if said.len() < n {
            said.len() as int
        } else {
            n as int
        };
        let given = said.take(d);
        let asked = said.skip(d);
        assert forall|k: int| 0 <= k < said.len() implies names_only_held(
            c.held,
            #[trigger] said[k],
        ) by {
            if k < d {
                assert(given[k] == said[k]);
                assert(attended(c.held)[k] == leaving(c.held, n as int)[k]);
                assert(is_observer(c.held, attended(c.held)[k]));
            } else {
                assert(asked[k - d] == said[k]);
            }
        }
    }
}

/// A churned entity is dropped at once: whatever was given back is not held when
/// the churn is over, unless the edge issued that handle again.
pub proof fn the_churned_are_dropped_at_once<E>(
    c: CrowdState,
    n: usize,
    said: Seq<Call<E>>,
    r: Result<usize, E>,
    after: CrowdState,
    handle: EntityHandle,
)
    requires
        churns(c, n, said, r, after),
        can_churn(c.held, n as int),
        !stopped_short(n, said),
        leaving(c.held, n as int).contains(handle),
        holds(after.held, handle),
    ensures
        exists|k: int| 0 <= k < said.len() && issued(#[trigger] said[k]) == Some(handle),
{
    let (given, asked) = churn_parts(c, n, said, r, after);
    let thin = thinned(c, n as int);
    keeping(c.held, leaving(c.held, n as int));
    taking_on_appends(thin, asked);
    let i = choose|i: int| 0 <= i < after.held.len() && (#[trigger] after.held[i]).handle == handle;
    if i < thin.held.len() {
        assert(after.held[i] == thin.held[i]);
    } else {
        let k = i - thin.held.len();
        assert(issued(asked[k]) == Some(handle));
        assert(said[n + k] == asked[k]);
    }
}

/// The two runs of calls a churn makes when everything is given back.
proof fn churn_parts<E>(
    c: CrowdState,
    n: usize,
    said: Seq<Call<E>>,
    r: Result<usize, E>,
    after: CrowdState,
) -> (parts: (Seq<Call<E>>, Seq<Call<E>>))
    requires
        churns(c, n, said, r, after),
        can_churn(c.held, n as int),
        !stopped_short(n, said),
    ensures
        said.len() >= n,
        parts.0 == said.take(n as int),
        parts.1 == said.skip(n as int),
        gives_back(leaving(c.held, n as int), parts.0),
        forall|k: int| 0 <= k < parts.0.len() ==> refusal(#[trigger] parts.0[k]) is None,
        after == took_on(thinned(c, n as int), parts.1),
        forall|k: int| 0 <= k < parts.1.len() ==> #[trigger] parts.1[k] is Spawn,
        forall|k: int| 0 <= k < parts.1.len() - 1 ==> issued(#[trigger] parts.1[k]) is Some,
{
    let d = if said.len() < n {
        said.len() as int
    } else {
        n as int
    };
    let given = said.take(d);
    let asked = said.skip(d);
    assert(given.last() == said[d - 1]);
    assert(refusal(given.last()) is None) by {
        if refusal(given.last()) is Some {
            assert(said =~= given);
        }
    }
    assert forall|k: int| 0 <= k < given.len() implies refusal(#[trigger] given[k]) is None by {
        if k == given.len() - 1 {
            assert(given[k] == given.last());
        }
    }
    (given, asked)
}

/// A churn leaves a clear crowd clear, of what it gave back as well, if the edge
/// issues handles afresh. One that is refused while giving back is the exception.
pub proof fn a_churn_stays_clear<E>(
    c: CrowdState,
    forgotten: Set<EntityHandle>,
    n: usize,
    said: Seq<Call<E>>,
    r: Result<usize, E>,
    after: CrowdState,
)
    requires
        is_clear(c.held, forgotten),
        churns(c, n, said, r, after),
        !stopped_short(n, said),
        issues_afresh(c.held, forgotten, said),
    ensures
        is_clear(after.held, forgotten_after(forgotten, said)),
{
    let lost = forgotten_after(forgotten, said);
    if !can_churn(c.held, n as int) {
        assert(lost =~= forgotten);
    } else {
        let gone = leaving(c.held, n as int);
        let (given, asked) = churn_parts(c, n, said, r, after);
        let thin = thinned(c, n as int);
        keeping(c.held, gone);
        keeping_stays_clear(c.held, gone, forgotten);
        taking_on_appends(thin, asked);
        // What is forgotten on the way is what was given back, and every one of
        // those was held.
        assert forall|handle: EntityHandle| lost.contains(handle) implies forgotten.contains(handle)
            || gone.contains(handle) by {
            if !forgotten.contains(handle) {
                let k = choose|k: int|
                    0 <= k < said.len() && given_up(#[trigger] said[k]) == Some(handle);
                if k < n {
                    assert(given[k] == said[k]);
                    assert(gone[k] == handle);
                } else {
                    assert(asked[k - n] == said[k]);
                }
            }
        }
        assert forall|handle: EntityHandle| gone.contains(handle) implies holds(c.held, handle) by {
            let k = choose|k: int| 0 <= k < gone.len() && gone[k] == handle;
            the_attended_are_held(c.held);
            assert(is_observer(c.held, attended(c.held)[k]));
        }
        assert forall|i: int| thin.held.len() <= i < after.held.len() implies {
            let handle = (#[trigger] after.held[i]).handle;
            &&& issued(said[n + (i - thin.held.len())]) == Some(handle)
            &&& !holds(c.held, handle)
            &&& !forgotten.contains(handle)
        } by {
            let k = i - thin.held.len();
            assert(issued(asked[k]) == Some(after.held[thin.held.len() + k].handle));
            assert(said[n + k] == asked[k]);
        }
        assert forall|i: int| 0 <= i < thin.held.len() implies holds(
            c.held,
            (#[trigger] thin.held[i]).handle,
        ) && !gone.contains(thin.held[i].handle) by {
            let j = choose|j: int|
                i <= j < c.held.len() && kept(c.held, gone)[i] == #[trigger] c.held[j];
            assert(c.held[j].handle == thin.held[i].handle);
        }
        assert forall|i: int| 0 <= i < after.held.len() implies !lost.contains(
            (#[trigger] after.held[i]).handle,
        ) by {
            if i < thin.held.len() {
                assert(after.held[i] == thin.held[i]);
            }
        }
        assert forall|i: int, j: int| 0 <= i < j < after.held.len() implies (
        #[trigger] after.held[i]).handle != (#[trigger] after.held[j]).handle by {
            if j < thin.held.len() {
                assert(after.held[i] == thin.held[i] && after.held[j] == thin.held[j]);
            } else if i < thin.held.len() {
                assert(after.held[i] == thin.held[i]);
            } else {
                let a = n + (i - thin.held.len());
                let b = n + (j - thin.held.len());
                assert(issued(said[a]) != issued(said[b]));
            }
        }
    }
}

/// Moving over changes only what was moved: it keeps its place in the crowd and
/// in the world, and goes by what the edge answered.
pub(crate) proof fn moving_over_changes_what_moved<E>(
    c: CrowdState,
    away: RegionId,
    places: Seq<int>,
    said: Seq<Call<E>>,
)
    requires
        moves_over(c, away, places, said),
        said.len() <= places.len(),
        c.migrated + said.len() <= u64::MAX,
        forall|a: int| 0 <= a < places.len() ==> 0 <= #[trigger] places[a] < c.held.len(),
        forall|a: int, b: int|
            0 <= a < b < places.len() ==> #[trigger] places[a] != #[trigger] places[b],
        forall|k: int| 0 <= k < said.len() - 1 ==> refusal(#[trigger] said[k]) is None,
    ensures
        ({
            let after = moved_over(c, away, places, said);
            let done = if said.len() > 0 && refusal(said.last()) is Some {
                said.len() - 1
            } else {
                said.len() as int
            };
            &&& after == (CrowdState { held: after.held, migrated: after.migrated, ..c })
            &&& after.held.len() == c.held.len()
            &&& after.migrated == c.migrated + done
            &&& forall|k: int|
                0 <= k < done ==> {
                    let i = #[trigger] places[k];
                    &&& issued(said[k]) == Some(after.held[i].handle)
                    &&& given_up(said[k]) == Some(c.held[i].handle)
                    &&& after.held[i] == (Held {
                        handle: after.held[i].handle,
                        region: other_side(c, away, c.held[i].region),
                        entity: None,
                        ..c.held[i]
                    })
                }
            &&& forall|i: int|
                0 <= i < c.held.len() && (forall|k: int| 0 <= k < done ==> #[trigger] places[k] != i)
                    ==> #[trigger] after.held[i] == c.held[i]
        }),
    decreases said.len(),
{
    if said.len() > 0 {
        let front = said.drop_last();
        let after = moved_over(c, away, places, said);
        let b = moved_over(c, away, places, front);
        let last = said.len() - 1;
        assert forall|k: int| 0 <= k < front.len() implies refusal(#[trigger] front[k]) is None by {
            assert(front[k] == said[k]);
        }
        assert(moves_over(c, away, places, front)) by {
            assert forall|k: int| 0 <= k < front.len() implies {
                &&& #[trigger] front[k] matches Call::Migrate { handle, to, at, .. }
                &&& handle == c.held[places[k]].handle
                &&& to == other_side(c, away, c.held[places[k]].region)
                &&& at == c.held[places[k]].at
            } by {
                assert(front[k] == said[k]);
            }
        }
        moving_over_changes_what_moved(c, away, places, front);
        assert(front.len() > 0 ==> refusal(front.last()) is None);
        assert(said[last] == said.last());
        assert(said[last] is Migrate);
        let done = if refusal(said.last()) is Some {
            said.len() - 1
        } else {
            said.len() as int
        };
        assert forall|k: int| 0 <= k < done implies {
            let i = #[trigger] places[k];
            &&& issued(said[k]) == Some(after.held[i].handle)
            &&& given_up(said[k]) == Some(c.held[i].handle)
            &&& after.held[i] == (Held {
                handle: after.held[i].handle,
                region: other_side(c, away, c.held[i].region),
                entity: None,
                ..c.held[i]
            })
        } by {
            if k < last {
                assert(front[k] == said[k]);
                assert(places[k] != places[last]);
            }
        }
        assert forall|i: int|
            0 <= i < c.held.len() && (forall|k: int| 0 <= k < done ==> #[trigger] places[k] != i)
                implies #[trigger] after.held[i] == c.held[i] by {
            if refusal(said.last()) is None {
                assert(places[last] != i);
            }
            assert(b.held[i] == c.held[i]);
        }
    }
}

/// What a migration does, in parts: only confirmed entities move, each to the
/// other region; the rest stay as they are, and no one changes place. As many are
/// counted as moved.
pub proof fn a_migration_moves_only_the_confirmed<E>(
    c: CrowdState,
    n: usize,
    said: Seq<Call<E>>,
    r: Result<(), E>,
    after: CrowdState,
)
    requires
        migrates(c, n, said, r, after),
        c.migrated + c.held.len() <= u64::MAX,
    ensures
        after.held.len() == c.held.len(),
        forall|i: int|
            0 <= i < c.held.len() ==> {
                let one = c.held[i];
                let now = #[trigger] after.held[i];
                &&& one.entity is None ==> now == one
                &&& now.at == one.at && now.heading == one.heading
                &&& now == one || {
                    &&& c.away matches Some(away)
                    &&& now.region == other_side(c, away, one.region)
                    &&& now.entity is None
                }
            },
        r is Ok ==> after.migrated == c.migrated + said.len(),
        forall|k: int| 0 <= k < said.len() ==> names_only_held(c.held, #[trigger] said[k]),
        c.away is None ==> after == c && said.len() == 0,
{
    let k = sweep_len(c, n);
    if c.away is Some && k > 0 {
        let away = c.away->0;
        let places = going(c, k);
        a_sweep_repeats_nothing(c, k);
        moving_over_changes_what_moved(c, away, places, said);
        let done = if said.len() > 0 && refusal(said.last()) is Some {
            said.len() - 1
        } else {
            said.len() as int
        };
        assert forall|i: int| 0 <= i < c.held.len() implies {
            let one = c.held[i];
            let now = #[trigger] after.held[i];
            &&& one.entity is None ==> now == one
            &&& now.at == one.at && now.heading == one.heading
            &&& now == one || {
                &&& c.away matches Some(away)
                &&& now.region == other_side(c, away, one.region)
                &&& now.entity is None
            }
        } by {
            if exists|a: int| 0 <= a < done && #[trigger] places[a] == i {
                let a = choose|a: int| 0 <= a < done && #[trigger] places[a] == i;
                assert(c.held[places[a]].entity is Some);
            }
        }
        assert forall|j: int| 0 <= j < said.len() implies names_only_held(
            c.held,
            #[trigger] said[j],
        ) by {
            assert(0 <= places[j] < c.held.len());
        }
    }
}

/// A migration leaves a clear crowd clear, of the handles it left behind as well,
/// if the edge issues handles afresh.
pub proof fn a_migration_stays_clear<E>(
    c: CrowdState,
    forgotten: Set<EntityHandle>,
    n: usize,
    said: Seq<Call<E>>,
    r: Result<(), E>,
    after: CrowdState,
)
    requires
        is_clear(c.held, forgotten),
        migrates(c, n, said, r, after),
        c.migrated + c.held.len() <= u64::MAX,
        issues_afresh(c.held, forgotten, said),
    ensures
        is_clear(after.held, forgotten_after(forgotten, said)),
{
    let lost = forgotten_after(forgotten, said);
    let k = sweep_len(c, n);
    if c.away is Some && k > 0 {
        let away = c.away->0;
        let places = going(c, k);
        a_sweep_repeats_nothing(c, k);
        moving_over_changes_what_moved(c, away, places, said);
        let done = if said.len() > 0 && refusal(said.last()) is Some {
            said.len() - 1
        } else {
            said.len() as int
        };
        assert forall|i: int| 0 <= i < after.held.len() implies {
            let now = (#[trigger] after.held[i]).handle;
            ||| now == c.held[i].handle && forall|a: int| 0 <= a < done ==> #[trigger] places[a] != i
            ||| exists|a: int|
                0 <= a < done && #[trigger] places[a] == i && issued(said[a]) == Some(now)
        } by {
            if exists|a: int| 0 <= a < done && #[trigger] places[a] == i {
                let a = choose|a: int| 0 <= a < done && #[trigger] places[a] == i;
                assert(issued(said[a]) == Some(after.held[places[a]].handle));
            }
        }
        assert forall|i: int| 0 <= i < after.held.len() implies !lost.contains(
            (#[trigger] after.held[i]).handle,
        ) by {
            let now = after.held[i].handle;
            assert(!forgotten.contains(c.held[i].handle));
            if exists|a: int| 0 <= a < done && #[trigger] places[a] == i && issued(said[a]) == Some(now) {
                let a = choose|a: int|
                    0 <= a < done && #[trigger] places[a] == i && issued(said[a]) == Some(now);
                assert(issued(said[a]) == Some(now));
                assert(!holds(c.held, now) && !forgotten.contains(now));
                if lost.contains(now) {
                    let b = choose|b: int|
                        0 <= b < said.len() && given_up(#[trigger] said[b]) == Some(now);
                    assert(c.held[places[b]].handle == now);
                }
            } else if lost.contains(now) {
                let b = choose|b: int|
                    0 <= b < said.len() && given_up(#[trigger] said[b]) == Some(now);
                assert(b < done);
                assert(c.held[places[b]].handle == now);
                assert(places[b] != i);
                let lo = if places[b] < i {
                    places[b]
                } else {
                    i
                };
                let hi = if places[b] < i {
                    i
                } else {
                    places[b]
                };
                assert(c.held[lo].handle != c.held[hi].handle);
            }
        }
        assert forall|i: int, j: int| 0 <= i < j < after.held.len() implies (
        #[trigger] after.held[i]).handle != (#[trigger] after.held[j]).handle by {
            let x = after.held[i].handle;
            let y = after.held[j].handle;
            assert(c.held[i].handle != c.held[j].handle);
            if x == y {
                let moved_i = exists|a: int|
                    0 <= a < done && #[trigger] places[a] == i && issued(said[a]) == Some(x);
                let moved_j = exists|a: int|
                    0 <= a < done && #[trigger] places[a] == j && issued(said[a]) == Some(y);
                if moved_i && moved_j {
                    let a = choose|a: int|
                        0 <= a < done && #[trigger] places[a] == i && issued(said[a]) == Some(x);
                    let b = choose|b: int|
                        0 <= b < done && #[trigger] places[b] == j && issued(said[b]) == Some(y);
                    if a < b {
                        assert(issued(said[a]) != issued(said[b]));
                    } else {
                        assert(issued(said[b]) != issued(said[a]));
                    }
                } else if moved_i {
                    let a = choose|a: int|
                        0 <= a < done && #[trigger] places[a] == i && issued(said[a]) == Some(x);
                    assert(!holds(c.held, x));
                    assert(c.held[j].handle == y);
                } else if moved_j {
                    let b = choose|b: int|
                        0 <= b < done && #[trigger] places[b] == j && issued(said[b]) == Some(y);
                    assert(!holds(c.held, y));
                    assert(c.held[i].handle == x);
                }
            }
        }
    } else {
        assert(lost =~= forgotten);
    }
}

/// Telling the edge where everything is names only what is held.
pub proof fn walking_names_only_what_is_held(held: Seq<Held>, k: int)
    requires
        0 <= k < held.len(),
    ensures
        holds(held, whereabouts(held)[k].0),
        whereabouts(held)[k] == (held[k].handle, held[k].at),
{
    assert(held[k].handle == whereabouts(held)[k].0);
}

/// Migration walks an entity to the other region and back.
pub proof fn there_and_back(c: CrowdState, away: RegionId, region: RegionId)
    requires
        region == c.home || region == away,
    ensures
        other_side(c, away, other_side(c, away, region)) == region,
        c.home != away ==> other_side(c, away, region) != region,
{
}

/// A sweep goes on where the last one stopped.
pub proof fn a_sweep_goes_on(c: CrowdState, k: int, j: int)
    requires
        0 < c.held.len() <= usize::MAX,
        0 <= k,
        0 <= j,
    ensures
        spot(
            (CrowdState { cursor: ((c.cursor + k) % c.held.len() as int) as usize, ..c }),
            j,
        ) == spot(c, k + j),
{
    let len = c.held.len() as int;
    vstd::arithmetic::div_mod::lemma_mod_bound(c.cursor + k, len);
    vstd::arithmetic::div_mod::lemma_add_mod_noop_right(1 + j, c.cursor + k, len);
}

/// A sweep of the whole crowd takes everyone the regions have answered for, so no
/// one is passed over however few go at a time.
pub proof fn a_full_sweep_takes_everyone(c: CrowdState, i: int)
    requires
        0 <= i < c.held.len(),
        c.held[i].entity is Some,
    ensures
        going(c, c.held.len() as int).contains(i),
{
    let len = c.held.len() as int;
    let j = (i - c.cursor - 1) % len;
    vstd::arithmetic::div_mod::lemma_mod_bound(i - c.cursor - 1, len);
    vstd::arithmetic::div_mod::lemma_add_mod_noop_right(c.cursor + 1, i - c.cursor - 1, len);
    vstd::arithmetic::div_mod::lemma_small_mod(i as nat, len as nat);
    assert(spot(c, j) == i);
    a_sweep_takes_the_confirmed(c, len, j);
}

/// A sweep takes whoever it looks at, if a region has answered for them.
proof fn a_sweep_takes_the_confirmed(c: CrowdState, k: int, j: int)
    requires
        0 <= j < k,
        c.held[spot(c, j)].entity is Some,
    ensures
        going(c, k).contains(spot(c, j)),
    decreases k,
{
    let all = going(c, k);
    let rest = going(c, k - 1);
    if j == k - 1 {
        assert(all[rest.len() as int] == spot(c, j));
    } else {
        a_sweep_takes_the_confirmed(c, k - 1, j);
        let a = choose|a: int| 0 <= a < rest.len() && rest[a] == spot(c, j);
        assert(all[a] == spot(c, j));
    }
}

/// The calls of a migration of one that went through, where it names the entity at
/// that place.
pub open spec fn names_one<E>(c: CrowdState, away: RegionId, i: int, said: Seq<Call<E>>) -> bool {
    &&& said.len() == 1
    &&& said[0] matches Call::Migrate { handle, to, at, answer: Ok(_) }
    &&& handle == c.held[i].handle
    &&& to == other_side(c, away, c.held[i].region)
    &&& at == c.held[i].at
}

/// An entity that went over, by the handle that the call was answered with.
pub open spec fn went_over<E>(c: CrowdState, away: RegionId, i: int, said: Seq<Call<E>>) -> Held {
    Held {
        handle: issued(said[0])->0,
        region: other_side(c, away, c.held[i].region),
        entity: None,
        ..c.held[i]
    }
}

/// Whether migrations of one, each accepted, follow each other with nothing between.
pub open spec fn migrates_one_by_one<E>(crowds: Seq<CrowdState>, said: Seq<Seq<Call<E>>>) -> bool {
    &&& crowds.len() == said.len() + 1
    &&& forall|j: int|
        #![trigger said[j]]
        0 <= j < said.len() ==> migrates(crowds[j], 1, said[j], Ok(()), crowds[j + 1])
}

/// Whether a sweep of `k` steps looks at a place.
pub open spec fn is_swept(c: CrowdState, k: int, i: int) -> bool {
    exists|j: int| 0 <= j < k && #[trigger] spot(c, j) == i
}

/// A migration of one takes whoever the sweep looks at next, if a region has
/// answered for them.
proof fn a_migration_of_one<E>(
    c: CrowdState,
    away: RegionId,
    said: Seq<Call<E>>,
    after: CrowdState,
)
    requires
        migrates(c, 1, said, Ok(()), after),
        c.away == Some(away),
        0 < c.held.len() <= usize::MAX,
        c.held[spot(c, 0)].entity is Some,
        c.migrated < u64::MAX,
    ensures
        ({
            let i = spot(c, 0);
            &&& 0 <= i < c.held.len()
            &&& names_one(c, away, i, said)
            &&& after == (CrowdState {
                held: c.held.update(i, went_over(c, away, i, said)),
                cursor: i as usize,
                migrated: (c.migrated + 1) as u64,
                ..c
            })
        }),
{
    let i = spot(c, 0);
    let places = going(c, 1);
    reveal_with_fuel(going, 2);
    assert(places =~= seq![i]);
    vstd::arithmetic::div_mod::lemma_mod_bound(c.cursor + 1, c.held.len() as int);
    assert(went_through(said, 1, None));
    assert(said.last() == said[0]);
    assert(said[0] is Migrate);
    reveal_with_fuel(moved_over, 2);
    assert(said.drop_last() =~= Seq::empty());
}

/// Migrations of one go on with the sweep: the first `k` take the next `k` places,
/// in order, and leave the others as they were.
proof fn single_steps_sweep<E>(
    crowds: Seq<CrowdState>,
    said: Seq<Seq<Call<E>>>,
    away: RegionId,
)
    requires
        migrates_one_by_one(crowds, said),
        said.len() <= crowds[0].held.len() <= usize::MAX,
        crowds[0].away == Some(away),
        crowds[0].migrated + said.len() <= u64::MAX,
        forall|i: int|
            0 <= i < crowds[0].held.len() ==> (#[trigger] crowds[0].held[i]).entity is Some,
    ensures
        ({
            let c = crowds[0];
            let k = said.len() as int;
            let after = crowds[k];
            &&& after == (CrowdState {
                held: after.held,
                cursor: after.cursor,
                migrated: (c.migrated + k) as u64,
                ..c
            })
            &&& after.held.len() == c.held.len()
            &&& after.cursor as int == if k == 0 {
                c.cursor as int
            } else {
                (c.cursor + k) % c.held.len() as int
            }
            &&& forall|j: int|
                #![trigger said[j]]
                0 <= j < k ==> {
                    &&& 0 <= spot(c, j) < c.held.len()
                    &&& names_one(c, away, spot(c, j), said[j])
                    &&& after.held[spot(c, j)] == went_over(c, away, spot(c, j), said[j])
                }
            &&& forall|i: int|
                0 <= i < c.held.len() && (forall|j: int| 0 <= j < k ==> #[trigger] spot(c, j) != i)
                    ==> #[trigger] after.held[i] == c.held[i]
        }),
    decreases said.len(),
{
    if said.len() > 0 {
        let c = crowds[0];
        let k = said.len() - 1;
        let (cs, front) = (crowds.drop_last(), said.drop_last());
        let near = crowds[k];
        let after = crowds[k + 1];
        assert forall|j: int|
            #![trigger front[j]]
            0 <= j < front.len() implies migrates(cs[j], 1, front[j], Ok(()), cs[j + 1]) by {
            assert(front[j] == said[j]);
        }
        single_steps_sweep(cs, front, away);
        assert(said[k] == said.last());
        next_spot(c, k, near.cursor as int);
        let i = spot(c, k);
        assert(spot(near, 0) == i);
        assert forall|j: int| 0 <= j < k implies #[trigger] spot(c, j) != i by {
            spots_differ(c, j, k);
        }
        assert(near.held[i] == c.held[i]);
        a_migration_of_one(near, away, said[k], after);
        assert forall|j: int|
            #![trigger said[j]]
            0 <= j < said.len() implies {
            &&& 0 <= spot(c, j) < c.held.len()
            &&& names_one(c, away, spot(c, j), said[j])
            &&& after.held[spot(c, j)] == went_over(c, away, spot(c, j), said[j])
        } by {
            if j < k {
                assert(front[j] == said[j]);
                assert(spot(c, j) != i);
            }
        }
        assert forall|m: int|
            0 <= m < c.held.len() && (forall|j: int|
                0 <= j < said.len() ==> #[trigger] spot(c, j) != m) implies #[trigger] after.held[m]
            == c.held[m] by {
            assert(spot(c, k) != m);
            assert(near.held[m] == c.held[m]);
        }
    }
}

/// As many migrations of one as there are entities, all answered for and all
/// accepted, sweep the crowd: between them they name every entity once, by the
/// handle it had, and after them every one is in the other region, waits for an id,
/// and has been counted. It is never the same few back and forth.
pub proof fn single_migrations_take_everyone_once<E>(
    crowds: Seq<CrowdState>,
    said: Seq<Seq<Call<E>>>,
    away: RegionId,
)
    requires
        migrates_one_by_one(crowds, said),
        0 < said.len() == crowds[0].held.len() <= usize::MAX,
        crowds[0].away == Some(away),
        crowds[0].migrated + said.len() <= u64::MAX,
        forall|i: int|
            0 <= i < crowds[0].held.len() ==> (#[trigger] crowds[0].held[i]).entity is Some,
    ensures
        ({
            let c = crowds[0];
            let after = crowds[said.len() as int];
            &&& forall|j: int|
                #![trigger said[j]]
                0 <= j < said.len() ==> 0 <= spot(c, j) < c.held.len() && names_one(
                    c,
                    away,
                    spot(c, j),
                    said[j],
                )
            &&& forall|i: int|
                0 <= i < c.held.len() ==> #[trigger] is_swept(c, said.len() as int, i)
            &&& forall|j: int, k: int|
                0 <= j < k < said.len() ==> #[trigger] spot(c, j) != #[trigger] spot(c, k)
            &&& after.held.len() == c.held.len()
            &&& after.migrated == c.migrated + said.len()
            &&& forall|i: int|
                0 <= i < c.held.len() ==> {
                    let now = #[trigger] after.held[i];
                    &&& now.entity is None
                    &&& now.region == other_side(c, away, c.held[i].region)
                    &&& now.at == c.held[i].at && now.heading == c.held[i].heading
                    &&& now.kind == c.held[i].kind
                }
        }),
{
    let c = crowds[0];
    let len = c.held.len() as int;
    let after = crowds[said.len() as int];
    single_steps_sweep(crowds, said, away);
    assert forall|i: int| 0 <= i < len implies #[trigger] is_swept(c, len, i) by {
        let j = (i - c.cursor - 1) % len;
        vstd::arithmetic::div_mod::lemma_mod_bound(i - c.cursor - 1, len);
        vstd::arithmetic::div_mod::lemma_add_mod_noop_right(c.cursor + 1, i - c.cursor - 1, len);
        vstd::arithmetic::div_mod::lemma_small_mod(i as nat, len as nat);
        assert(spot(c, j) == i);
    }
    assert forall|j: int, k: int| 0 <= j < k < said.len() implies #[trigger] spot(c, j)
        != #[trigger] spot(c, k) by {
        spots_differ(c, j, k);
    }
    assert forall|i: int| 0 <= i < len implies {
        let now = #[trigger] after.held[i];
        &&& now.entity is None
        &&& now.region == other_side(c, away, c.held[i].region)
        &&& now.at == c.held[i].at && now.heading == c.held[i].heading
        &&& now.kind == c.held[i].kind
    } by {
        assert(is_swept(c, len, i));
        let j = choose|j: int| 0 <= j < len && #[trigger] spot(c, j) == i;
        assert(after.held[spot(c, j)] == went_over(c, away, spot(c, j), said[j]));
    }
}

} // verus!
