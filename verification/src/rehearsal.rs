//! What a crowd does through a link without a connection.
//!
//! A [`Fake`] gives handles in order, refuses the ones it has forgotten, and puts
//! down what it takes. A crowd that asked it for everything it holds never names a
//! handle it has forgotten, so it is refused nothing, whatever is churned, moved
//! and reported, for as long as there are handles to give.

use vstd::prelude::*;

use crate::crowd::{
    a_sweep_repeats_nothing, all_named, all_paced, asks, attended, can_churn, churns, going, kept,
    leaving, migrates, moved_over, newcomer, other_side, population, refusal, settled, start,
    sweep_len, thinned, took_on, went_through, whereabouts, CrowdState, Held,
};
use crate::ids::{EntityHandle, EntityKind};
use crate::link::{relayed, relaying_parts, tells, Call, Fake, FakeError, Link, Said};
use crate::reports::Heard;
use crate::session::{passes, quiet, summary_of, sums_up, SessionState, Summary};
use crate::units::Pos3;
use crate::upkeep::{
    a_churn_replaces_what_it_gives_back, a_churn_stays_clear, a_migration_stays_clear,
    forgotten_after, given_up, holds, is_clear, is_observer, issued, issues_afresh, keeping,
    moving_over_changes_what_moved, naming_keeps_handles, settling_adds_no_one,
    settling_stays_clear, the_attended_are_held,
};

verus! {

/// The `k`th handle that a link gives from here on.
pub open spec fn upcoming(link: Fake, k: int) -> EntityHandle {
    EntityHandle { raw: (link.given() + k) as u32 }
}

/// How many of a run of calls ask for a handle.
pub open spec fn wants<E>(said: Seq<Call<E>>) -> int
    decreases said.len(),
{
    if said.len() == 0 {
        0
    } else {
        wants(said.drop_last()) + if asks_for_one(said.last()) {
            1int
        } else {
            0
        }
    }
}

/// Whether a call asks for a handle.
pub open spec fn asks_for_one<E>(call: Call<E>) -> bool {
    call is Spawn || call is Migrate
}

/// The handle that a call needs the link to remember.
pub open spec fn relies_on<E>(call: Call<E>) -> Option<EntityHandle> {
    match call {
        Call::Migrate { handle, .. } => Some(handle),
        Call::Despawn { handle, .. } => Some(handle),
        _ => None,
    }
}

/// Whether a link has put down a whole run of calls, in order, after what it had.
pub open spec fn has_heard(from: Fake, said: Seq<Call<FakeError>>, to: Fake) -> bool {
    let n = from.heard().len() as int;
    &&& to.heard().len() == n + said.len()
    &&& to.heard().take(n) == from.heard()
    &&& forall|k: int| 0 <= k < said.len() ==> tells(#[trigger] said[k], to.heard()[n + k])
}

/// Whether a crowd and a link have kept up with each other: no two entities go by
/// one handle, none by a forgotten one, and all handles have been given.
pub open spec fn in_step(held: Seq<Held>, link: Fake) -> bool {
    &&& is_clear(held, link.forgotten().to_set())
    &&& forall|i: int| 0 <= i < held.len() ==> (#[trigger] held[i]).handle.raw <= link.given()
    &&& forall|k: int|
        0 <= k < link.forgotten().len() ==> (#[trigger] link.forgotten()[k]).raw <= link.given()
}

/// No more ask for a handle than are left after those that do not.
proof fn the_rest_want_at_most<E>(said: Seq<Call<E>>, d: int)
    requires
        0 <= d <= said.len(),
        forall|k: int| 0 <= k < d ==> !asks_for_one(#[trigger] said[k]),
    ensures
        0 <= wants(said) <= said.len() - d,
    decreases said.len(),
{
    if said.len() > 0 {
        let front = said.drop_last();
        if d == said.len() {
            assert(!asks_for_one(said[d - 1]));
            the_rest_want_at_most(front, d - 1);
        } else {
            the_rest_want_at_most(front, d);
        }
    }
}

/// The handles a link gives are new, and each is above the last. It forgets what
/// it is given back, and nothing else.
proof fn handles_come_in_order(from: Fake, said: Seq<Call<FakeError>>, to: Fake)
    requires
        relayed(from, said, to),
    ensures
        from.given() <= to.given() <= from.given() + wants(said),
        forall|k: int|
            0 <= k < said.len() ==> (issued(#[trigger] said[k]) matches Some(handle)
                ==> from.given() < handle.raw <= to.given()),
        forall|j: int, k: int|
            0 <= j < k < said.len() && issued(said[j]) is Some && issued(said[k]) is Some
                ==> issued(#[trigger] said[j])->0.raw < issued(#[trigger] said[k])->0.raw,
        forall|handle: EntityHandle| #[trigger]
            to.forgotten().contains(handle) ==> from.forgotten().contains(handle) || exists|k: int|
                0 <= k < said.len() && #[trigger] said[k] is Despawn && given_up(said[k]) == Some(
                    handle,
                ),
    decreases said.len(),
{
    if said.len() > 0 {
        let front = said.drop_last();
        let last = said.len() - 1;
        let mid = choose|mid: Fake|
            relayed(from, front, mid) && #[trigger] mid.took(said.last(), to);
        handles_come_in_order(from, front, mid);
        assert(said[last] == said.last());
        assert forall|k: int| 0 <= k < said.len() implies (issued(
            #[trigger] said[k],
        ) matches Some(handle) ==> from.given() < handle.raw <= to.given()) by {
            if k < last {
                assert(front[k] == said[k]);
            }
        }
        assert forall|j: int, k: int|
            0 <= j < k < said.len() && issued(said[j]) is Some && issued(said[k]) is Some
                implies issued(#[trigger] said[j])->0.raw < issued(#[trigger] said[k])->0.raw by {
            assert(front[j] == said[j]);
            if k < last {
                assert(front[k] == said[k]);
            }
        }
        assert forall|handle: EntityHandle| #[trigger]
            to.forgotten().contains(handle) implies from.forgotten().contains(handle) || exists|
            k: int,
        |
            0 <= k < said.len() && #[trigger] said[k] is Despawn && given_up(said[k]) == Some(
                handle,
            ) by {
            if mid.forgotten().contains(handle) {
                if !from.forgotten().contains(handle) {
                    let k = choose|k: int|
                        0 <= k < front.len() && #[trigger] front[k] is Despawn && given_up(front[k])
                            == Some(handle);
                    assert(said[k] == front[k]);
                }
            } else {
                let i = choose|i: int|
                    0 <= i < to.forgotten().len() && to.forgotten()[i] == handle;
                assert(said[last] is Despawn);
                if i < mid.forgotten().len() {
                    assert(mid.forgotten()[i] == handle);
                }
            }
        }
    }
}

/// A link refuses nothing while it has handles to give and is told of none that it
/// has forgotten.
proof fn nothing_is_refused(from: Fake, said: Seq<Call<FakeError>>, to: Fake)
    requires
        relayed(from, said, to),
        from.given() + wants(said) <= u32::MAX,
        forall|k: int|
            0 <= k < said.len() ==> (relies_on(#[trigger] said[k]) matches Some(handle) ==> {
                &&& !from.forgotten().contains(handle)
                &&& forall|j: int|
                    0 <= j < k && #[trigger] said[j] is Despawn ==> relies_on(said[j]) != Some(
                        handle,
                    )
            }),
    ensures
        forall|k: int| 0 <= k < said.len() ==> refusal(#[trigger] said[k]) is None,
        has_heard(from, said, to),
    decreases said.len(),
{
    if said.len() == 0 {
        assert(to.heard().take(from.heard().len() as int) =~= from.heard());
    } else {
        let front = said.drop_last();
        let last = said.len() - 1;
        let n = from.heard().len() as int;
        let mid = choose|mid: Fake|
            relayed(from, front, mid) && #[trigger] mid.took(said.last(), to);
        assert forall|k: int| 0 <= k < front.len() implies (relies_on(
            #[trigger] front[k],
        ) matches Some(handle) ==> {
            &&& !from.forgotten().contains(handle)
            &&& forall|j: int|
                0 <= j < k && #[trigger] front[j] is Despawn ==> relies_on(front[j]) != Some(handle)
        }) by {
            assert(front[k] == said[k]);
            if relies_on(front[k]) is Some {
                assert forall|j: int| 0 <= j < k && #[trigger] front[j] is Despawn implies relies_on(
                    front[j],
                ) != relies_on(front[k]) by {
                    assert(front[j] == said[j]);
                }
            }
        }
        nothing_is_refused(from, front, mid);
        handles_come_in_order(from, front, mid);
        assert(said[last] == said.last());
        assert(refusal(said.last()) is None) by {
            if relies_on(said.last()) is Some {
                let handle = relies_on(said.last())->0;
                if mid.forgotten().contains(handle) {
                    let k = choose|k: int|
                        0 <= k < front.len() && #[trigger] front[k] is Despawn && given_up(front[k])
                            == Some(handle);
                    assert(said[k] == front[k]);
                }
            }
        }
        assert forall|k: int| 0 <= k < said.len() implies refusal(#[trigger] said[k]) is None && tells(
            said[k],
            to.heard()[n + k],
        ) by {
            assert(to.put_down(mid, said.last()));
            if k < last {
                assert(front[k] == said[k]);
                assert(to.heard().drop_last()[n + k] == mid.heard()[n + k]);
            }
        }
        assert(to.heard().take(n) =~= from.heard()) by {
            assert(to.heard().drop_last() == mid.heard());
            assert(to.heard().take(n) =~= mid.heard().take(n));
        }
    }
}

/// Calls that each ask for a handle are given them one by one.
proof fn each_is_given_the_next(from: Fake, said: Seq<Call<FakeError>>, to: Fake)
    requires
        relayed(from, said, to),
        forall|k: int| 0 <= k < said.len() ==> asks_for_one(#[trigger] said[k]),
        forall|k: int| 0 <= k < said.len() ==> refusal(#[trigger] said[k]) is None,
    ensures
        to.given() == from.given() + said.len(),
        to.forgotten() == from.forgotten(),
        forall|k: int|
            0 <= k < said.len() ==> issued(#[trigger] said[k]) == Some(upcoming(from, k + 1)),
    decreases said.len(),
{
    if said.len() > 0 {
        let front = said.drop_last();
        let last = said.len() - 1;
        let mid = choose|mid: Fake|
            relayed(from, front, mid) && #[trigger] mid.took(said.last(), to);
        assert forall|k: int| 0 <= k < front.len() implies asks_for_one(#[trigger] front[k])
            && refusal(front[k]) is None by {
            assert(front[k] == said[k]);
        }
        each_is_given_the_next(from, front, mid);
        assert(said[last] == said.last());
        assert forall|k: int| 0 <= k < said.len() implies issued(#[trigger] said[k]) == Some(
            upcoming(from, k + 1),
        ) by {
            if k < last {
                assert(front[k] == said[k]);
            }
        }
    }
}

/// Calls that each give a handle back change nothing that is given.
proof fn giving_back_gives_nothing(from: Fake, said: Seq<Call<FakeError>>, to: Fake)
    requires
        relayed(from, said, to),
        forall|k: int| 0 <= k < said.len() ==> #[trigger] said[k] is Despawn,
    ensures
        to.given() == from.given(),
    decreases said.len(),
{
    if said.len() > 0 {
        let front = said.drop_last();
        let mid = choose|mid: Fake|
            relayed(from, front, mid) && #[trigger] mid.took(said.last(), to);
        assert forall|k: int| 0 <= k < front.len() implies #[trigger] front[k] is Despawn by {
            assert(front[k] == said[k]);
        }
        giving_back_gives_nothing(from, front, mid);
        assert(said[said.len() - 1] == said.last());
    }
}

/// What is held of a population that was asked for and not refused.
pub open spec fn joined<E>(
    c: CrowdState,
    kinds: Seq<EntityKind>,
    said: Seq<Call<E>>,
    k: int,
) -> Held {
    Held {
        handle: issued(said[k])->0,
        kind: kinds[k],
        region: c.home,
        at: start(c.lane, (c.next + k) as usize),
        heading: 1,
        entity: None,
    }
}

/// What is asked for and not refused is held, in order, after what was.
proof fn the_asked_for_are_held<E>(c: CrowdState, kinds: Seq<EntityKind>, said: Seq<Call<E>>)
    requires
        asks(c, kinds, said),
        forall|k: int| 0 <= k < said.len() ==> refusal(#[trigger] said[k]) is None,
        c.next + said.len() <= usize::MAX,
    ensures
        took_on(c, said) == (CrowdState {
            held: took_on(c, said).held,
            next: (c.next + said.len()) as usize,
            ..c
        }),
        took_on(c, said).held.len() == c.held.len() + said.len(),
        forall|i: int|
            0 <= i < c.held.len() ==> #[trigger] took_on(c, said).held[i] == c.held[i],
        forall|k: int|
            #![trigger said[k]]
            0 <= k < said.len() ==> took_on(c, said).held[c.held.len() + k] == joined(
                c,
                kinds,
                said,
                k,
            ),
    decreases said.len(),
{
    if said.len() > 0 {
        let front = said.drop_last();
        let last = said.len() - 1;
        assert forall|k: int| 0 <= k < front.len() implies {
            &&& #[trigger] front[k] matches Call::Spawn { region, at, kind, .. }
            &&& region == c.home
            &&& at == start(c.lane, (c.next + k) as usize)
            &&& kind == kinds[k]
        } by {
            assert(front[k] == said[k]);
        }
        assert forall|k: int| 0 <= k < front.len() implies refusal(#[trigger] front[k]) is None by {
            assert(front[k] == said[k]);
        }
        the_asked_for_are_held(c, kinds, front);
        let b = took_on(c, front);
        let after = took_on(c, said);
        assert(said[last] == said.last());
        assert(after.held == b.held.push(newcomer(b, issued(said[last])->0, kinds[last])));
        assert forall|k: int|
            #![trigger said[k]]
            0 <= k < said.len() implies after.held[c.held.len() + k] == joined(c, kinds, said, k) by {
            if k < last {
                assert(front[k] == said[k]);
                assert(after.held[c.held.len() + k] == b.held[c.held.len() + k]);
            }
        }
        assert forall|i: int| 0 <= i < c.held.len() implies #[trigger] after.held[i] == c.held[i] by {
            assert(b.held[i] == c.held[i]);
        }
    }
}

/// Asking for a population succeeds: the link is asked for each once, where the
/// crowd has it start, and all are held, in order, by the handles it gives.
pub proof fn asking_is_answered(
    c: CrowdState,
    kinds: Seq<EntityKind>,
    from: Fake,
    said: Seq<Call<FakeError>>,
    to: Fake,
    failed: Option<FakeError>,
)
    requires
        asks(c, kinds, said),
        went_through(said, kinds.len() as int, failed),
        relayed(from, said, to),
        from.given() + kinds.len() <= u32::MAX,
        c.next + kinds.len() <= usize::MAX,
    ensures
        failed is None,
        to.given() == from.given() + kinds.len(),
        to.forgotten() == from.forgotten(),
        to.heard() == from.heard() + Seq::new(
            kinds.len(),
            |k: int| Said::Spawn(c.home, upcoming(from, k + 1)),
        ),
        took_on(c, said).held == c.held + Seq::new(
            kinds.len(),
            |k: int|
                Held {
                    handle: upcoming(from, k + 1),
                    kind: kinds[k],
                    region: c.home,
                    at: start(c.lane, (c.next + k) as usize),
                    heading: 1,
                    entity: None,
                },
        ),
        took_on(c, said) == (CrowdState {
            held: took_on(c, said).held,
            next: (c.next + kinds.len()) as usize,
            ..c
        }),
        in_step(c.held, from) ==> in_step(took_on(c, said).held, to),
{
    assert forall|k: int| 0 <= k < said.len() implies #[trigger] said[k] is Spawn by {}
    the_rest_want_at_most(said, 0);
    assert(said.len() <= kinds.len());
    nothing_is_refused(from, said, to);
    assert(failed is None) by {
        if failed is Some {
            assert(refusal(said[said.len() - 1]) is None);
        }
    }
    each_is_given_the_next(from, said, to);
    the_asked_for_are_held(c, kinds, said);
    let after = took_on(c, said);
    let n = from.heard().len() as int;
    assert(to.heard() =~= from.heard() + Seq::new(
        kinds.len(),
        |k: int| Said::Spawn(c.home, upcoming(from, k + 1)),
    )) by {
        assert forall|i: int| 0 <= i < to.heard().len() implies #[trigger] to.heard()[i] == (
        from.heard() + Seq::new(
            kinds.len(),
            |k: int| Said::Spawn(c.home, upcoming(from, k + 1)),
        ))[i] by {
            if i < n {
                assert(to.heard().take(n)[i] == from.heard()[i]);
            } else {
                assert(tells(said[i - n], to.heard()[n + (i - n)]));
                assert(issued(said[i - n]) == Some(upcoming(from, i - n + 1)));
            }
        }
    }
    assert(after.held =~= c.held + Seq::new(
        kinds.len(),
        |k: int|
            Held {
                handle: upcoming(from, k + 1),
                kind: kinds[k],
                region: c.home,
                at: start(c.lane, (c.next + k) as usize),
                heading: 1,
                entity: None,
            },
    )) by {
        assert forall|i: int| c.held.len() <= i < after.held.len() implies #[trigger] after.held[i]
            == joined(c, kinds, said, i - c.held.len()) && after.held[i].handle == upcoming(
            from,
            i - c.held.len() + 1,
        ) by {
            let k = i - c.held.len();
            assert(after.held[c.held.len() + k] == joined(c, kinds, said, k));
            assert(issued(said[k]) == Some(upcoming(from, k + 1)));
        }
    }
    if in_step(c.held, from) {
        joining_keeps_step(c.held, after.held, from, to);
    }
}

/// Entities that join by new handles, each above the last, keep a crowd in step.
proof fn joining_keeps_step(held: Seq<Held>, after: Seq<Held>, from: Fake, to: Fake)
    requires
        in_step(held, from),
        from.given() <= to.given(),
        to.forgotten() == from.forgotten(),
        held.len() <= after.len(),
        from.given() + (after.len() - held.len()) <= to.given(),
        forall|i: int| 0 <= i < held.len() ==> #[trigger] after[i] == held[i],
        forall|i: int|
            held.len() <= i < after.len() ==> (#[trigger] after[i]).handle == upcoming(
                from,
                i - held.len() + 1,
            ),
    ensures
        in_step(after, to),
{
    let lost = to.forgotten().to_set();
    assert forall|i: int, j: int| 0 <= i < j < after.len() implies (#[trigger] after[i]).handle != (
    #[trigger] after[j]).handle by {
        if j < held.len() {
            assert(held[i].handle != held[j].handle);
        } else if i < held.len() {
            assert(held[i].handle.raw <= from.given());
        }
    }
    assert forall|i: int| 0 <= i < after.len() implies !lost.contains(
        (#[trigger] after[i]).handle,
    ) && after[i].handle.raw <= to.given() by {
        if i < held.len() {
            assert(!lost.contains(held[i].handle));
            assert(held[i].handle.raw <= from.given());
        } else if lost.contains(after[i].handle) {
            let k = choose|k: int|
                0 <= k < from.forgotten().len() && from.forgotten()[k] == after[i].handle;
            assert(from.forgotten()[k].raw <= from.given());
        }
    }
    assert forall|k: int| 0 <= k < to.forgotten().len() implies (
    #[trigger] to.forgotten()[k]).raw <= to.given() by {
        assert(from.forgotten()[k].raw <= from.given());
    }
}

/// Where handles differ, so do those of the observers.
proof fn the_attended_differ(held: Seq<Held>)
    requires
        is_clear(held, Set::empty()),
    ensures
        forall|j: int, k: int|
            0 <= j < k < attended(held).len() ==> #[trigger] attended(held)[j]
                != #[trigger] attended(held)[k],
    decreases held.len(),
{
    if held.len() > 0 {
        let front = held.drop_last();
        let rest = attended(front);
        let all = attended(held);
        assert(is_clear(front, Set::empty())) by {
            assert forall|i: int, j: int| 0 <= i < j < front.len() implies (
            #[trigger] front[i]).handle != (#[trigger] front[j]).handle by {
                assert(held[i].handle != held[j].handle);
            }
        }
        the_attended_differ(front);
        the_attended_are_held(front);
        if held.last().kind == EntityKind::Observer {
            assert forall|j: int, k: int| 0 <= j < k < all.len() implies #[trigger] all[j]
                != #[trigger] all[k] by {
                assert(all[k] == rest[k - 1]);
                if j > 0 {
                    assert(all[j] == rest[j - 1]);
                } else {
                    assert(is_observer(front, rest[k - 1]));
                    let i = choose|i: int|
                        0 <= i < front.len() && (#[trigger] front[i]).handle == rest[k - 1]
                            && front[i].kind == EntityKind::Observer;
                    assert(held[i].handle != held[held.len() - 1].handle);
                }
            }
        }
    }
}

/// A crowd in step is issued handles afresh.
proof fn handles_are_issued_afresh(
    held: Seq<Held>,
    from: Fake,
    said: Seq<Call<FakeError>>,
    to: Fake,
)
    requires
        in_step(held, from),
        relayed(from, said, to),
    ensures
        issues_afresh(held, from.forgotten().to_set(), said),
{
    let forgotten = from.forgotten().to_set();
    handles_come_in_order(from, said, to);
    assert forall|k: int| 0 <= k < said.len() implies (issued(
        #[trigger] said[k],
    ) matches Some(handle) ==> !holds(held, handle) && !forgotten.contains(handle)) by {
        if issued(said[k]) is Some {
            let handle = issued(said[k])->0;
            if holds(held, handle) {
                let i = choose|i: int|
                    0 <= i < held.len() && (#[trigger] held[i]).handle == handle;
                assert(held[i].handle.raw <= from.given());
            }
            if forgotten.contains(handle) {
                let j = choose|j: int|
                    0 <= j < from.forgotten().len() && from.forgotten()[j] == handle;
                assert(from.forgotten()[j].raw <= from.given());
            }
        }
    }
    assert forall|j: int, k: int|
        0 <= j < k < said.len() && issued(said[j]) is Some implies issued(#[trigger] said[j])
            != issued(#[trigger] said[k]) by {
        if issued(said[k]) is Some {
            assert(issued(said[j])->0.raw < issued(said[k])->0.raw);
        }
    }
}

/// A crowd that is clear of all it has given up is in step, if all its handles have
/// been given and it gave back none but its own.
proof fn staying_clear_keeps_step(
    held: Seq<Held>,
    after: Seq<Held>,
    from: Fake,
    said: Seq<Call<FakeError>>,
    to: Fake,
)
    requires
        in_step(held, from),
        relayed(from, said, to),
        is_clear(after, forgotten_after(from.forgotten().to_set(), said)),
        forall|i: int| 0 <= i < after.len() ==> (#[trigger] after[i]).handle.raw <= to.given(),
        forall|k: int|
            0 <= k < said.len() ==> (#[trigger] said[k] matches Call::Despawn { handle, .. }
                ==> holds(held, handle)),
    ensures
        in_step(after, to),
{
    let lost = forgotten_after(from.forgotten().to_set(), said);
    handles_come_in_order(from, said, to);
    assert forall|i: int| 0 <= i < after.len() implies !to.forgotten().to_set().contains(
        (#[trigger] after[i]).handle,
    ) by {
        let handle = after[i].handle;
        assert(!lost.contains(handle));
        if to.forgotten().contains(handle) {
            if from.forgotten().contains(handle) {
                assert(from.forgotten().to_set().contains(handle));
            } else {
                let k = choose|k: int|
                    0 <= k < said.len() && #[trigger] said[k] is Despawn && given_up(said[k])
                        == Some(handle);
                assert(given_up(said[k]) == Some(handle));
            }
        }
    }
    assert forall|k: int| 0 <= k < to.forgotten().len() implies (
    #[trigger] to.forgotten()[k]).raw <= to.given() by {
        let handle = to.forgotten()[k];
        assert(to.forgotten().contains(handle));
        if from.forgotten().contains(handle) {
            let j = choose|j: int|
                0 <= j < from.forgotten().len() && from.forgotten()[j] == handle;
            assert(from.forgotten()[j].raw <= from.given());
        } else {
            let j = choose|j: int|
                0 <= j < said.len() && #[trigger] said[j] is Despawn && given_up(said[j]) == Some(
                    handle,
                );
            assert(holds(held, handle));
            let i = choose|i: int| 0 <= i < held.len() && (#[trigger] held[i]).handle == handle;
            assert(held[i].handle.raw <= from.given());
        }
    }
}

/// What a churn relies on, in parts: each handle it gives back is an observer's,
/// which the link has not forgotten, and it gives none back twice.
proof fn a_churn_is_sound(
    c: CrowdState,
    n: usize,
    from: Fake,
    said: Seq<Call<FakeError>>,
    to: Fake,
    r: Result<usize, FakeError>,
    after: CrowdState,
)
    requires
        churns(c, n, said, r, after),
        relayed(from, said, to),
        in_step(c.held, from),
        from.given() + n <= u32::MAX,
        can_churn(c.held, n as int),
    ensures
        said.len() == 2 * n,
        r == Ok::<usize, FakeError>(n),
        has_heard(from, said, to),
        forall|k: int| 0 <= k < said.len() ==> refusal(#[trigger] said[k]) is None,
        forall|k: int|
            0 <= k < n ==> (#[trigger] said[k] matches Call::Despawn { handle, .. } && handle
                == leaving(c.held, n as int)[k]),
        forall|k: int|
            n <= k < said.len() ==> (#[trigger] said[k] matches Call::Spawn { region, .. }
                && region == c.home),
        forall|k: int|
            0 <= k < said.len() ==> (#[trigger] said[k] matches Call::Despawn { handle, .. }
                ==> holds(c.held, handle)),
        after == took_on(thinned(c, n as int), said.skip(n as int)),
{
    let gone = leaving(c.held, n as int);
    let d = if said.len() < n {
        said.len() as int
    } else {
        n as int
    };
    let given = said.take(d);
    let asked = said.skip(d);
    the_attended_are_held(c.held);
    assert(is_clear(c.held, Set::empty()));
    the_attended_differ(c.held);
    assert forall|k: int| 0 <= k < d implies (#[trigger] said[k] matches Call::Despawn {
        handle,
        ..
    } && handle == gone[k] && holds(c.held, handle) && !from.forgotten().contains(handle)) by {
        assert(given[k] == said[k]);
        assert(gone[k] == attended(c.held)[k]);
        assert(is_observer(c.held, attended(c.held)[k]));
        let i = choose|i: int|
            0 <= i < c.held.len() && (#[trigger] c.held[i]).handle == attended(c.held)[k]
                && c.held[i].kind == EntityKind::Observer;
        assert(!from.forgotten().to_set().contains(c.held[i].handle));
    }
    assert forall|k: int| d <= k < said.len() implies (#[trigger] said[k] matches Call::Spawn {
        region,
        ..
    } && region == c.home) by {
        assert(asked[k - d] == said[k]);
    }
    assert forall|k: int| 0 <= k < said.len() implies (relies_on(
        #[trigger] said[k],
    ) matches Some(handle) ==> {
        &&& !from.forgotten().contains(handle)
        &&& forall|j: int|
            0 <= j < k && #[trigger] said[j] is Despawn ==> relies_on(said[j]) != Some(handle)
    }) by {
        if k < d {
            assert forall|j: int| 0 <= j < k && #[trigger] said[j] is Despawn implies relies_on(
                said[j],
            ) != relies_on(said[k]) by {
                assert(gone[j] == attended(c.held)[j] && gone[k] == attended(c.held)[k]);
            }
        }
    }
    the_rest_want_at_most(said, d);
    assert(said.len() - d <= n) by {
        if refusal(given.last()) is None {
            assert(went_through(asked, n as int, r.err()));
        }
    }
    nothing_is_refused(from, said, to);
    assert(given.last() == said[d - 1]);
    assert(refusal(given.last()) is None);
    assert(d == n);
    assert(r.err() is None) by {
        if r.err() is Some {
            assert(asked.last() == said[said.len() - 1]);
        }
    }
}

/// A churn is refused nothing: it gives back as many observers as it was told to,
/// last first, and takes on as many by the handles it is given. The link is told
/// so, in that order, and the crowd stays in step with it, and as large.
pub proof fn a_churn_is_answered(
    c: CrowdState,
    n: usize,
    from: Fake,
    said: Seq<Call<FakeError>>,
    to: Fake,
    r: Result<usize, FakeError>,
    after: CrowdState,
)
    requires
        churns(c, n, said, r, after),
        relayed(from, said, to),
        in_step(c.held, from),
        from.given() + n <= u32::MAX,
        c.next + n <= usize::MAX,
    ensures
        r == Ok::<usize, FakeError>(
            if can_churn(c.held, n as int) {
                n
            } else {
                0
            },
        ),
        in_step(after.held, to),
        after.held.len() == c.held.len(),
        after == (CrowdState { held: after.held, next: after.next, ..c }),
        c.next <= after.next <= c.next + n,
        from.given() <= to.given() <= from.given() + n,
        !can_churn(c.held, n as int) ==> to == from && after == c,
        can_churn(c.held, n as int) ==> {
            let stay = thinned(c, n as int).held;
            &&& to.given() == from.given() + n
            &&& to.heard() == from.heard() + leaving(c.held, n as int).map_values(
                |handle: EntityHandle| Said::Despawn(handle),
            ) + Seq::new(n as nat, |k: int| Said::Spawn(c.home, upcoming(from, k + 1)))
            &&& stay.len() == c.held.len() - n
            &&& after.held == stay + Seq::new(
                n as nat,
                |k: int|
                    Held {
                        handle: upcoming(from, k + 1),
                        kind: EntityKind::Observer,
                        region: c.home,
                        at: start(c.lane, (c.next + k) as usize),
                        heading: 1,
                        entity: None,
                    },
            )
        },
{
    if can_churn(c.held, n as int) {
        let gone = leaving(c.held, n as int);
        let given = said.take(n as int);
        let asked = said.skip(n as int);
        a_churn_is_sound(c, n, from, said, to, r, after);
        let mid = relaying_parts(from, said, to, n as int);
        assert forall|k: int| 0 <= k < given.len() implies #[trigger] given[k] is Despawn by {
            assert(given[k] == said[k]);
        }
        giving_back_gives_nothing(from, given, mid);
        assert forall|k: int| 0 <= k < asked.len() implies asks_for_one(#[trigger] asked[k])
            && refusal(asked[k]) is None by {
            assert(asked[k] == said[n + k]);
        }
        each_is_given_the_next(mid, asked, to);
        assert forall|k: int| 0 <= k < asked.len() implies issued(#[trigger] asked[k]) == Some(
            upcoming(from, k + 1),
        ) by {}
        assert(is_clear(c.held, Set::empty()));
        a_churn_replaces_what_it_gives_back(c, n, said, r, after);
        the_churned_are_replaced(c, n, from, said, r, after);
        a_churn_is_heard(c, n, from, said, to);
        a_churn_keeps_step(c, n, from, said, to, r, after);
    }
}

/// Who is held after a churn that was refused nothing.
proof fn the_churned_are_replaced(
    c: CrowdState,
    n: usize,
    from: Fake,
    said: Seq<Call<FakeError>>,
    r: Result<usize, FakeError>,
    after: CrowdState,
)
    requires
        churns(c, n, said, r, after),
        can_churn(c.held, n as int),
        said.len() == 2 * n,
        c.next + n <= usize::MAX,
        forall|k: int| 0 <= k < said.len() ==> refusal(#[trigger] said[k]) is None,
        forall|k: int|
            0 <= k < n ==> issued(#[trigger] said.skip(n as int)[k]) == Some(upcoming(from, k + 1)),
        after == took_on(thinned(c, n as int), said.skip(n as int)),
    ensures
        after.held == thinned(c, n as int).held + Seq::new(
            n as nat,
            |k: int|
                Held {
                    handle: upcoming(from, k + 1),
                    kind: EntityKind::Observer,
                    region: c.home,
                    at: start(c.lane, (c.next + k) as usize),
                    heading: 1,
                    entity: None,
                },
        ),
        after == (CrowdState { held: after.held, next: (c.next + n) as usize, ..c }),
{
    let thin = thinned(c, n as int);
    let given = said.take(n as int);
    let asked = said.skip(n as int);
    let kinds = population(n as int, n as int);
    assert(given.last() == said[n - 1]);
    assert(asks(thin, kinds, asked));
    assert forall|k: int| 0 <= k < asked.len() implies refusal(#[trigger] asked[k]) is None by {
        assert(asked[k] == said[n + k]);
    }
    the_asked_for_are_held(thin, kinds, asked);
    let all = thin.held + Seq::new(
        n as nat,
        |k: int|
            Held {
                handle: upcoming(from, k + 1),
                kind: EntityKind::Observer,
                region: c.home,
                at: start(c.lane, (c.next + k) as usize),
                heading: 1,
                entity: None,
            },
    );
    assert forall|i: int| 0 <= i < after.held.len() implies #[trigger] after.held[i] == all[i] by {
        if i >= thin.held.len() {
            let k = i - thin.held.len();
            assert(issued(asked[k]) == Some(upcoming(from, k + 1)));
            assert(after.held[thin.held.len() + k] == joined(thin, kinds, asked, k));
        }
    }
    assert(after.held =~= all);
}

/// What a link is told of a churn that it refuses nothing.
proof fn a_churn_is_heard(
    c: CrowdState,
    n: usize,
    from: Fake,
    said: Seq<Call<FakeError>>,
    to: Fake,
)
    requires
        has_heard(from, said, to),
        can_churn(c.held, n as int),
        said.len() == 2 * n,
        forall|k: int| 0 <= k < said.len() ==> refusal(#[trigger] said[k]) is None,
        forall|k: int|
            0 <= k < n ==> (#[trigger] said[k] matches Call::Despawn { handle, .. } && handle
                == leaving(c.held, n as int)[k]),
        forall|k: int|
            n <= k < said.len() ==> (#[trigger] said[k] matches Call::Spawn { region, .. }
                && region == c.home),
        forall|k: int|
            0 <= k < n ==> issued(#[trigger] said.skip(n as int)[k]) == Some(upcoming(from, k + 1)),
    ensures
        to.heard() == from.heard() + leaving(c.held, n as int).map_values(
            |handle: EntityHandle| Said::Despawn(handle),
        ) + Seq::new(n as nat, |k: int| Said::Spawn(c.home, upcoming(from, k + 1))),
{
    let gone = leaving(c.held, n as int);
    let asked = said.skip(n as int);
    let told = from.heard() + gone.map_values(|handle: EntityHandle| Said::Despawn(handle))
        + Seq::new(n as nat, |k: int| Said::Spawn(c.home, upcoming(from, k + 1)));
    let m = from.heard().len() as int;
    assert forall|i: int| 0 <= i < to.heard().len() implies #[trigger] to.heard()[i] == told[i] by {
        if i < m {
            assert(to.heard().take(m)[i] == from.heard()[i]);
        } else {
            assert(tells(said[i - m], to.heard()[m + (i - m)]));
            if i - m >= n {
                assert(asked[i - m - n] == said[i - m]);
            }
        }
    }
    assert(to.heard() =~= told);
}

/// A churn that is refused nothing keeps a crowd in step.
proof fn a_churn_keeps_step(
    c: CrowdState,
    n: usize,
    from: Fake,
    said: Seq<Call<FakeError>>,
    to: Fake,
    r: Result<usize, FakeError>,
    after: CrowdState,
)
    requires
        churns(c, n, said, r, after),
        relayed(from, said, to),
        in_step(c.held, from),
        can_churn(c.held, n as int),
        said.len() == 2 * n,
        to.given() == from.given() + n,
        forall|k: int| 0 <= k < said.len() ==> refusal(#[trigger] said[k]) is None,
        forall|k: int|
            0 <= k < said.len() ==> (#[trigger] said[k] matches Call::Despawn { handle, .. }
                ==> holds(c.held, handle)),
        after.held.len() == thinned(c, n as int).held.len() + n,
        forall|i: int|
            0 <= i < thinned(c, n as int).held.len() ==> #[trigger] after.held[i] == thinned(
                c,
                n as int,
            ).held[i],
        forall|i: int|
            thinned(c, n as int).held.len() <= i < after.held.len() ==> (
            #[trigger] after.held[i]).handle == upcoming(
                from,
                i - thinned(c, n as int).held.len() + 1,
            ),
    ensures
        in_step(after.held, to),
{
    let gone = leaving(c.held, n as int);
    let thin = thinned(c, n as int);
    handles_are_issued_afresh(c.held, from, said, to);
    assert(refusal(said[said.len() - 1]) is None);
    a_churn_stays_clear(c, from.forgotten().to_set(), n, said, r, after);
    keeping(c.held, gone);
    assert forall|i: int| 0 <= i < after.held.len() implies (#[trigger] after.held[i]).handle.raw
        <= to.given() by {
        if i < thin.held.len() {
            assert(after.held[i] == thin.held[i]);
            let j = choose|j: int|
                i <= j < c.held.len() && kept(c.held, gone)[i] == #[trigger] c.held[j];
            assert(c.held[j].handle.raw <= from.given());
        }
    }
    staying_clear_keeps_step(c.held, after.held, from, said, to);
}

/// A migration is refused nothing: everyone the sweep takes goes over, by the
/// handles the link gives, in the order of the sweep. The link is told so, and the
/// crowd stays in step with it.
pub proof fn a_migration_is_answered(
    c: CrowdState,
    n: usize,
    from: Fake,
    said: Seq<Call<FakeError>>,
    to: Fake,
    r: Result<(), FakeError>,
    after: CrowdState,
)
    requires
        migrates(c, n, said, r, after),
        relayed(from, said, to),
        in_step(c.held, from),
        from.given() + sweep_len(c, n) <= u32::MAX,
        c.migrated + c.held.len() <= u64::MAX,
    ensures
        r is Ok,
        in_step(after.held, to),
        after.held.len() == c.held.len(),
        after.next == c.next && after.away == c.away && after.home == c.home,
        from.given() <= to.given() <= from.given() + sweep_len(c, n),
        after.migrated == c.migrated + said.len(),
        to.given() == from.given() + said.len(),
        to.forgotten() == from.forgotten(),
        c.away is None ==> to == from && after == c,
        c.away matches Some(away) ==> {
            let places = going(c, sweep_len(c, n));
            &&& said.len() == places.len()
            &&& to.heard() == from.heard() + Seq::new(
                places.len(),
                |k: int|
                    Said::Migrate {
                        handle: c.held[places[k]].handle,
                        to: other_side(c, away, c.held[places[k]].region),
                        became: upcoming(from, k + 1),
                    },
            )
            &&& forall|k: int|
                0 <= k < places.len() ==> {
                    let i = #[trigger] places[k];
                    after.held[i] == (Held {
                        handle: upcoming(from, k + 1),
                        region: other_side(c, away, c.held[i].region),
                        entity: None,
                        ..c.held[i]
                    })
                }
            &&& forall|i: int|
                0 <= i < c.held.len() && !places.contains(i) ==> #[trigger] after.held[i]
                    == c.held[i]
        },
{
    let steps = sweep_len(c, n);
    let lost = from.forgotten().to_set();
    if c.away is Some && steps > 0 {
        let away = c.away->0;
        let places = going(c, steps);
        a_sweep_repeats_nothing(c, steps);
        assert forall|k: int| 0 <= k < said.len() implies #[trigger] said[k] is Migrate && (
        relies_on(said[k]) matches Some(handle) ==> !from.forgotten().contains(handle)) by {
            assert(0 <= places[k] < c.held.len());
            assert(!lost.contains(c.held[places[k]].handle));
        }
        the_rest_want_at_most(said, 0);
        assert(said.len() <= places.len() <= steps);
        nothing_is_refused(from, said, to);
        assert(r.err() is None) by {
            if r.err() is Some {
                assert(refusal(said[said.len() - 1]) is None);
            }
        }
        each_is_given_the_next(from, said, to);
        moving_over_changes_what_moved(c, away, places, said);
        assert(said.len() > 0 ==> refusal(said.last()) is None);
        assert forall|k: int| 0 <= k < places.len() implies {
            let i = #[trigger] places[k];
            after.held[i] == (Held {
                handle: upcoming(from, k + 1),
                region: other_side(c, away, c.held[i].region),
                entity: None,
                ..c.held[i]
            })
        } by {
            assert(issued(said[k]) == Some(upcoming(from, k + 1)));
        }
        assert forall|i: int| 0 <= i < c.held.len() && !places.contains(i) implies
            #[trigger] after.held[i] == c.held[i] by {
            assert forall|k: int| 0 <= k < said.len() implies #[trigger] places[k] != i by {
                if places[k] == i {
                    assert(places.contains(i));
                }
            }
            assert(moved_over(c, away, places, said).held[i] == c.held[i]);
        }
        let told = from.heard() + Seq::new(
            places.len(),
            |k: int|
                Said::Migrate {
                    handle: c.held[places[k]].handle,
                    to: other_side(c, away, c.held[places[k]].region),
                    became: upcoming(from, k + 1),
                },
        );
        let m = from.heard().len() as int;
        assert forall|i: int| 0 <= i < to.heard().len() implies #[trigger] to.heard()[i] == told[i] by {
            if i < m {
                assert(to.heard().take(m)[i] == from.heard()[i]);
            } else {
                assert(tells(said[i - m], to.heard()[m + (i - m)]));
                assert(issued(said[i - m]) == Some(upcoming(from, i - m + 1)));
            }
        }
        assert(to.heard() =~= told);
        handles_are_issued_afresh(c.held, from, said, to);
        a_migration_stays_clear(c, lost, n, said, r, after);
        assert forall|i: int| 0 <= i < after.held.len() implies (
        #[trigger] after.held[i]).handle.raw <= to.given() by {
            assert(c.held[i].handle.raw <= from.given());
            if places.contains(i) {
                let k = choose|k: int| 0 <= k < places.len() && places[k] == i;
                assert(after.held[places[k]].handle == upcoming(from, k + 1));
            }
        }
        staying_clear_keeps_step(c.held, after.held, from, said, to);
    } else if c.away is Some {
        assert(to.heard() =~= from.heard() + Seq::new(
            0,
            |k: int|
                Said::Migrate {
                    handle: c.held[going(c, steps)[k]].handle,
                    to: other_side(c, c.away->0, c.held[going(c, steps)[k]].region),
                    became: upcoming(from, k + 1),
                },
        ));
    }
}

/// A walk is refused nothing, and the link is told of everyone, in order, before
/// any region has named them.
pub proof fn a_walk_is_answered(
    c: CrowdState,
    from: Fake,
    done: Result<(), FakeError>,
    to: Fake,
)
    requires
        from.took(Call::Moved { moves: whereabouts(all_paced(c).held), done }, to),
    ensures
        done is Ok,
        to.heard().len() == from.heard().len() + 1,
        to.heard().drop_last() == from.heard(),
        ({
            &&& to.heard().last() matches Said::Moved(handles)
            &&& handles@ == c.held.map_values(|one: Held| one.handle)
        }),
        in_step(c.held, from) ==> in_step(all_paced(c).held, to),
{
    let paced = all_paced(c).held;
    assert(whereabouts(paced).map_values(|m: (EntityHandle, Pos3)| m.0) =~= c.held.map_values(
        |one: Held| one.handle,
    ));
    if in_step(c.held, from) {
        let lost = from.forgotten().to_set();
        assert forall|i: int, j: int| 0 <= i < j < paced.len() implies (#[trigger] paced[i]).handle
            != (#[trigger] paced[j]).handle by {
            assert(c.held[i].handle != c.held[j].handle);
        }
        assert forall|i: int| 0 <= i < paced.len() implies !lost.contains(
            (#[trigger] paced[i]).handle,
        ) && paced[i].handle.raw <= to.given() by {
            assert(!lost.contains(c.held[i].handle));
        }
    }
}

/// Settling keeps a crowd in step: it gives no one another handle.
pub proof fn settling_keeps_step(c: CrowdState, heard: Heard, link: Fake)
    requires
        in_step(c.held, link),
    ensures
        in_step(settled(c, heard).held, link),
{
    let near = all_named(c.held, heard.spawned);
    let after = settled(c, heard).held;
    settling_stays_clear(c, link.forgotten().to_set(), heard);
    naming_keeps_handles(c.held, heard.spawned);
    keeping(near, heard.removed);
    assert forall|i: int| 0 <= i < after.len() implies (#[trigger] after[i]).handle.raw
        <= link.given() by {
        let j = choose|j: int| i <= j < near.len() && after[i] == #[trigger] near[j];
        assert(near[j].handle == c.held[j].handle);
    }
}

/// Whether a churn and then a migration, answered like that, make of a crowd and
/// a link what is found of them.
pub open spec fn round(
    c: CrowdState,
    from: Fake,
    churn: usize,
    migrate: usize,
    churned: Result<usize, FakeError>,
    gone: Result<(), FakeError>,
    after: CrowdState,
    to: Fake,
) -> bool {
    exists|
        given: Seq<Call<FakeError>>,
        mid: CrowdState,
        near: Fake,
        went: Seq<Call<FakeError>>,
    |
        {
            &&& #[trigger] churns(c, churn, given, churned, mid)
            &&& #[trigger] relayed(from, given, near)
            &&& #[trigger] migrates(mid, migrate, went, gone, after)
            &&& #[trigger] relayed(near, went, to)
        }
}

/// One round of churn and migration is refused nothing.
proof fn a_round_is_answered(
    c: CrowdState,
    from: Fake,
    churn: usize,
    migrate: usize,
    churned: Result<usize, FakeError>,
    gone: Result<(), FakeError>,
    after: CrowdState,
    to: Fake,
)
    requires
        round(c, from, churn, migrate, churned, gone, after, to),
        in_step(c.held, from),
        from.given() + churn + c.held.len() <= u32::MAX,
        c.next + churn <= usize::MAX,
        c.migrated + c.held.len() <= u64::MAX,
    ensures
        churned is Ok,
        gone is Ok,
        in_step(after.held, to),
        after.held.len() == c.held.len(),
        after.next <= c.next + churn,
        after.migrated <= c.migrated + c.held.len(),
        to.given() <= from.given() + churn + c.held.len(),
{
    let (given, mid, near, went) = choose|
        given: Seq<Call<FakeError>>,
        mid: CrowdState,
        near: Fake,
        went: Seq<Call<FakeError>>,
    |
        {
            &&& #[trigger] churns(c, churn, given, churned, mid)
            &&& #[trigger] relayed(from, given, near)
            &&& #[trigger] migrates(mid, migrate, went, gone, after)
            &&& #[trigger] relayed(near, went, to)
        };
    a_churn_is_answered(c, churn, from, given, near, churned, mid);
    a_migration_is_answered(mid, migrate, near, went, to, gone, after);
}

/// Rounds of churn and migration are all refused nothing, however many, for as
/// long as handles, places and counts last: no forgotten entity is ever named.
pub proof fn rounds_are_answered(
    crowds: Seq<CrowdState>,
    links: Seq<Fake>,
    churn: usize,
    migrate: usize,
    churned: Seq<Result<usize, FakeError>>,
    gone: Seq<Result<(), FakeError>>,
    rounds: int,
)
    requires
        0 <= rounds,
        crowds.len() == rounds + 1,
        links.len() == rounds + 1,
        churned.len() == rounds,
        gone.len() == rounds,
        in_step(crowds[0].held, links[0]),
        forall|k: int|
            #![trigger churned[k]]
            0 <= k < rounds ==> round(
                crowds[k],
                links[k],
                churn,
                migrate,
                churned[k],
                gone[k],
                crowds[k + 1],
                links[k + 1],
            ),
        links[0].given() + rounds * (churn + crowds[0].held.len()) <= u32::MAX,
        crowds[0].next + rounds * churn <= usize::MAX,
        crowds[0].migrated + rounds * crowds[0].held.len() <= u64::MAX,
    ensures
        forall|k: int| 0 <= k < rounds ==> (#[trigger] churned[k]) is Ok && gone[k] is Ok,
        in_step(crowds[rounds].held, links[rounds]),
        crowds[rounds].held.len() == crowds[0].held.len(),
        links[rounds].given() <= links[0].given() + rounds * (churn + crowds[0].held.len()),
        crowds[rounds].next <= crowds[0].next + rounds * churn,
        crowds[rounds].migrated <= crowds[0].migrated + rounds * crowds[0].held.len(),
    decreases rounds,
{
    if rounds > 0 {
        let k = rounds - 1;
        let each = churn + crowds[0].held.len();
        let held = crowds[0].held.len() as int;
        assert(rounds * each == k * each + each) by (nonlinear_arith)
            requires
                rounds == k + 1,
        ;
        assert(rounds * churn == k * churn + churn) by (nonlinear_arith)
            requires
                rounds == k + 1,
        ;
        assert(rounds * held == k * held + held) by (nonlinear_arith)
            requires
                rounds == k + 1,
        ;
        let (cs, ls) = (crowds.drop_last(), links.drop_last());
        let (chs, gs) = (churned.drop_last(), gone.drop_last());
        assert forall|j: int|
            #![trigger chs[j]]
            0 <= j < k implies round(
            cs[j],
            ls[j],
            churn,
            migrate,
            chs[j],
            gs[j],
            cs[j + 1],
            ls[j + 1],
        ) by {
            assert(chs[j] == churned[j]);
        }
        rounds_are_answered(cs, ls, churn, migrate, chs, gs, k);
        assert(churned[k] == churned[k]);
        a_round_is_answered(
            crowds[k],
            links[k],
            churn,
            migrate,
            churned[k],
            gone[k],
            crowds[rounds],
            links[rounds],
        );
        assert forall|j: int| 0 <= j < rounds implies (#[trigger] churned[j]) is Ok && gone[j] is Ok by {
            if j < k {
                assert(chs[j] == churned[j] && gs[j] == gone[j]);
            }
        }
    }
}

/// A whole pass is refused nothing, and the crowd stays in step: a client is never
/// stopped by what it has churned, moved, or been told is gone. It sums up when
/// that is due.
pub proof fn a_pass_is_answered(
    s: SessionState,
    heard: Heard,
    due: bool,
    churn: usize,
    migrate: usize,
    from: Fake,
    said: Seq<Call<FakeError>>,
    to: Fake,
    r: Result<Option<Summary>, FakeError>,
    after: SessionState,
    left: Heard,
)
    requires
        passes(s, heard, due, churn, migrate, said, r, after, left),
        relayed(from, said, to),
        in_step(s.crowd.held, from),
        from.given() + churn + s.crowd.held.len() <= u32::MAX,
        s.crowd.next + churn <= usize::MAX,
        s.crowd.migrated + s.crowd.held.len() <= u64::MAX,
    ensures
        r matches Ok(summary) && (summary is Some <==> due),
        in_step(after.crowd.held, to),
{
    let near = settled(s.crowd, heard);
    let crowd = all_paced(near);
    let n = crowd.held.len();
    let moves = if n > 0 {
        1int
    } else {
        0
    };
    settling_keeps_step(s.crowd, heard, from);
    settling_adds_no_one(s.crowd, heard);
    let mid = relaying_parts(from, said, to, moves);
    let rest = said.skip(moves);
    if n > 0 {
        let first = said.take(1);
        let call = said[0];
        assert(first.last() == call);
        assert(first.drop_last() =~= Seq::empty());
        assert(from.took(call, mid)) by {
            reveal_with_fuel(relayed, 2);
        }
        a_walk_is_answered(near, from, call->Moved_done, mid);
    } else {
        assert(said.take(0) =~= Seq::empty());
        assert(crowd.held =~= near.held);
    }
    let walked = SessionState { crowd, sent: (s.sent + n) as u64, ..s };
    if due {
        a_summing_up_is_answered(walked, quiet(heard), churn, migrate, mid, rest, to, r, after, left);
    } else {
        assert(rest =~= Seq::empty());
    }
}

/// The once-a-second part of a pass is refused nothing.
proof fn a_summing_up_is_answered(
    s: SessionState,
    heard: Heard,
    churn: usize,
    migrate: usize,
    from: Fake,
    said: Seq<Call<FakeError>>,
    to: Fake,
    r: Result<Option<Summary>, FakeError>,
    after: SessionState,
    left: Heard,
)
    requires
        sums_up(s, heard, churn, migrate, said, r, after, left),
        relayed(from, said, to),
        in_step(s.crowd.held, from),
        from.given() + churn + s.crowd.held.len() <= u32::MAX,
        s.crowd.next + churn <= usize::MAX,
        s.crowd.migrated + s.crowd.held.len() <= u64::MAX,
    ensures
        r matches Ok(Some(_)),
        in_step(after.crowd.held, to),
{
    // Whatever parts the calls into, the first part is a churn, which succeeds,
    // and the rest is then a migration.
    let (first, churned, c) = choose|first: int, churned: Result<usize, FakeError>, c: CrowdState|
        {
            &&& 0 <= first <= said.len()
            &&& #[trigger] churns(s.crowd, churn, said.take(first), churned, c)
            &&& match churned {
                Err(e) => {
                    &&& first == said.len()
                    &&& r == Err::<Option<Summary>, FakeError>(e)
                    &&& after == (SessionState { crowd: c, ..s })
                    &&& left == heard
                },
                Ok(n) => {
                    let given_back = (s.given_back + n) as u64;
                    &&& after.given_back == given_back
                    &&& exists|gone: Result<(), FakeError>|
                        {
                            &&& #[trigger] migrates(
                                c,
                                migrate,
                                said.skip(first),
                                gone,
                                after.crowd,
                            )
                            &&& match gone {
                                Err(e) => {
                                    &&& r == Err::<Option<Summary>, FakeError>(e)
                                    &&& after.sent == s.sent
                                    &&& left == heard
                                },
                                Ok(_) => {
                                    let done = SessionState { sent: s.sent, ..after };
                                    &&& r == Ok::<Option<Summary>, FakeError>(
                                        Some(summary_of(done, heard)),
                                    )
                                    &&& after.sent == 0
                                    &&& left == (Heard { packets: 0, records: 0, ..heard })
                                },
                            }
                        }
                },
            }
        };
    let mid = relaying_parts(from, said, to, first);
    a_churn_is_answered(s.crowd, churn, from, said.take(first), mid, churned, c);
    assert(migrates(c, migrate, said.skip(first), Ok(()), after.crowd)
        || exists|e: FakeError|
        #[trigger] migrates(c, migrate, said.skip(first), Err(e), after.crowd) && r == Err::<
            Option<Summary>,
            FakeError,
        >(e));
    if exists|e: FakeError|
        #[trigger] migrates(c, migrate, said.skip(first), Err(e), after.crowd) && r == Err::<
            Option<Summary>,
            FakeError,
        >(e) {
        let e = choose|e: FakeError|
            #[trigger] migrates(c, migrate, said.skip(first), Err(e), after.crowd) && r == Err::<
                Option<Summary>,
                FakeError,
            >(e);
        a_migration_is_answered(c, migrate, mid, said.skip(first), to, Err(e), after.crowd);
    } else {
        a_migration_is_answered(c, migrate, mid, said.skip(first), to, Ok(()), after.crowd);
    }
}

} // verus!
