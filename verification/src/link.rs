//! What a crowd needs from its edge, and nothing else.
//!
//! Four calls. The game's own logic, who moves where, who is replaced and who
//! walks into the other region, speaks to an edge through them alone, so it is
//! stated over what was said through them: the calls that were made, in order,
//! each with its answer.

use vstd::prelude::*;

use crate::ids::{EntityHandle, EntityKind, RegionId};
use crate::units::Pos3;

verus! {

/// One call through a link, with its answer.
pub enum Call<E> {
    /// Asked a region for an entity.
    Spawn {
        region: RegionId,
        at: Pos3,
        kind: EntityKind,
        answer: Result<EntityHandle, E>,
    },
    /// Moved an entity to another region.
    Migrate {
        handle: EntityHandle,
        to: RegionId,
        at: Pos3,
        answer: Result<EntityHandle, E>,
    },
    /// Gave an entity back.
    Despawn { handle: EntityHandle, done: Result<(), E> },
    /// Said where entities are.
    Moved { moves: Seq<(EntityHandle, Pos3)>, done: Result<(), E> },
}

/// The part of an edge a crowd speaks to.
pub trait Link: Sized {
    /// Why a call fails.
    type Error;

    /// What a call does to the link, answered as it was. A link of which nothing
    /// is known may answer anything.
    open spec fn took(self, call: Call<Self::Error>, after: Self) -> bool {
        true
    }

    /// Asks a region for an entity, and returns the handle it goes by.
    fn spawn(&mut self, region: RegionId, at: Pos3, kind: EntityKind) -> (answer: Result<
        EntityHandle,
        Self::Error,
    >)
        ensures
            old(self).took(Call::Spawn { region, at, kind, answer }, *final(self)),
    ;

    /// Moves an entity to another region, returning the handle it goes by there.
    /// The old one stops working once the move lands.
    fn migrate(&mut self, handle: EntityHandle, to: RegionId, at: Pos3) -> (answer: Result<
        EntityHandle,
        Self::Error,
    >)
        ensures
            old(self).took(Call::Migrate { handle, to, at, answer }, *final(self)),
    ;

    /// Gives an entity back.
    fn despawn(&mut self, handle: EntityHandle) -> (done: Result<(), Self::Error>)
        ensures
            old(self).took(Call::Despawn { handle, done }, *final(self)),
    ;

    /// Says where entities are.
    fn move_entities(&mut self, moves: &[(EntityHandle, Pos3)]) -> (done: Result<(), Self::Error>)
        ensures
            old(self).took(Call::Moved { moves: moves@, done }, *final(self)),
    ;
}

/// Whether a run of calls, answered as they were, took a link from one state to
/// another.
pub open spec fn relayed<L: Link>(from: L, said: Seq<Call<L::Error>>, to: L) -> bool
    decreases said.len(),
{
    if said.len() == 0 {
        from == to
    } else {
        exists|mid: L|
            relayed(from, said.drop_last(), mid) && #[trigger] mid.took(said.last(), to)
    }
}

/// One call more.
pub(crate) proof fn relaying_one_more<L: Link>(
    from: L,
    said: Seq<Call<L::Error>>,
    mid: L,
    call: Call<L::Error>,
    to: L,
)
    requires
        relayed(from, said, mid),
        mid.took(call, to),
    ensures
        relayed(from, said.push(call), to),
{
    let all = said.push(call);
    assert(all.drop_last() =~= said);
    assert(all.last() == call);
}

/// One run of calls after another.
pub(crate) proof fn relaying_goes_on<L: Link>(
    from: L,
    said: Seq<Call<L::Error>>,
    mid: L,
    more: Seq<Call<L::Error>>,
    to: L,
)
    requires
        relayed(from, said, mid),
        relayed(mid, more, to),
    ensures
        relayed(from, said + more, to),
    decreases more.len(),
{
    if more.len() == 0 {
        assert(said + more =~= said);
    } else {
        let front = more.drop_last();
        let near = choose|near: L|
            relayed(mid, front, near) && #[trigger] near.took(more.last(), to);
        relaying_goes_on(from, said, mid, front, near);
        relaying_one_more(from, said + front, near, more.last(), to);
        assert((said + front).push(more.last()) =~= said + more);
    }
}

/// A run of calls is one run after another, wherever it is parted.
pub(crate) proof fn relaying_parts<L: Link>(
    from: L,
    said: Seq<Call<L::Error>>,
    to: L,
    d: int,
) -> (mid: L)
    requires
        relayed(from, said, to),
        0 <= d <= said.len(),
    ensures
        relayed(from, said.take(d), mid),
        relayed(mid, said.skip(d), to),
    decreases said.len(),
{
    if d == said.len() {
        assert(said.take(d) =~= said);
        to
    } else {
        let front = said.drop_last();
        let near = choose|near: L|
            relayed(from, front, near) && #[trigger] near.took(said.last(), to);
        let mid = relaying_parts(from, front, near, d);
        relaying_one_more(mid, front.skip(d), near, said.last(), to);
        assert(front.skip(d).push(said.last()) =~= said.skip(d));
        assert(front.take(d) =~= said.take(d));
        mid
    }
}

/// A link, with what was said through it.
pub struct Line<L: Link> {
    /// What the calls go to.
    pub link: L,
    calls: Ghost<Seq<Call<L::Error>>>,
}

impl<L: Link> Line<L> {
    /// What was said so far.
    pub closed spec fn calls(&self) -> Seq<Call<L::Error>> {
        self.calls@
    }

    /// What the calls go to.
    pub closed spec fn end(&self) -> L {
        self.link
    }

    /// A line through which nothing was said.
    pub fn new(link: L) -> (line: Line<L>)
        ensures
            line.calls() == Seq::<Call<L::Error>>::empty(),
            line.end() == link,
    {
        Line { link, calls: Ghost(Seq::empty()) }
    }

    /// What the calls go to.
    pub fn other_end(&self) -> (link: &L)
        ensures
            *link == self.end(),
    {
        &self.link
    }

    /// [`Link::spawn`], on the record.
    pub fn spawn(&mut self, region: RegionId, at: Pos3, kind: EntityKind) -> (answer: Result<
        EntityHandle,
        L::Error,
    >)
        ensures
            ({
                let call = Call::Spawn { region, at, kind, answer };
                &&& final(self).calls() == old(self).calls().push(call)
                &&& old(self).end().took(call, final(self).end())
            }),
    {
        let answer: Result<EntityHandle, L::Error> = self.link.spawn(region, at, kind);
        self.calls = Ghost(self.calls@.push(Call::Spawn { region, at, kind, answer }));
        answer
    }

    /// [`Link::migrate`], on the record.
    pub fn migrate(&mut self, handle: EntityHandle, to: RegionId, at: Pos3) -> (answer: Result<
        EntityHandle,
        L::Error,
    >)
        ensures
            ({
                let call = Call::Migrate { handle, to, at, answer };
                &&& final(self).calls() == old(self).calls().push(call)
                &&& old(self).end().took(call, final(self).end())
            }),
    {
        let answer: Result<EntityHandle, L::Error> = self.link.migrate(handle, to, at);
        self.calls = Ghost(self.calls@.push(Call::Migrate { handle, to, at, answer }));
        answer
    }

    /// [`Link::despawn`], on the record.
    pub fn despawn(&mut self, handle: EntityHandle) -> (done: Result<(), L::Error>)
        ensures
            ({
                let call = Call::Despawn { handle, done };
                &&& final(self).calls() == old(self).calls().push(call)
                &&& old(self).end().took(call, final(self).end())
            }),
    {
        let done: Result<(), L::Error> = self.link.despawn(handle);
        self.calls = Ghost(self.calls@.push(Call::Despawn { handle, done }));
        done
    }

    /// [`Link::move_entities`], on the record.
    pub fn move_entities(&mut self, moves: &[(EntityHandle, Pos3)]) -> (done: Result<(), L::Error>)
        ensures
            ({
                let call = Call::Moved { moves: moves@, done };
                &&& final(self).calls() == old(self).calls().push(call)
                &&& old(self).end().took(call, final(self).end())
            }),
    {
        let done: Result<(), L::Error> = self.link.move_entities(moves);
        self.calls = Ghost(self.calls@.push(Call::Moved { moves: moves@, done }));
        done
    }
}

/// What a [`Fake`] was told.
#[derive(Debug, PartialEq, Eq)]
pub enum Said {
    /// Asked a region for an entity, and what it was given.
    Spawn(RegionId, EntityHandle),
    /// Moved an entity to another region.
    Migrate {
        /// What was moved.
        handle: EntityHandle,
        /// Where.
        to: RegionId,
        /// What it goes by there.
        became: EntityHandle,
    },
    /// Gave an entity back.
    Despawn(EntityHandle),
    /// Said where entities are.
    Moved(Vec<EntityHandle>),
}

/// Whether a call that was taken is put down like that.
pub open spec fn tells<E>(call: Call<E>, said: Said) -> bool {
    match call {
        Call::Spawn { region, answer: Ok(handle), .. } => said == Said::Spawn(region, handle),
        Call::Migrate { handle, to, answer: Ok(became), .. } => said == (Said::Migrate {
            handle,
            to,
            became,
        }),
        Call::Despawn { handle, done: Ok(_) } => said == Said::Despawn(handle),
        Call::Moved { moves, done: Ok(_) } => {
            &&& said matches Said::Moved(handles)
            &&& handles@ == moves.map_values(|m: (EntityHandle, Pos3)| m.0)
        },
        _ => false,
    }
}

/// Why a [`Fake`] refuses a call.
#[derive(Clone, Copy, Debug, PartialEq, Eq, Structural)]
pub enum FakeError {
    /// The handle names an entity that is not there.
    Unknown,
    /// There is no handle left to give.
    Exhausted,
}

/// A link without a connection: it remembers what it was told, hands out handles
/// in order, and refuses the ones it has forgotten.
pub struct Fake {
    next: u32,
    gone: Vec<EntityHandle>,
    said: Vec<Said>,
}

impl Fake {
    /// How many handles it has given.
    pub closed spec fn given(&self) -> u32 {
        self.next
    }

    /// Handles it refuses, standing in for entities an edge has already
    /// forgotten.
    pub closed spec fn forgotten(&self) -> Seq<EntityHandle> {
        self.gone@
    }

    /// What it was told and took.
    pub closed spec fn heard(&self) -> Seq<Said> {
        self.said@
    }

    /// The answer to a call for a handle: the next in order.
    pub open spec fn mints(&self) -> Result<EntityHandle, FakeError> {
        if self.given() < u32::MAX {
            Ok(EntityHandle { raw: (self.given() + 1) as u32 })
        } else {
            Err(FakeError::Exhausted)
        }
    }

    /// The answer to a call that names a handle, where it answers with another.
    pub open spec fn trades(&self, handle: EntityHandle) -> Result<EntityHandle, FakeError> {
        if self.forgotten().contains(handle) {
            Err(FakeError::Unknown)
        } else {
            self.mints()
        }
    }

    /// The answer to a call that names a handle, where there is none to give.
    pub open spec fn minds(&self, handle: EntityHandle) -> Result<(), FakeError> {
        if self.forgotten().contains(handle) {
            Err(FakeError::Unknown)
        } else {
            Ok(())
        }
    }

    /// Whether it is as it was.
    pub open spec fn is_still(&self, before: Fake) -> bool {
        &&& self.given() == before.given()
        &&& self.forgotten() == before.forgotten()
        &&& self.heard() == before.heard()
    }

    /// Whether it has put down one call more.
    pub open spec fn put_down(&self, before: Fake, call: Call<FakeError>) -> bool {
        &&& self.heard().len() == before.heard().len() + 1
        &&& self.heard().drop_last() == before.heard()
        &&& tells(call, self.heard().last())
    }

    /// A link that was told nothing.
    pub fn new() -> (link: Fake)
        ensures
            link.given() == 0,
            link.forgotten() == Seq::<EntityHandle>::empty(),
            link.heard() == Seq::<Said>::empty(),
    {
        Fake { next: 0, gone: Vec::new(), said: Vec::new() }
    }

    /// What it was told and took.
    pub fn said(&self) -> (said: &Vec<Said>)
        ensures
            said@ == self.heard(),
    {
        &self.said
    }

    /// Whether it has forgotten a handle.
    fn has_forgotten(&self, handle: EntityHandle) -> (forgot: bool)
        ensures
            forgot == self.forgotten().contains(handle),
    {
        for k in 0..self.gone.len()
            invariant
                forall|j: int| 0 <= j < k ==> self.gone@[j] != handle,
        {
            if self.gone[k] == handle {
                assert(self.gone@[k as int] == handle);
                return true;
            }
        }
        false
    }

    /// Forgets a handle.
    pub fn forget(&mut self, handle: EntityHandle)
        ensures
            final(self).forgotten() == old(self).forgotten().push(handle),
            final(self).given() == old(self).given(),
            final(self).heard() == old(self).heard(),
    {
        self.gone.push(handle);
    }
}

impl Link for Fake {
    type Error = FakeError;

    /// Handles are given in order, as long as there are any, and the ones it has
    /// forgotten are refused. It puts down what it takes, and forgets what it is
    /// given back. What it refuses leaves it as it was.
    open spec fn took(self, call: Call<FakeError>, after: Fake) -> bool {
        match call {
            Call::Spawn { answer, .. } => {
                &&& answer == self.mints()
                &&& if answer is Ok {
                    &&& after.given() == self.given() + 1
                    &&& after.forgotten() == self.forgotten()
                    &&& after.put_down(self, call)
                } else {
                    after.is_still(self)
                }
            },
            Call::Migrate { handle, answer, .. } => {
                &&& answer == self.trades(handle)
                &&& if answer is Ok {
                    &&& after.given() == self.given() + 1
                    &&& after.forgotten() == self.forgotten()
                    &&& after.put_down(self, call)
                } else {
                    after.is_still(self)
                }
            },
            Call::Despawn { handle, done } => {
                &&& done == self.minds(handle)
                &&& if done is Ok {
                    &&& after.given() == self.given()
                    &&& after.forgotten() == self.forgotten().push(handle)
                    &&& after.put_down(self, call)
                } else {
                    after.is_still(self)
                }
            },
            Call::Moved { done, .. } => {
                &&& done is Ok
                &&& after.given() == self.given()
                &&& after.forgotten() == self.forgotten()
                &&& after.put_down(self, call)
            },
        }
    }

    fn spawn(&mut self, region: RegionId, at: Pos3, kind: EntityKind) -> (answer: Result<
        EntityHandle,
        FakeError,
    >) {
        let ghost before = self.said@;
        let answer: Result<EntityHandle, FakeError> = if self.next < u32::MAX {
            self.next = self.next + 1;
            let handle: EntityHandle = EntityHandle { raw: self.next };
            self.said.push(Said::Spawn(region, handle));
            assert(self.said@.drop_last() =~= before);
            Ok(handle)
        } else {
            Err(FakeError::Exhausted)
        };
        answer
    }

    fn migrate(&mut self, handle: EntityHandle, to: RegionId, at: Pos3) -> (answer: Result<
        EntityHandle,
        FakeError,
    >) {
        let ghost before = self.said@;
        let answer: Result<EntityHandle, FakeError> = if self.has_forgotten(handle) {
            Err(FakeError::Unknown)
        } else if self.next < u32::MAX {
            self.next = self.next + 1;
            let became: EntityHandle = EntityHandle { raw: self.next };
            self.said.push(Said::Migrate { handle, to, became });
            assert(self.said@.drop_last() =~= before);
            Ok(became)
        } else {
            Err(FakeError::Exhausted)
        };
        answer
    }

    fn despawn(&mut self, handle: EntityHandle) -> (done: Result<(), FakeError>) {
        let ghost before = self.said@;
        let done: Result<(), FakeError> = if self.has_forgotten(handle) {
            Err(FakeError::Unknown)
        } else {
            self.gone.push(handle);
            self.said.push(Said::Despawn(handle));
            assert(self.said@.drop_last() =~= before);
            Ok(())
        };
        done
    }

    fn move_entities(&mut self, moves: &[(EntityHandle, Pos3)]) -> (done: Result<
        (),
        FakeError,
    >) {
        let ghost before = self.said@;
        let mut handles: Vec<EntityHandle> = Vec::new();
        for k in 0..moves.len()
            invariant
                handles@ == moves@.take(k as int).map_values(|m: (EntityHandle, Pos3)| m.0),
        {
            handles.push(moves[k].0);
            assert(handles@ =~= moves@.take(k + 1).map_values(|m: (EntityHandle, Pos3)| m.0));
        }
        assert(moves@.take(moves@.len() as int) =~= moves@);
        self.said.push(Said::Moved(handles));
        assert(self.said@.drop_last() =~= before);
        let done: Result<(), FakeError> = Ok(());
        done
    }
}

} // verus!
