//! What an edge does of its own accord, which is almost nothing.
//!
//! There is no herd here. An edge is a relay: what walks around a region belongs
//! to a game, and walking between two of them is a game's to perform. What is
//! left is to say who is connected.

use vstd::prelude::*;

use crate::args::{arg_or, is_about, refuses, takes, text_arg_or, text_or, words, Unreadable};
use crate::common::{DEFAULT_EDGE, DEFAULT_NATS};
use crate::ids::ClientId;

verus! {

/// Who is connected.
pub struct Game {
    /// In the order they came.
    pub clients: Vec<ClientId>,
}

/// What is left of those connected when one goes.
pub open spec fn without(clients: Seq<ClientId>, client: ClientId) -> Seq<ClientId> {
    clients.filter(|held: ClientId| held != client)
}

impl Game {
    /// Nobody yet.
    pub fn new() -> (game: Game)
        ensures
            game.clients@ == Seq::<ClientId>::empty(),
    {
        Game { clients: Vec::new() }
    }

    /// A client has connected.
    pub fn connected(&mut self, client: ClientId)
        ensures
            final(self).clients@ == old(self).clients@.push(client),
    {
        self.clients.push(client);
    }

    /// A client has gone. Everything it held is already despawned, so there is
    /// nothing to clean up except what is kept here.
    pub fn disconnected(&mut self, client: ClientId)
        ensures
            final(self).clients@ == without(old(self).clients@, client),
    {
        let ghost before = self.clients@;
        let mut rest: Vec<ClientId> = Vec::new();
        let n: usize = self.clients.len();
        assert(before.take(0) =~= Seq::empty());
        for k in 0..n
            invariant
                before == self.clients@,
                n == before.len(),
                rest@ == without(before.take(k as int), client),
        {
            let held: ClientId = self.clients[k];
            proof {
                reveal(Seq::filter);
                assert(before.take(k + 1).drop_last() =~= before.take(k as int));
            }
            if held != client {
                rest.push(held);
            }
        }
        assert(before.take(n as int) =~= before);
        self.clients = rest;
    }
}

/// A client that has gone is no longer counted, and no other is dropped.
pub proof fn only_the_one_that_left_is_gone(clients: Seq<ClientId>, client: ClientId)
    ensures
        !without(clients, client).contains(client),
        forall|other: ClientId|
            other != client ==> (#[trigger] without(clients, client).contains(other)
                <==> clients.contains(other)),
{
    let stays = |held: ClientId| held != client;
    let rest = clients.filter(stays);
    broadcast use Seq::lemma_filter_pred, Seq::lemma_filter_contains, Seq::lemma_filter_contains_rev;

    assert forall|other: ClientId| #[trigger] rest.contains(other) implies other != client
        && clients.contains(other) by {
        let i = choose|i: int| 0 <= i < rest.len() && rest[i] == other;
        clients.lemma_filter_pred(stays, i);
    }
    assert forall|other: ClientId|
        other != client && clients.contains(other) implies #[trigger] rest.contains(other) by {
        let i = choose|i: int| 0 <= i < clients.len() && clients[i] == other;
        clients.lemma_filter_contains(stays, i);
    }
}

/// Everything the command line decides.
pub struct Options {
    /// Where the broker is.
    pub nats: String,
    /// Where this edge listens for game clients.
    pub listen: String,
    /// Seconds between heartbeats. Zero switches them off.
    pub heartbeat: u64,
}

impl Options {
    /// Reads the arguments.
    pub fn from_args(args: &Vec<String>) -> (r: Result<Options, Unreadable>)
        ensures
            r matches Ok(o) ==> {
                let w = words(args@);
                &&& o.nats@ == text_or(w, "nats"@, DEFAULT_NATS@)
                &&& o.listen@ == text_or(w, "edge"@, DEFAULT_EDGE@)
                &&& takes(w, "heartbeat"@, 30u64, o.heartbeat)
            },
            r is Err <==> refuses::<u64>(words(args@), "heartbeat"@),
            r matches Err(e) ==> is_about(e, words(args@), "heartbeat"@),
    {
        let nats: String = text_arg_or(args, "nats", DEFAULT_NATS);
        let listen: String = text_arg_or(args, "edge", DEFAULT_EDGE);
        match arg_or(args, "heartbeat", 30u64) {
            Ok(heartbeat) => Ok(Options { nats, listen, heartbeat }),
            Err(e) => Err(e),
        }
    }
}

/// Those connected stay in the order they came: one that comes is the last, and when
/// it goes again those before it are as they were. One that was never there changes
/// nothing by going.
pub proof fn coming_and_going_changes_nothing(clients: Seq<ClientId>, client: ClientId)
    requires
        !clients.contains(client),
    ensures
        without(clients, client) == clients,
        without(clients.push(client), client) == clients,
    decreases clients.len(),
{
    reveal(Seq::filter);
    let more = clients.push(client);
    assert(more.drop_last() =~= clients);
    if clients.len() > 0 {
        let front = clients.drop_last();
        assert forall|i: int| 0 <= i < front.len() implies #[trigger] front[i] != client by {
            assert(clients[i] == front[i]);
        }
        coming_and_going_changes_nothing(front, client);
        assert(clients[clients.len() - 1] == clients.last());
        assert(clients.last() != client);
        assert(front.push(clients.last()) =~= clients);
    }
    assert(without(more, client) == without(clients, client));
}

/// Who goes does not matter to the order of the rest: going from a longer list is
/// going from its front, with the last kept unless it is the one that goes.
pub proof fn the_rest_keep_their_order(clients: Seq<ClientId>, last: ClientId, client: ClientId)
    ensures
        last != client ==> without(clients.push(last), client) == without(clients, client).push(
            last,
        ),
        last == client ==> without(clients.push(last), client) == without(clients, client),
        without(Seq::empty(), client).len() == 0,
{
    reveal(Seq::filter);
    assert(clients.push(last).drop_last() =~= clients);
}

} // verus!
