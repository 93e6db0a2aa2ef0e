//! One client of an edge, pass by pass.
//!
//! Each pass settles what came in and sends where everything is. Once a second it
//! also churns, migrates, and sums up.

use vstd::prelude::*;

use crate::args::{
    arg, arg_or, is_about, refuses, takes, text_arg_or, text_or, value_of, words, Unreadable, Value,
};
use crate::column::{
    a_churn_ends_at_the_first_refusal, a_migration_ends_at_the_first_refusal, ended_as,
    going_on_ends_as_it_ends,
};
use crate::common::DEFAULT_EDGE;
use crate::crowd::{
    all_paced, churns, migrates, refusal, settled, since, whereabouts, Crowd, CrowdState, Held,
};
use crate::ids::RegionId;
use crate::link::{relayed, relaying_goes_on, relaying_one_more, Call, Line, Link};
use crate::reports::{Heard, Reports};
use crate::upkeep::{a_churn_adds_no_one, settling_adds_no_one};

verus! {

/// Everything the command line decides.
pub struct Options {
    /// Where the edge is listening.
    pub addr: String,
    /// Connections to open from one process.
    pub clients: usize,
    /// Entities with a game client behind them. Each costs a viewer.
    pub observers: usize,
    /// Entities with nothing behind them: replicated to whoever can see them, and
    /// sent nothing themselves.
    pub unattended: usize,
    /// Observers to hand back and replace each second, standing in for game
    /// clients disconnecting and connecting.
    pub churn: usize,
    /// Which region this game puts its players in.
    pub region: RegionId,
    /// Another region to walk part of the crowd into, and back from.
    pub to: Option<RegionId>,
    /// Entities to walk into the other region each second.
    pub migrate: usize,
    /// How often this client sends.
    pub send_hz: u32,
}

/// The first option that cannot be read, in the order they are read.
pub open spec fn first_refused(w: Seq<Seq<char>>) -> Option<Seq<char>> {
    if refuses::<usize>(w, "clients"@) {
        Some("clients"@)
    } else if refuses::<usize>(w, "observers"@) {
        Some("observers"@)
    } else if refuses::<usize>(w, "unattended"@) {
        Some("unattended"@)
    } else if refuses::<usize>(w, "churn"@) {
        Some("churn"@)
    } else if refuses::<u32>(w, "region"@) {
        Some("region"@)
    } else if refuses::<u32>(w, "to"@) {
        Some("to"@)
    } else if refuses::<usize>(w, "migrate"@) {
        Some("migrate"@)
    } else if refuses::<u32>(w, "send-hz"@) {
        Some("send-hz"@)
    } else {
        None
    }
}

impl Options {
    /// Reads the arguments. Fails at the first option that cannot be read.
    pub fn from_args(args: &Vec<String>) -> (r: Result<Options, Unreadable>)
        ensures
            r matches Ok(o) ==> {
                let w = words(args@);
                &&& first_refused(w) is None
                &&& o.addr@ == text_or(w, "edge"@, DEFAULT_EDGE@)
                &&& takes(w, "clients"@, 1usize, o.clients)
                &&& takes(w, "observers"@, 512usize, o.observers)
                &&& takes(w, "unattended"@, 0usize, o.unattended)
                &&& takes(w, "churn"@, 0usize, o.churn)
                &&& takes(w, "region"@, 7u32, o.region.raw)
                &&& match value_of(w, "to"@) {
                    Some(raw) => o.to matches Some(to) && <u32 as Value>::reads(raw, to.raw),
                    None => o.to is None,
                }
                &&& takes(w, "migrate"@, 0usize, o.migrate)
                &&& takes(w, "send-hz"@, 20u32, o.send_hz)
            },
            r matches Err(e) ==> {
                &&& first_refused(words(args@)) == Some(e.name@)
                &&& is_about(e, words(args@), e.name@)
            },
    {
        let addr: String = text_arg_or(args, "edge", DEFAULT_EDGE);
        let clients: usize = match arg_or(args, "clients", 1usize) {
            Ok(v) => v,
            Err(e) => {
                return Err(e);
            },
        };
        let observers: usize = match arg_or(args, "observers", 512usize) {
            Ok(v) => v,
            Err(e) => {
                return Err(e);
            },
        };
        let unattended: usize = match arg_or(args, "unattended", 0usize) {
            Ok(v) => v,
            Err(e) => {
                return Err(e);
            },
        };
        let churn: usize = match arg_or(args, "churn", 0usize) {
            Ok(v) => v,
            Err(e) => {
                return Err(e);
            },
        };
        let region: u32 = match arg_or(args, "region", 7u32) {
            Ok(v) => v,
            Err(e) => {
                return Err(e);
            },
        };
        let to: Option<RegionId> = match arg(args, "to") {
            Some(_) => match arg_or(args, "to", 0u32) {
                Ok(v) => Some(RegionId { raw: v }),
                Err(e) => {
                    return Err(e);
                },
            },
            None => None,
        };
        let migrate: usize = match arg_or(args, "migrate", 0usize) {
            Ok(v) => v,
            Err(e) => {
                return Err(e);
            },
        };
        let send_hz: u32 = match arg_or(args, "send-hz", 20u32) {
            Ok(v) => v,
            Err(e) => {
                return Err(e);
            },
        };
        Ok(
            Options {
                addr,
                clients,
                observers,
                unattended,
                churn,
                region: RegionId { raw: region },
                to,
                migrate,
                send_hz,
            },
        )
    }
}

/// The column of the `n`th client of a process, in meters.
pub open spec fn lane_of(pid: int, n: int) -> int {
    ((pid + 7 * n) % 64) * 60 + 64
}

/// A column of its own per client, so several do not stack on one spot.
pub fn lane(pid: u32, n: usize) -> (lane: i32)
    requires
        pid + 7 * n <= usize::MAX,
    ensures
        lane == lane_of(pid as int, n as int),
        64 <= lane <= 3844,
{
    ((pid as usize + n * 7) % 64) as i32 * 60 + 64
}

/// Up to 64 clients of one process each have a column of their own, at least 60 m
/// from any other.
pub proof fn clients_do_not_share_a_lane(pid: int, a: int, b: int)
    requires
        0 <= pid,
        0 <= a < b < 64,
    ensures
        lane_of(pid, a) != lane_of(pid, b),
        lane_of(pid, a) - lane_of(pid, b) >= 60 || lane_of(pid, b) - lane_of(pid, a) >= 60,
{
    let x = (pid + 7 * a) % 64;
    let y = (pid + 7 * b) % 64;
    if x == y {
        // Then 64 divides seven times the difference, and so the difference.
        assert((7 * (b - a)) % 64 == 0);
    }
}

/// Milliseconds between sends: a second in whole ones, divided.
pub open spec fn period_of(send_hz: u32) -> int {
    1000int / (if send_hz > 1 {
        send_hz as int
    } else {
        1
    })
}

/// Milliseconds between sends.
pub fn period_ms(send_hz: u32) -> (ms: u64)
    ensures
        ms as int == period_of(send_hz),
{
    let hz: u64 = if send_hz > 1 {
        send_hz as u64
    } else {
        1
    };
    1000 / hz
}

/// What a client has done since it last summed up, and in all.
#[verifier::ext_equal]
pub struct SessionState {
    pub crowd: CrowdState,
    /// Moves sent since the last summary.
    pub sent: u64,
    /// Entities handed back in all.
    pub given_back: u64,
}

/// One second of a client, summed up.
#[derive(Clone, Copy, Debug, PartialEq, Eq, Structural)]
pub struct Summary {
    /// Entities held.
    pub holding: usize,
    /// How many of them have ids.
    pub with_ids: usize,
    /// Moves sent.
    pub sent: u64,
    /// Packets received.
    pub packets: u64,
    /// Records received.
    pub records: u64,
    /// Entities handed back in all.
    pub given_back: u64,
}

/// One client of an edge.
pub struct Session {
    crowd: Crowd,
    sent: u64,
    given_back: u64,
}

impl View for Session {
    type V = SessionState;

    closed spec fn view(&self) -> SessionState {
        SessionState { crowd: self.crowd@, sent: self.sent, given_back: self.given_back }
    }
}

/// What is left to read once a crowd has settled.
pub open spec fn quiet(heard: Heard) -> Heard {
    Heard { spawned: Seq::empty(), removed: Seq::empty(), ..heard }
}

/// A client summed up, with what it has received.
pub open spec fn summary_of(s: SessionState, heard: Heard) -> Summary {
    Summary {
        holding: s.crowd.held.len() as usize,
        with_ids: s.crowd.held.filter(|h: Held| h.entity is Some).len() as usize,
        sent: s.sent,
        packets: heard.packets,
        records: heard.records,
        given_back: s.given_back,
    }
}

/// What the once-a-second part of a pass says, answers and leaves behind: a churn,
/// then a migration, then the sums. It ends at the first refusal.
pub open spec fn sums_up<E>(
    s: SessionState,
    heard: Heard,
    churn: usize,
    migrate: usize,
    said: Seq<Call<E>>,
    r: Result<Option<Summary>, E>,
    after: SessionState,
    left: Heard,
) -> bool {
    exists|first: int, churned: Result<usize, E>, c: CrowdState|
        {
            &&& 0 <= first <= said.len()
            &&& #[trigger] churns(s.crowd, churn, said.take(first), churned, c)
            &&& match churned {
                Err(e) => {
                    &&& first == said.len()
                    &&& r == Err::<Option<Summary>, E>(e)
                    &&& after == (SessionState { crowd: c, ..s })
                    &&& left == heard
                },
                Ok(n) => {
                    let given_back = (s.given_back + n) as u64;
                    &&& after.given_back == given_back
                    &&& exists|gone: Result<(), E>|
                        {
                            &&& #[trigger] migrates(
                                c,
                                migrate,
                                said.skip(first),
                                gone,
                                after.crowd,
                            )
                            &&& match gone {
                                Err(e) => {
                                    &&& r == Err::<Option<Summary>, E>(e)
                                    &&& after.sent == s.sent
                                    &&& left == heard
                                },
                                Ok(_) => {
                                    let done = SessionState { sent: s.sent, ..after };
                                    &&& r == Ok::<Option<Summary>, E>(Some(summary_of(done, heard)))
                                    &&& after.sent == 0
                                    &&& left == (Heard { packets: 0, records: 0, ..heard })
                                },
                            }
                        }
                },
            }
        }
}

/// What one pass says, answers and leaves behind. The crowd settles and walks. If
/// the moves are refused, the pass ends. Once a second it also sums up.
pub open spec fn passes<E>(
    s: SessionState,
    heard: Heard,
    due: bool,
    churn: usize,
    migrate: usize,
    said: Seq<Call<E>>,
    r: Result<Option<Summary>, E>,
    after: SessionState,
    left: Heard,
) -> bool {
    let crowd = all_paced(settled(s.crowd, heard));
    let n = crowd.held.len();
    let moves = if n > 0 {
        1int
    } else {
        0
    };
    let walked = SessionState { crowd, sent: (s.sent + n) as u64, ..s };
    &&& said.len() >= moves
    &&& n > 0 ==> (said[0] matches Call::Moved { moves, .. } && moves == whereabouts(crowd.held))
    &&& if n > 0 && refusal(said[0]) is Some {
        &&& said.len() == 1
        &&& r == Err::<Option<Summary>, E>(refusal(said[0])->0)
        &&& after == (SessionState { crowd, ..s })
        &&& left == quiet(heard)
    } else if due {
        sums_up(walked, quiet(heard), churn, migrate, said.skip(moves), r, after, left)
    } else {
        &&& said.len() == moves
        &&& r == Ok::<Option<Summary>, E>(None)
        &&& after == walked
        &&& left == quiet(heard)
    }
}

impl Session {
    /// Starts with a crowd.
    pub fn new(crowd: Crowd) -> (s: Session)
        ensures
            s@ == (SessionState { crowd: crowd@, sent: 0, given_back: 0 }),
    {
        Session { crowd, sent: 0, given_back: 0 }
    }

    /// The crowd.
    pub fn crowd(&self) -> (crowd: &Crowd)
        ensures
            crowd@ == self@.crowd,
    {
        &self.crowd
    }

    /// Whether a pass has room for what it counts.
    pub open spec fn can_pass(self, churn: usize) -> bool {
        let s = self@;
        &&& s.crowd.wf()
        &&& s.sent + s.crowd.held.len() <= u64::MAX
        &&& s.given_back + churn <= u64::MAX
        &&& s.crowd.next + churn <= usize::MAX
        &&& s.crowd.migrated + s.crowd.held.len() <= u64::MAX
    }

    /// Whether a pass has room for what it counts.
    pub fn ready(&self, churn: usize) -> (yes: bool)
        requires
            self@.crowd.wf(),
        ensures
            yes == self.can_pass(churn),
    {
        let n: u64 = self.crowd.len() as u64;
        self.sent <= u64::MAX - n && self.given_back <= u64::MAX - churn as u64 && self.crowd.places()
            >= churn && self.crowd.migrated() <= u64::MAX - n
    }

    /// Plays one pass. `due` says that a second has gone by since the last
    /// summary. The first call that is refused ends the pass, and the session.
    pub fn pass<L: Link>(
        &mut self,
        sending: &mut Line<L>,
        reports: &mut Reports,
        due: bool,
        churn: usize,
        migrate: usize,
    ) -> (r: Result<Option<Summary>, L::Error>)
        requires
            old(self).can_pass(churn),
        ensures
            ({
                let said = since(old(sending).calls(), final(sending).calls());
                &&& final(sending).calls() == old(sending).calls() + said
                &&& relayed(old(sending).end(), said, final(sending).end())
                &&& passes(
                    old(self)@,
                    old(reports)@,
                    due,
                    churn,
                    migrate,
                    said,
                    r,
                    final(self)@,
                    final(reports)@,
                )
            }),
            final(self)@.crowd.wf(),
    {
        let ghost s = self@;
        let ghost heard = reports@;
        let ghost before = sending.calls();
        self.crowd.settle(reports);
        proof {
            settling_adds_no_one(s.crowd, heard);
        }
        let ghost crowd = all_paced(settled(s.crowd, heard));
        let walked: Result<usize, L::Error> = self.crowd.walk(sending);
        let ghost spoken = sending.calls();
        let ghost first = since(before, spoken);
        assert(spoken =~= before + first);
        assert(first =~= if crowd.held.len() > 0 {
            seq![spoken.last()]
        } else {
            Seq::empty()
        });
        let ghost start = old(sending).end();
        let ghost near = sending.end();
        proof {
            let none: Seq<Call<L::Error>> = Seq::empty();
            if crowd.held.len() > 0 {
                relaying_one_more(start, none, start, spoken.last(), near);
                assert(none.push(spoken.last()) =~= first);
            }
        }
        match walked {
            Ok(moved) => {
                self.sent = self.sent + moved as u64;
            },
            Err(e) => {
                return Err(e);
            },
        }
        if !due {
            return Ok(None);
        }
        let ghost mid = self@;
        let r: Result<Option<Summary>, L::Error> = self.sum_up(sending, reports, churn, migrate);
        proof {
            let rest = since(spoken, sending.calls());
            let said = first + rest;
            relaying_goes_on(start, first, near, rest, sending.end());
            assert(sending.calls() =~= before + said);
            assert((before + said).skip(before.len() as int) =~= said);
            assert(said.skip(first.len() as int) =~= rest);
            assert(first.len() > 0 ==> said[0] == first[0]);
        }
        r
    }

    /// The once-a-second part of a pass.
    fn sum_up<L: Link>(
        &mut self,
        sending: &mut Line<L>,
        reports: &mut Reports,
        churn: usize,
        migrate: usize,
    ) -> (r: Result<Option<Summary>, L::Error>)
        requires
            old(self)@.crowd.wf(),
            old(self)@.given_back + churn <= u64::MAX,
            old(self)@.crowd.next + churn <= usize::MAX,
            old(self)@.crowd.migrated + old(self)@.crowd.held.len() <= u64::MAX,
        ensures
            ({
                let said = since(old(sending).calls(), final(sending).calls());
                &&& final(sending).calls() == old(sending).calls() + said
                &&& relayed(old(sending).end(), said, final(sending).end())
                &&& sums_up(
                    old(self)@,
                    old(reports)@,
                    churn,
                    migrate,
                    said,
                    r,
                    final(self)@,
                    final(reports)@,
                )
            }),
            final(self)@.crowd.wf(),
    {
        let ghost s = self@;
        let ghost heard = reports@;
        let ghost before = sending.calls();
        let churned: Result<usize, L::Error> = self.crowd.churn(sending, churn);
        let ghost c = self@.crowd;
        let ghost spoken = sending.calls();
        let ghost given = since(before, spoken);
        let ghost near = sending.end();
        proof {
            a_churn_adds_no_one(s.crowd, churn, given, churned, c);
            assert(given.take(given.len() as int) =~= given);
        }
        match churned {
            Ok(n) => {
                self.given_back = self.given_back + n as u64;
            },
            Err(e) => {
                assert(churns(s.crowd, churn, given.take(given.len() as int), churned, c));
                return Err(e);
            },
        }
        let moved: Result<(), L::Error> = self.crowd.migrate(sending, migrate);
        let ghost went = since(spoken, sending.calls());
        let ghost said = given + went;
        proof {
            relaying_goes_on(old(sending).end(), given, near, went, sending.end());
            assert(sending.calls() =~= before + said);
            assert((before + said).skip(before.len() as int) =~= said);
            assert(said.take(given.len() as int) =~= given);
            assert(said.skip(given.len() as int) =~= went);
            assert(churns(s.crowd, churn, said.take(given.len() as int), churned, c));
            assert(migrates(c, migrate, said.skip(given.len() as int), moved, self@.crowd));
        }
        match moved {
            Ok(_) => {},
            Err(e) => {
                return Err(e);
            },
        }
        let (packets, records) = reports.take_traffic();
        let summary: Summary = Summary {
            holding: self.crowd.len(),
            with_ids: self.crowd.confirmed(),
            sent: self.sent,
            packets,
            records,
            given_back: self.given_back,
        };
        self.sent = 0;
        Ok(Some(summary))
    }
}

/// Sends come so many milliseconds apart that as many of them as there are sends in
/// a second are whole in it. No rate at all is taken for one a second.
pub proof fn sends_fit_a_second(send_hz: u32, ms: int)
    requires
        ms == period_of(send_hz),
    ensures
        send_hz > 0 ==> ms * send_hz <= 1000 < (ms + 1) * send_hz,
        send_hz == 0 ==> ms == 1000,
{
    let hz = if send_hz > 1 {
        send_hz as int
    } else {
        1
    };
    vstd::arithmetic::div_mod::lemma_fundamental_div_mod(1000, hz);
    vstd::arithmetic::div_mod::lemma_mod_bound(1000, hz);
    assert(ms * hz == hz * ms && (ms + 1) * hz == hz * ms + hz) by (nonlinear_arith);
}

/// A process has 64 columns, 60 m apart, from 64 m to 3844 m east. Its first client
/// takes the column of its process id. Each further client takes the seventh column
/// after, 420 m east, or, past the last column, as far from the first on: 3420 m
/// west. So the sixty-fifth client takes the first one's column again.
pub proof fn columns_are_sixty_meters_apart(pid: int, n: int)
    requires
        0 <= pid,
        0 <= n,
    ensures
        64 <= lane_of(pid, n) <= 3844,
        (lane_of(pid, n) - 64) % 60 == 0,
        0 <= pid < 64 ==> lane_of(pid, 0) == 64 + 60 * pid,
        lane_of(pid + 64, n) == lane_of(pid, n),
        lane_of(pid, n) + 420 <= 3844 ==> lane_of(pid, n + 1) == lane_of(pid, n) + 420,
        lane_of(pid, n) + 420 > 3844 ==> lane_of(pid, n + 1) == lane_of(pid, n) - 3420,
        lane_of(pid, n + 64) == lane_of(pid, n),
{
    let v = pid + 7 * n;
    assert(pid + 7 * (n + 1) == v + 7);
    assert(pid + 7 * (n + 64) == v + 448);
    assert(pid + 64 + 7 * n == v + 64);
    columns_come_round(v);
    if pid < 64 {
        columns_come_round(pid);
        assert(pid + 7 * 0 == pid);
    }
}

/// Columns are counted by sixty-fours.
proof fn columns_come_round(v: int)
    requires
        0 <= v,
    ensures
        0 <= v % 64 < 64,
        v < 64 ==> v % 64 == v,
        (v + 64) % 64 == v % 64,
        (v + 448) % 64 == v % 64,
        v % 64 + 7 < 64 ==> (v + 7) % 64 == v % 64 + 7,
        v % 64 + 7 >= 64 ==> (v + 7) % 64 == v % 64 - 57,
{
}

/// A pass that goes through sends one move for each entity held once what came in
/// has been settled, and counts them. A summary gives the moves since the last one,
/// and the next starts from none; it gives how many are held and how many of them
/// have ids, and how many were ever given back, which grows by the whole churn or
/// not at all. Traffic is given once.
pub proof fn a_pass_is_counted<E>(
    s: SessionState,
    heard: Heard,
    due: bool,
    churn: usize,
    migrate: usize,
    said: Seq<Call<E>>,
    summed: Option<Summary>,
    after: SessionState,
    left: Heard,
)
    requires
        passes(
            s,
            heard,
            due,
            churn,
            migrate,
            said,
            Ok::<Option<Summary>, E>(summed),
            after,
            left,
        ),
        s.sent + s.crowd.held.len() <= u64::MAX,
        s.given_back + churn <= u64::MAX,
    ensures
        ({
            let n = settled(s.crowd, heard).held.len();
            &&& summed is Some <==> due
            &&& !due ==> after.sent == s.sent + n && after.given_back == s.given_back
            &&& !due ==> left.packets == heard.packets && left.records == heard.records
            &&& left.spawned.len() == 0
            &&& left.removed.len() == 0
            &&& left.gone == heard.gone
            &&& summed matches Some(sum) ==> {
                &&& sum.sent == s.sent + n
                &&& after.sent == 0
                &&& sum.given_back == after.given_back
                &&& after.given_back == s.given_back || after.given_back == s.given_back + churn
                &&& sum.holding == after.crowd.held.len() as usize
                &&& sum.with_ids == after.crowd.held.filter(
                    |h: Held| h.entity is Some,
                ).len() as usize
                &&& sum.packets == heard.packets
                &&& sum.records == heard.records
                &&& left.packets == 0
                &&& left.records == 0
            }
        }),
{
    settling_adds_no_one(s.crowd, heard);
    let crowd = all_paced(settled(s.crowd, heard));
    let n = crowd.held.len();
    let moves = if n > 0 {
        1int
    } else {
        0
    };
    let walked = SessionState { crowd, sent: (s.sent + n) as u64, ..s };
    let r = Ok::<Option<Summary>, E>(summed);
    if due {
        let rest = said.skip(moves);
        assert(sums_up(walked, quiet(heard), churn, migrate, rest, r, after, left));
        let (first, churned, c) = choose|first: int, churned: Result<usize, E>, c: CrowdState|
            {
                &&& 0 <= first <= rest.len()
                &&& #[trigger] churns(walked.crowd, churn, rest.take(first), churned, c)
                &&& match churned {
                    Err(e) => {
                        &&& first == rest.len()
                        &&& r == Err::<Option<Summary>, E>(e)
                        &&& after == (SessionState { crowd: c, ..walked })
                        &&& left == quiet(heard)
                    },
                    Ok(k) => {
                        let given_back = (walked.given_back + k) as u64;
                        &&& after.given_back == given_back
                        &&& exists|gone: Result<(), E>|
                            {
                                &&& #[trigger] migrates(
                                    c,
                                    migrate,
                                    rest.skip(first),
                                    gone,
                                    after.crowd,
                                )
                                &&& match gone {
                                    Err(e) => {
                                        &&& r == Err::<Option<Summary>, E>(e)
                                        &&& after.sent == walked.sent
                                        &&& left == quiet(heard)
                                    },
                                    Ok(_) => {
                                        let done = SessionState { sent: walked.sent, ..after };
                                        &&& r == Ok::<Option<Summary>, E>(
                                            Some(summary_of(done, quiet(heard))),
                                        )
                                        &&& after.sent == 0
                                        &&& left == (Heard {
                                            packets: 0,
                                            records: 0,
                                            ..quiet(heard)
                                        })
                                    },
                                }
                            }
                    },
                }
            };
        assert(churned is Ok);
        let k = churned->Ok_0;
        assert(k == 0 || k == churn);
    }
}

/// A pass first says where everything is, if anything is held, all in one call. It
/// ends at the first call that is refused, and fails for its reason; what was
/// received since the last summary is then still there to be summed up. A pass that
/// does not fail was refused nothing.
pub proof fn a_pass_ends_at_the_first_refusal<E>(
    s: SessionState,
    heard: Heard,
    due: bool,
    churn: usize,
    migrate: usize,
    said: Seq<Call<E>>,
    r: Result<Option<Summary>, E>,
    after: SessionState,
    left: Heard,
)
    requires
        passes(s, heard, due, churn, migrate, said, r, after, left),
    ensures
        ended_as(said, r.err()),
        r is Err ==> left.packets == heard.packets && left.records == heard.records,
        ({
            let held = all_paced(settled(s.crowd, heard)).held;
            &&& held.len() > 0 ==> said.len() > 0 && said[0] is Moved && said[0]->moves.len()
                == held.len() && forall|i: int|
                0 <= i < held.len() ==> #[trigger] said[0]->moves[i] == (held[i].handle, held[i].at)
            &&& !due && held.len() == 0 ==> said.len() == 0
            &&& !due ==> said.len() <= 1
        }),
{
    let crowd = all_paced(settled(s.crowd, heard));
    let n = crowd.held.len();
    let moves = if n > 0 {
        1int
    } else {
        0
    };
    let walked = SessionState { crowd, sent: (s.sent + n) as u64, ..s };
    if !(n > 0 && refusal(said[0]) is Some) && due {
        let rest = said.skip(moves);
        a_summing_up_ends_at_the_first_refusal(
            walked,
            quiet(heard),
            churn,
            migrate,
            rest,
            r,
            after,
            left,
        );
        assert forall|j: int| 0 <= j < moves implies refusal(#[trigger] said.take(moves)[j]) is None by {
            assert(said.take(moves)[j] == said[0]);
        }
        going_on_ends_as_it_ends(said, moves, r.err());
    }
}

/// So does its once-a-second part.
proof fn a_summing_up_ends_at_the_first_refusal<E>(
    s: SessionState,
    heard: Heard,
    churn: usize,
    migrate: usize,
    said: Seq<Call<E>>,
    r: Result<Option<Summary>, E>,
    after: SessionState,
    left: Heard,
)
    requires
        sums_up(s, heard, churn, migrate, said, r, after, left),
    ensures
        ended_as(said, r.err()),
        r is Err ==> left == heard,
{
    let (first, churned, c) = choose|first: int, churned: Result<usize, E>, c: CrowdState|
        {
            &&& 0 <= first <= said.len()
            &&& #[trigger] churns(s.crowd, churn, said.take(first), churned, c)
            &&& match churned {
                Err(e) => {
                    &&& first == said.len()
                    &&& r == Err::<Option<Summary>, E>(e)
                    &&& after == (SessionState { crowd: c, ..s })
                    &&& left == heard
                },
                Ok(n) => {
                    let given_back = (s.given_back + n) as u64;
                    &&& after.given_back == given_back
                    &&& exists|gone: Result<(), E>|
                        {
                            &&& #[trigger] migrates(
                                c,
                                migrate,
                                said.skip(first),
                                gone,
                                after.crowd,
                            )
                            &&& match gone {
                                Err(e) => {
                                    &&& r == Err::<Option<Summary>, E>(e)
                                    &&& after.sent == s.sent
                                    &&& left == heard
                                },
                                Ok(_) => {
                                    let done = SessionState { sent: s.sent, ..after };
                                    &&& r == Ok::<Option<Summary>, E>(Some(summary_of(done, heard)))
                                    &&& after.sent == 0
                                    &&& left == (Heard { packets: 0, records: 0, ..heard })
                                },
                            }
                        }
                },
            }
        };
    a_churn_ends_at_the_first_refusal(s.crowd, churn, said.take(first), churned, c);
    if churned is Err {
        assert(said.take(first) =~= said);
    } else {
        let gone = choose|gone: Result<(), E>|
            {
                &&& #[trigger] migrates(c, migrate, said.skip(first), gone, after.crowd)
                &&& match gone {
                    Err(e) => {
                        &&& r == Err::<Option<Summary>, E>(e)
                        &&& after.sent == s.sent
                        &&& left == heard
                    },
                    Ok(_) => {
                        let done = SessionState { sent: s.sent, ..after };
                        &&& r == Ok::<Option<Summary>, E>(Some(summary_of(done, heard)))
                        &&& after.sent == 0
                        &&& left == (Heard { packets: 0, records: 0, ..heard })
                    },
                }
            };
        a_migration_ends_at_the_first_refusal(c, migrate, said.skip(first), gone, after.crowd);
        going_on_ends_as_it_ends(said, first, gone.err());
    }
}

} // verus!
