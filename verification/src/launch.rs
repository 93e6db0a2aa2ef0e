//! How a run is set up from a command line.

use vstd::prelude::*;

use crate::args::words;
use crate::common::{text_of, DEFAULT_NATS};
use crate::nursery::{a_run_has_eight_attractors, drawn_anywhere};
use crate::pattern::{names_are_distinct, Pattern};
use crate::rng::{seeded, stream, SEED};
use crate::sim::Herd;
use crate::text::{
    a_number_is_not_negative, decimal, digits_of, is_digit, is_number, parse_number, same_text,
};
use crate::tick::{
    founding, HerdState, CROWD_THRESHOLD, DAMAGE_DIVISOR, LIFESPAN_S, MARGIN_M,
};
use crate::world::World;

verus! {

/// Clients watching the region, unless told otherwise.
pub const VIEWERS: usize = 8_192;

/// Entities the region carries, unless told otherwise.
pub const ENTITIES: usize = 50_000;

/// Ticks per run, unless told otherwise. One minute of wall clock at 20 Hz.
pub const TICKS: u32 = 1_200;

/// Report lines per run, whatever its length.
pub const REPORTS: u32 = 20;

/// Ticks per second.
pub const TICK_HZ: u32 = 20;

/// How a run waits for its next tick.
#[derive(Clone, Copy, Debug, PartialEq, Eq, Structural)]
pub enum Wait {
    /// Sleeps to the deadline.
    Sleep,
    /// Holds the core until the deadline.
    Hold,
    /// Does not wait: ticks go back to back.
    Free,
}

/// What a run is set up with.
#[verifier::ext_equal]
pub struct Setup {
    pub ticks: u32,
    pub wait: Wait,
    pub threads: Option<usize>,
    pub entities: usize,
    pub viewers: usize,
    pub damage: usize,
    pub crowd: usize,
    pub lifespan: u32,
    pub pattern: Pattern,
    pub nats: Seq<char>,
    pub region: u32,
    pub heartbeat: u64,
    pub edge_timeout: u64,
}

/// Everything the command line decides.
pub struct SimOptions {
    /// Ticks to run. Zero runs until interrupted.
    pub ticks: u32,
    /// How to wait between ticks.
    pub wait: Wait,
    /// Worker threads, if it is to be other than as many as there are.
    pub threads: Option<usize>,
    /// Entities the region starts with, and refills toward.
    pub entities: usize,
    /// Clients watching.
    pub viewers: usize,
    /// What a crowd's excess is divided by to hurt.
    pub damage: usize,
    /// How many a cell holds before it hurts.
    pub crowd: usize,
    /// Mean seconds lived.
    pub lifespan: u32,
    /// How the population moves.
    pub pattern: Pattern,
    /// Where the broker is.
    pub nats: String,
    /// What the region is called.
    pub region: u32,
    /// Seconds between heartbeats.
    pub heartbeat: u64,
    /// Seconds before an edge that is not heard from is dropped.
    pub edge_timeout: u64,
}

impl View for SimOptions {
    type V = Setup;

    open spec fn view(&self) -> Setup {
        Setup {
            ticks: self.ticks,
            wait: self.wait,
            threads: self.threads,
            entities: self.entities,
            viewers: self.viewers,
            damage: self.damage,
            crowd: self.crowd,
            lifespan: self.lifespan,
            pattern: self.pattern,
            nats: self.nats@,
            region: self.region,
            heartbeat: self.heartbeat,
            edge_timeout: self.edge_timeout,
        }
    }
}

/// Why a command line is refused.
#[derive(Clone, Copy, Debug, PartialEq, Eq, Structural)]
pub enum SetupError {
    /// There is no such pattern.
    Pattern,
    /// There is no such option.
    Usage,
}

/// What a run is set up with when nothing is said.
pub open spec fn unless_told() -> Setup {
    Setup {
        ticks: TICKS,
        wait: Wait::Sleep,
        threads: None,
        entities: ENTITIES,
        viewers: VIEWERS,
        damage: DAMAGE_DIVISOR,
        crowd: CROWD_THRESHOLD,
        lifespan: LIFESPAN_S,
        pattern: Pattern::Herd,
        nats: DEFAULT_NATS@,
        region: 7,
        heartbeat: 30,
        edge_timeout: 5,
    }
}

/// The number that a word stands for, if it is one that fits.
pub open spec fn number(word: Option<Seq<char>>, max: int) -> Option<int> {
    match word {
        Some(s) if is_number(s, max) => Some(decimal(digits_of(s))),
        _ => None,
    }
}

/// The number that a word stands for, or what was there.
pub open spec fn number_or(word: Option<Seq<char>>, max: int, was: int) -> int {
    match number(word, max) {
        Some(n) => n,
        None => was,
    }
}

/// The word at a place, if there is one.
pub open spec fn word_at(words: Seq<Seq<char>>, i: int) -> Option<Seq<char>> {
    if 0 <= i < words.len() {
        Some(words[i])
    } else {
        None
    }
}

/// Whether an option takes the word after it.
pub open spec fn takes_value(word: Seq<char>) -> bool {
    ||| word == "--threads"@
    ||| word == "--entities"@
    ||| word == "--viewers"@
    ||| word == "--damage"@
    ||| word == "--crowd"@
    ||| word == "--lifespan"@
    ||| word == "--nats"@
    ||| word == "--region"@
    ||| word == "--heartbeat"@
    ||| word == "--edge-timeout"@
    ||| word == "--pattern"@
}

/// What one word, with the word after it, makes of a setup. A number that cannot
/// be read leaves what was there, except that `--threads` then leaves it to the
/// machine. A word that is no option is the number of ticks.
pub open spec fn told(s: Setup, word: Seq<char>, next: Option<Seq<char>>) -> Result<Setup, SetupError> {
    if word == "--free-run"@ {
        Ok(Setup { wait: Wait::Free, ..s })
    } else if word == "--hold"@ {
        Ok(Setup { wait: Wait::Hold, ..s })
    } else if word == "--threads"@ {
        Ok(
            Setup {
                threads: match number(next, usize::MAX as int) {
                    Some(n) => Some(n as usize),
                    None => None,
                },
                ..s
            },
        )
    } else if word == "--entities"@ {
        Ok(Setup { entities: number_or(next, usize::MAX as int, s.entities as int) as usize, ..s })
    } else if word == "--viewers"@ {
        Ok(Setup { viewers: number_or(next, usize::MAX as int, s.viewers as int) as usize, ..s })
    } else if word == "--damage"@ {
        Ok(Setup { damage: number_or(next, usize::MAX as int, s.damage as int) as usize, ..s })
    } else if word == "--crowd"@ {
        Ok(Setup { crowd: number_or(next, usize::MAX as int, s.crowd as int) as usize, ..s })
    } else if word == "--lifespan"@ {
        Ok(Setup { lifespan: number_or(next, u32::MAX as int, s.lifespan as int) as u32, ..s })
    } else if word == "--nats"@ {
        Ok(
            Setup {
                nats: match next {
                    Some(url) => url,
                    None => s.nats,
                },
                ..s
            },
        )
    } else if word == "--region"@ {
        Ok(Setup { region: number_or(next, u32::MAX as int, s.region as int) as u32, ..s })
    } else if word == "--heartbeat"@ {
        Ok(Setup { heartbeat: number_or(next, u64::MAX as int, s.heartbeat as int) as u64, ..s })
    } else if word == "--edge-timeout"@ {
        Ok(
            Setup {
                edge_timeout: number_or(next, u64::MAX as int, s.edge_timeout as int) as u64,
                ..s
            },
        )
    } else if word == "--pattern"@ {
        match next {
            Some(name) if exists|p: Pattern| #[trigger] p.name() == name => Ok(
                Setup { pattern: choose|p: Pattern| #[trigger] p.name() == name, ..s },
            ),
            _ => Err(SetupError::Pattern),
        }
    } else {
        match number(Some(word), u32::MAX as int) {
            Some(n) => Ok(Setup { ticks: n as u32, ..s }),
            None => Err(SetupError::Usage),
        }
    }
}

/// What the words from a place on make of a setup.
pub open spec fn told_all(s: Setup, words: Seq<Seq<char>>, from: int) -> Result<Setup, SetupError>
    decreases words.len() + 1 - from,
{
    if from >= words.len() {
        Ok(s)
    } else {
        match told(s, words[from], word_at(words, from + 1)) {
            Ok(t) => told_all(
                t,
                words,
                if takes_value(words[from]) {
                    from + 2
                } else {
                    from + 1
                },
            ),
            Err(e) => Err(e),
        }
    }
}

/// The number that a word stands for, if it is one that fits.
fn read(word: &Option<String>, max: u64) -> (n: Option<u64>)
    ensures
        n is Some <==> number(text_of(*word), max as int) is Some,
        n matches Some(v) ==> number(text_of(*word), max as int) == Some(v as int),
        n matches Some(v) ==> v <= max,
{
    match word {
        Some(s) => parse_number(s.as_str(), max),
        None => None,
    }
}

/// The number that a word stands for, or what was there.
fn read_or(word: &Option<String>, max: u64, was: u64) -> (v: u64)
    requires
        was <= max,
    ensures
        v == number_or(text_of(*word), max as int, was as int),
        v <= max,
{
    match read(word, max) {
        Some(n) => n,
        None => was,
    }
}

/// The herd of a run.
pub open spec fn raised(o: Setup, world: World) -> HerdState {
    HerdState {
        damage_divisor: o.damage,
        crowd_threshold: o.crowd,
        ..founding(
            world,
            o.entities,
            SEED,
            (o.lifespan * world.tick_hz) as u32,
            o.pattern,
        )
    }
}

/// Ticks between the report lines of a run of so many.
pub open spec fn spacing(ticks: u32) -> u32 {
    if ticks / REPORTS > 1 {
        ticks / REPORTS
    } else {
        1
    }
}

impl SimOptions {
    /// What a run is set up with when nothing is said.
    pub fn unless_told() -> (o: SimOptions)
        ensures
            o@ == unless_told(),
    {
        SimOptions {
            ticks: TICKS,
            wait: Wait::Sleep,
            threads: None,
            entities: ENTITIES,
            viewers: VIEWERS,
            damage: DAMAGE_DIVISOR,
            crowd: CROWD_THRESHOLD,
            lifespan: LIFESPAN_S,
            pattern: Pattern::Herd,
            nats: DEFAULT_NATS.to_owned(),
            region: 7,
            heartbeat: 30,
            edge_timeout: 5,
        }
    }

    /// Takes in one word, with the word after it.
    fn tell(&mut self, word: &str, next: &Option<String>) -> (r: Result<(), SetupError>)
        ensures
            ({
                match told(old(self)@, word@, text_of(*next)) {
                    Ok(s) => r is Ok && final(self)@ == s,
                    Err(e) => r == Err::<(), SetupError>(e),
                }
            }),
    {
        if same_text(word, "--free-run") {
            self.wait = Wait::Free;
        } else if same_text(word, "--hold") {
            self.wait = Wait::Hold;
        } else if same_text(word, "--threads") {
            self.threads = match read(next, usize::MAX as u64) {
                Some(n) => Some(n as usize),
                None => None,
            };
        } else if same_text(word, "--entities") {
            self.entities = read_or(next, usize::MAX as u64, self.entities as u64) as usize;
        } else if same_text(word, "--viewers") {
            self.viewers = read_or(next, usize::MAX as u64, self.viewers as u64) as usize;
        } else if same_text(word, "--damage") {
            self.damage = read_or(next, usize::MAX as u64, self.damage as u64) as usize;
        } else if same_text(word, "--crowd") {
            self.crowd = read_or(next, usize::MAX as u64, self.crowd as u64) as usize;
        } else if same_text(word, "--lifespan") {
            self.lifespan = read_or(next, u32::MAX as u64, self.lifespan as u64) as u32;
        } else if same_text(word, "--nats") {
            // Nothing here decides where the broker is or what the region is
            // called: a deployment does, which is why they are arguments.
            match next {
                Some(url) => {
                    self.nats = url.clone();
                },
                None => {},
            }
        } else if same_text(word, "--region") {
            self.region = read_or(next, u32::MAX as u64, self.region as u64) as u32;
        } else if same_text(word, "--heartbeat") {
            self.heartbeat = read_or(next, u64::MAX, self.heartbeat);
        } else if same_text(word, "--edge-timeout") {
            self.edge_timeout = read_or(next, u64::MAX, self.edge_timeout);
        } else if same_text(word, "--pattern") {
            let found: Option<Pattern> = match next {
                Some(name) => Pattern::parse(name.as_str()),
                None => None,
            };
            match found {
                Some(p) => {
                    proof {
                        let name = next->0@;
                        assert(p.name() == name);
                        let q = choose|q: Pattern| #[trigger] q.name() == name;
                        assert(found == Some(q));
                    }
                    self.pattern = p;
                },
                None => {
                    return Err(SetupError::Pattern);
                },
            }
        } else {
            match parse_number(word, u32::MAX as u64) {
                Some(n) => {
                    self.ticks = n as u32;
                },
                None => {
                    return Err(SetupError::Usage);
                },
            }
        }
        Ok(())
    }

    /// Reads the arguments.
    pub fn from_args(args: &Vec<String>) -> (r: Result<SimOptions, SetupError>)
        ensures
            match told_all(unless_told(), words(args@), 0) {
                Ok(s) => r matches Ok(o) && o@ == s,
                Err(e) => r matches Err(f) && f == e,
            },
    {
        let ghost w = words(args@);
        let mut o: SimOptions = SimOptions::unless_told();
        let mut k: usize = 0;
        while k < args.len()
            invariant
                w == words(args@),
                told_all(unless_told(), w, 0) == told_all(o@, w, k as int),
            decreases args.len() + 1 - k,
        {
            let next: Option<String> = if k + 1 < args.len() {
                Some(args[k + 1].clone())
            } else {
                None
            };
            assert(w[k as int] == args@[k as int]@);
            assert(text_of(next) == word_at(w, k + 1));
            match o.tell(args[k].as_str(), &next) {
                Ok(_) => {},
                Err(e) => {
                    return Err(e);
                },
            }
            if has_value(args[k].as_str()) && k + 1 < args.len() {
                k = k + 2;
            } else {
                assert(told_all(o@, w, k + 1) == told_all(o@, w, k + 2) || k + 1 < args.len());
                k = k + 1;
            }
        }
        Ok(o)
    }

    /// Raises the herd of a run, or nothing where its numbers do not fit: a
    /// lifespan of too many ticks, or of none where there is anyone to live it, or
    /// more entities than there are ids.
    pub fn raise(&self, world: &World) -> (r: Option<Herd>)
        requires
            world.wf(),
            world.region_size >= 2 * MARGIN_M * 1024,
        ensures
            match r {
                Some(herd) => {
                    &&& self.fits(*world)
                    &&& herd@.wf()
                    &&& herd@ == raised(self@, *world)
                },
                None => !self.fits(*world),
            },
    {
        assert(0 <= self.lifespan * world.tick_hz <= u32::MAX * u32::MAX) by (nonlinear_arith);
        let lifespan: u64 = self.lifespan as u64 * world.tick_hz as u64;
        if lifespan > u32::MAX as u64 || (lifespan == 0 && self.entities > 0) || self.entities as u64
            > u32::MAX as u64 {
            return None;
        }
        let mut herd: Herd = Herd::new(world, self.entities, SEED, lifespan as u32, self.pattern);
        herd.set_damage_divisor(self.damage);
        herd.set_crowd_threshold(self.crowd);
        Some(herd)
    }

    /// Whether the numbers of a run fit.
    pub open spec fn fits(self, world: World) -> bool {
        &&& self.lifespan * world.tick_hz <= u32::MAX
        &&& self.lifespan * world.tick_hz > 0 || self.entities == 0
        &&& self.entities <= u32::MAX
    }

    /// Ticks between report lines.
    pub fn report_every(&self) -> (n: u32)
        ensures
            n == spacing(self.ticks),
            n > 0,
    {
        let n: u32 = self.ticks / REPORTS;
        if n > 1 {
            n
        } else {
            1
        }
    }

    /// How many ticks to run, or none for as long as it is left to.
    pub fn limit(&self) -> (n: Option<u32>)
        ensures
            n == if self.ticks > 0 {
                Some(self.ticks)
            } else {
                None
            },
    {
        if self.ticks > 0 {
            Some(self.ticks)
        } else {
            None
        }
    }
}

/// Whether an option takes the word after it.
fn has_value(word: &str) -> (yes: bool)
    ensures
        yes == takes_value(word@),
{
    same_text(word, "--threads") || same_text(word, "--entities") || same_text(word, "--viewers")
        || same_text(word, "--damage") || same_text(word, "--crowd") || same_text(
        word,
        "--lifespan",
    ) || same_text(word, "--nats") || same_text(word, "--region") || same_text(word, "--heartbeat")
        || same_text(word, "--edge-timeout") || same_text(word, "--pattern")
}

/// Whether a number is read from a word: one from zero to the most that fits is taken
/// as it is written, and anything else leaves what was there.
pub open spec fn reads_as(next: Option<Seq<char>>, max: int, was: int, v: int) -> bool {
    let fits = next is Some && is_number(next->0, max);
    &&& fits ==> v == decimal(digits_of(next->0))
    &&& !fits ==> v == was
}

/// The options, told apart by how long they are and their third letter.
proof fn options_differ()
    ensures
        "--free-run"@.len() == 10 && "--free-run"@[2] == 'f',
        "--hold"@.len() == 6 && "--hold"@[2] == 'h',
        "--threads"@[2] == 't',
        "--entities"@.len() == 10 && "--entities"@[2] == 'e',
        "--viewers"@[2] == 'v',
        "--damage"@[2] == 'd',
        "--crowd"@[2] == 'c',
        "--lifespan"@[2] == 'l',
        "--nats"@[2] == 'n',
        "--region"@[2] == 'r',
        "--heartbeat"@.len() == 11 && "--heartbeat"@[2] == 'h',
        "--edge-timeout"@.len() == 14 && "--edge-timeout"@[2] == 'e',
        "--pattern"@[2] == 'p',
{
    reveal_strlit("--free-run");
    reveal_strlit("--hold");
    reveal_strlit("--threads");
    reveal_strlit("--entities");
    reveal_strlit("--viewers");
    reveal_strlit("--damage");
    reveal_strlit("--crowd");
    reveal_strlit("--lifespan");
    reveal_strlit("--nats");
    reveal_strlit("--region");
    reveal_strlit("--heartbeat");
    reveal_strlit("--edge-timeout");
    reveal_strlit("--pattern");
}

/// Each option that takes a number sets one thing, to the number after it, up to the
/// most that thing holds: counts as far as memory goes, the lifespan and the region
/// 32 bits, and the seconds between heartbeats and before an edge is dropped 64.
/// Nothing else of the setup changes.
pub proof fn an_option_sets_one_thing(s: Setup, next: Option<Seq<char>>)
    ensures
        ({
            let count = usize::MAX as int;
            &&& told(s, "--entities"@, next) matches Ok(t) && reads_as(
                next,
                count,
                s.entities as int,
                t.entities as int,
            ) && t == (Setup { entities: t.entities, ..s })
            &&& told(s, "--viewers"@, next) matches Ok(t) && reads_as(
                next,
                count,
                s.viewers as int,
                t.viewers as int,
            ) && t == (Setup { viewers: t.viewers, ..s })
            &&& told(s, "--damage"@, next) matches Ok(t) && reads_as(
                next,
                count,
                s.damage as int,
                t.damage as int,
            ) && t == (Setup { damage: t.damage, ..s })
            &&& told(s, "--crowd"@, next) matches Ok(t) && reads_as(
                next,
                count,
                s.crowd as int,
                t.crowd as int,
            ) && t == (Setup { crowd: t.crowd, ..s })
            &&& told(s, "--lifespan"@, next) matches Ok(t) && reads_as(
                next,
                4_294_967_295,
                s.lifespan as int,
                t.lifespan as int,
            ) && t == (Setup { lifespan: t.lifespan, ..s })
            &&& told(s, "--region"@, next) matches Ok(t) && reads_as(
                next,
                4_294_967_295,
                s.region as int,
                t.region as int,
            ) && t == (Setup { region: t.region, ..s })
            &&& told(s, "--heartbeat"@, next) matches Ok(t) && reads_as(
                next,
                18_446_744_073_709_551_615,
                s.heartbeat as int,
                t.heartbeat as int,
            ) && t == (Setup { heartbeat: t.heartbeat, ..s })
            &&& told(s, "--edge-timeout"@, next) matches Ok(t) && reads_as(
                next,
                18_446_744_073_709_551_615,
                s.edge_timeout as int,
                t.edge_timeout as int,
            ) && t == (Setup { edge_timeout: t.edge_timeout, ..s })
        }),
{
    options_differ();
    if let Some(word) = next {
        if is_number(word, usize::MAX as int) {
            a_number_is_not_negative(word, usize::MAX as int);
        }
        if is_number(word, u32::MAX as int) {
            a_number_is_not_negative(word, u32::MAX as int);
        }
        if is_number(word, u64::MAX as int) {
            a_number_is_not_negative(word, u64::MAX as int);
        }
    }
}

/// The other options. Threads are as many as said, or as many as there are where
/// that cannot be read. A broker is where it is said to be, read or not. A pattern is
/// the one of that name, and no other will do. Two options stand alone. Any other
/// word is how many ticks to run, up to 32 bits, or no option at all.
pub proof fn the_other_options_do_as_they_say(s: Setup, next: Option<Seq<char>>, word: Seq<char>)
    ensures
        told(s, "--free-run"@, next) == Ok::<Setup, SetupError>(Setup { wait: Wait::Free, ..s }),
        told(s, "--hold"@, next) == Ok::<Setup, SetupError>(Setup { wait: Wait::Hold, ..s }),
        told(s, "--threads"@, next) matches Ok(t) && {
            &&& t == (Setup { threads: t.threads, ..s })
            &&& t.threads is Some <==> next is Some && is_number(next->0, usize::MAX as int)
            &&& t.threads matches Some(n) ==> n == decimal(digits_of(next->0))
        },
        told(s, "--nats"@, next) matches Ok(t) && {
            &&& t == (Setup { nats: t.nats, ..s })
            &&& next is Some ==> t.nats == next->0
            &&& next is None ==> t.nats == s.nats
        },
        forall|p: Pattern|
            next == Some(#[trigger] p.name()) ==> told(s, "--pattern"@, next) == Ok::<
                Setup,
                SetupError,
            >(Setup { pattern: p, ..s }),
        next is None ==> told(s, "--pattern"@, next) == Err::<Setup, SetupError>(
            SetupError::Pattern,
        ),
        next is Some && (forall|p: Pattern| #[trigger] p.name() != next->0) ==> told(
            s,
            "--pattern"@,
            next,
        ) == Err::<Setup, SetupError>(SetupError::Pattern),
        is_number(word, 4_294_967_295) ==> told(s, word, next) == Ok::<Setup, SetupError>(
            Setup { ticks: decimal(digits_of(word)) as u32, ..s },
        ),
        !is_number(word, 4_294_967_295) && (word.len() < 2 || word[0] != '-' || word[1] != '-')
            ==> told(s, word, next) == Err::<Setup, SetupError>(SetupError::Usage),
{
    options_differ();
    if !is_number(word, u32::MAX as int) && (word.len() < 2 || word[0] != '-' || word[1] != '-') {
        options_start_with_dashes(word);
    }
    if let Some(w) = next {
        if is_number(w, usize::MAX as int) {
            a_number_is_not_negative(w, usize::MAX as int);
        }
        assert forall|p: Pattern| next == Some(#[trigger] p.name()) implies told(
            s,
            "--pattern"@,
            next,
        ) == Ok::<Setup, SetupError>(Setup { pattern: p, ..s }) by {
            let q = choose|q: Pattern| #[trigger] q.name() == w;
            names_are_distinct(p, q);
        }
    }
    if is_number(word, u32::MAX as int) {
        a_number_is_no_option(word);
    }
}

/// Every option starts with two dashes.
proof fn options_start_with_dashes(word: Seq<char>)
    requires
        word.len() < 2 || word[0] != '-' || word[1] != '-',
    ensures
        word != "--free-run"@,
        word != "--hold"@,
        !takes_value(word),
{
    reveal_strlit("--free-run");
    reveal_strlit("--hold");
    reveal_strlit("--threads");
    reveal_strlit("--entities");
    reveal_strlit("--viewers");
    reveal_strlit("--damage");
    reveal_strlit("--crowd");
    reveal_strlit("--lifespan");
    reveal_strlit("--nats");
    reveal_strlit("--region");
    reveal_strlit("--heartbeat");
    reveal_strlit("--edge-timeout");
    reveal_strlit("--pattern");
}

/// No number is written like an option.
proof fn a_number_is_no_option(word: Seq<char>)
    requires
        is_number(word, u32::MAX as int),
    ensures
        word != "--free-run"@,
        word != "--hold"@,
        word != "--pattern"@,
        !takes_value(word),
{
    let d = digits_of(word);
    if word[0] == '-' {
        assert(d[0] == '-');
        assert(is_digit(d[0]));
    }
    options_start_with_dashes(word);
}

/// Words are read in order: after one that stands alone the next, and after one that
/// takes a value the one behind that. A later word has the last say.
pub proof fn words_are_read_in_order(s: Setup, words: Seq<Seq<char>>, from: int)
    requires
        0 <= from < words.len(),
    ensures
        words[from] == "--free-run"@ ==> told_all(s, words, from) == told_all(
            Setup { wait: Wait::Free, ..s },
            words,
            from + 1,
        ),
        words[from] == "--hold"@ ==> told_all(s, words, from) == told_all(
            Setup { wait: Wait::Hold, ..s },
            words,
            from + 1,
        ),
        words[from] == "--nats"@ && from + 1 < words.len() ==> told_all(s, words, from)
            == told_all(Setup { nats: words[from + 1], ..s }, words, from + 2),
        is_number(words[from], 4_294_967_295) ==> told_all(s, words, from) == told_all(
            Setup { ticks: decimal(digits_of(words[from])) as u32, ..s },
            words,
            from + 1,
        ),
{
    options_differ();
    the_other_options_do_as_they_say(s, word_at(words, from + 1), words[from]);
    if is_number(words[from], u32::MAX as int) {
        a_number_is_no_option(words[from]);
    }
}

/// A run reports about twenty times: as many ticks apart as twenty of them are whole
/// in its length, and every tick where it is shorter than that.
pub proof fn a_run_reports_twenty_times(ticks: u32)
    ensures
        ticks >= 20 ==> 20 * spacing(ticks) <= ticks < 20 * (spacing(ticks) + 1),
        ticks < 20 ==> spacing(ticks) == 1,
{
}

/// A herd is raised with as many as its run is told, who live for as many ticks as
/// there are in the seconds they are given, under the pattern that was asked for, and
/// with the crowds and the damage that were. Its draws start from the same seed every
/// time.
pub proof fn a_herd_is_raised_as_told(o: Setup, world: World)
    requires
        world.wf(),
        world.region_size >= 16384,
        o.lifespan * world.tick_hz <= u32::MAX,
    ensures
        ({
            let h = raised(o, world);
            &&& h.target == o.entities
            &&& h.lifespan == o.lifespan * world.tick_hz
            &&& h.plan.pattern == o.pattern
            &&& h.world == world
            &&& h.crowd_threshold == o.crowd
            &&& h.damage_divisor == o.damage
            &&& h.plan.attractors.len() == 8
            &&& drawn_anywhere(h.plan, h.plan.attractors[0], 0x4845_5245)
        }),
{
    assert(0 <= o.lifespan * world.tick_hz) by (nonlinear_arith);
    a_run_has_eight_attractors(
        world,
        o.entities,
        SEED,
        (o.lifespan * world.tick_hz) as u32,
        o.pattern,
        0,
    );
    assert(0x4845_5244u64 | 1 == 0x4845_5245) by (bit_vector);
    assert(stream(seeded(SEED), 0) == seeded(SEED));
}

/// An option that takes a value is followed by the word behind its value, which is
/// not read again.
pub proof fn a_value_is_not_read_again(s: Setup, words: Seq<Seq<char>>, from: int)
    requires
        0 <= from < words.len(),
        ({
            let word = words[from];
            ||| word == "--threads"@ || word == "--entities"@ || word == "--viewers"@
            ||| word == "--damage"@ || word == "--crowd"@ || word == "--lifespan"@
            ||| word == "--nats"@ || word == "--region"@ || word == "--heartbeat"@
            ||| word == "--edge-timeout"@ || word == "--pattern"@
        }),
    ensures
        match told(s, words[from], word_at(words, from + 1)) {
            Ok(t) => told_all(s, words, from) == told_all(t, words, from + 2),
            Err(e) => told_all(s, words, from) == Err::<Setup, SetupError>(e),
        },
{
}

} // verus!
