//! How a population moves.

use vstd::prelude::*;

use crate::text::same_text;

verus! {

/// How the population moves. `Herd` is a plausible world; the rest exist to
/// break something in particular.
#[derive(Clone, Copy, Debug, PartialEq, Eq, Structural)]
pub enum Pattern {
    /// Attractors, dwell, and a gather and disperse cycle.
    Herd,
    /// Everything converges on one cell and stays.
    Flash,
    /// Every entity astride a cell boundary, stepping across it each tick.
    Flap,
    /// Entities oscillating in and out of the range a viewer holds ghosts for.
    Thrash,
    /// A share of the population jumping the region every tick.
    Teleport,
    /// A quarter of the population dying at once, periodically.
    Cull,
}

impl Pattern {
    /// What the pattern is called on a command line.
    pub open spec fn name(self) -> Seq<char> {
        match self {
            Pattern::Herd => "herd"@,
            Pattern::Flash => "flash"@,
            Pattern::Flap => "flap"@,
            Pattern::Thrash => "thrash"@,
            Pattern::Teleport => "teleport"@,
            Pattern::Cull => "cull"@,
        }
    }

    /// The pattern of that name, if there is one.
    pub fn parse(s: &str) -> (p: Option<Pattern>)
        ensures
            forall|q: Pattern| p == Some(q) <==> #[trigger] q.name() == s@,
    {
        let p: Option<Pattern> = if same_text(s, "herd") {
            Some(Pattern::Herd)
        } else if same_text(s, "flash") {
            Some(Pattern::Flash)
        } else if same_text(s, "flap") {
            Some(Pattern::Flap)
        } else if same_text(s, "thrash") {
            Some(Pattern::Thrash)
        } else if same_text(s, "teleport") {
            Some(Pattern::Teleport)
        } else if same_text(s, "cull") {
            Some(Pattern::Cull)
        } else {
            None
        };
        proof {
            assert forall|q: Pattern| p == Some(q) <==> #[trigger] q.name() == s@ by {
                if p is Some && q.name() == s@ {
                    names_are_distinct(p->0, q);
                }
            }
        }
        p
    }
}

/// No two patterns share a name, so a name that parses parses to one pattern.
pub proof fn names_are_distinct(p: Pattern, q: Pattern)
    requires
        p.name() == q.name(),
    ensures
        p == q,
{
    reveal_strlit("herd");
    reveal_strlit("flash");
    reveal_strlit("flap");
    reveal_strlit("thrash");
    reveal_strlit("teleport");
    reveal_strlit("cull");
    assert("herd"@.len() == 4 && "herd"@[0] == 'h');
    assert("flash"@.len() == 5);
    assert("flap"@.len() == 4 && "flap"@[0] == 'f');
    assert("thrash"@.len() == 6);
    assert("teleport"@.len() == 8);
    assert("cull"@.len() == 4 && "cull"@[0] == 'c');
}

} // verus!
