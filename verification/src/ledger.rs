//! The figures of a run.

use vstd::prelude::*;

use crate::histogram::Histogram;

verus! {

/// What one tick served.
#[derive(Clone, Copy, Debug, PartialEq, Eq, Structural)]
pub struct Stats {
    /// Viewers served.
    pub viewers: u64,
    /// Entities considered for them.
    pub candidates: u64,
    /// Records sent to them.
    pub records: u64,
    /// Bytes sent to them.
    pub bytes: u64,
    /// Viewers that crossed a cell.
    pub subs_changed: u64,
}

/// A run's ticks, summed.
#[derive(Clone, Copy, Debug, PartialEq, Eq, Structural)]
pub struct Totals {
    pub viewers: u64,
    pub candidates: u64,
    pub records: u64,
    pub bytes: u64,
    pub subs_changed: u64,
}

impl Totals {
    /// Nothing yet.
    pub fn new() -> (t: Totals)
        ensures
            t == (Totals { viewers: 0, candidates: 0, records: 0, bytes: 0, subs_changed: 0 }),
    {
        Totals { viewers: 0, candidates: 0, records: 0, bytes: 0, subs_changed: 0 }
    }

    /// Whether there is room for one tick more.
    pub open spec fn has_room(self, s: Stats) -> bool {
        &&& self.viewers + s.viewers <= u64::MAX
        &&& self.candidates + s.candidates <= u64::MAX
        &&& self.records + s.records <= u64::MAX
        &&& self.bytes + s.bytes <= u64::MAX
        &&& self.subs_changed + s.subs_changed <= u64::MAX
    }

    /// With one tick more.
    pub open spec fn plus(self, s: Stats) -> Totals {
        Totals {
            viewers: (self.viewers + s.viewers) as u64,
            candidates: (self.candidates + s.candidates) as u64,
            records: (self.records + s.records) as u64,
            bytes: (self.bytes + s.bytes) as u64,
            subs_changed: (self.subs_changed + s.subs_changed) as u64,
        }
    }

    /// Adds one tick.
    pub fn add(&mut self, s: &Stats)
        requires
            old(self).has_room(*s),
        ensures
            *final(self) == old(self).plus(*s),
    {
        self.viewers = self.viewers + s.viewers;
        self.candidates = self.candidates + s.candidates;
        self.records = self.records + s.records;
        self.bytes = self.bytes + s.bytes;
        self.subs_changed = self.subs_changed + s.subs_changed;
    }
}

/// What a ledger holds.
#[verifier::ext_equal]
pub struct Figures {
    /// Microseconds each tick took.
    pub work: Seq<u64>,
    /// Microseconds each late tick was late.
    pub late: Seq<u64>,
    pub totals: Totals,
    pub over_budget: u64,
    pub over_half: u64,
    pub over_three_quarters: u64,
    pub window_worst: u64,
    pub peak_cell: usize,
}

/// The figures of a run, kept tick by tick.
pub struct Ledger {
    /// How long ticks took.
    pub work: Histogram,
    /// How late the late ones were.
    pub late: Histogram,
    /// What they served.
    pub totals: Totals,
    /// Ticks that took longer than the period.
    pub over_budget: u64,
    /// Ticks that took longer than half of it.
    pub over_half: u64,
    /// Ticks that took longer than three quarters of it.
    pub over_three_quarters: u64,
    /// Nanoseconds of the worst tick since the last report line.
    pub window_worst: u64,
    /// How many the fullest cell has held at a report line.
    pub peak_cell: usize,
}

impl View for Ledger {
    type V = Figures;

    open spec fn view(&self) -> Figures {
        Figures {
            work: self.work@,
            late: self.late@,
            totals: self.totals,
            over_budget: self.over_budget,
            over_half: self.over_half,
            over_three_quarters: self.over_three_quarters,
            window_worst: self.window_worst,
            peak_cell: self.peak_cell,
        }
    }
}

/// One more, if so.
pub open spec fn counted(n: u64, so: bool) -> u64 {
    if so {
        (n + 1) as u64
    } else {
        n
    }
}

/// The figures after one tick that took so many nanoseconds of a period, and
/// started so many after its deadline.
pub open spec fn noted(f: Figures, took: u64, late: u64, period: u64, s: Stats) -> Figures {
    Figures {
        work: f.work.push(took / 1000),
        late: if late > 0 {
            f.late.push(late / 1000)
        } else {
            f.late
        },
        totals: f.totals.plus(s),
        over_budget: counted(f.over_budget, took > period),
        over_half: counted(f.over_half, took * 2 > period),
        over_three_quarters: counted(f.over_three_quarters, took * 4 > period * 3),
        window_worst: if took > f.window_worst {
            took
        } else {
            f.window_worst
        },
        ..f
    }
}

/// The figures after a report line, where the fullest cell holds so many.
pub open spec fn closed(f: Figures, fullest: usize) -> Figures {
    Figures {
        window_worst: 0,
        peak_cell: if fullest > f.peak_cell {
            fullest
        } else {
            f.peak_cell
        },
        ..f
    }
}

impl Ledger {
    /// Every duration is in its bucket, and no tick is counted that was not.
    pub open spec fn wf(self) -> bool {
        &&& self.work.wf()
        &&& self.late.wf()
        &&& self.over_budget <= self.over_three_quarters <= self.over_half <= self.work@.len()
        &&& self.late@.len() <= self.work@.len()
    }

    /// Nothing yet.
    pub fn new() -> (l: Ledger)
        ensures
            l.wf(),
            l@ == (Figures {
                work: Seq::empty(),
                late: Seq::empty(),
                totals: Totals { viewers: 0, candidates: 0, records: 0, bytes: 0, subs_changed: 0 },
                over_budget: 0,
                over_half: 0,
                over_three_quarters: 0,
                window_worst: 0,
                peak_cell: 0,
            }),
    {
        Ledger {
            work: Histogram::new(),
            late: Histogram::new(),
            totals: Totals::new(),
            over_budget: 0,
            over_half: 0,
            over_three_quarters: 0,
            window_worst: 0,
            peak_cell: 0,
        }
    }

    /// Notes one tick, in nanoseconds.
    pub fn note(&mut self, took: u64, late: u64, period: u64, stats: &Stats)
        requires
            old(self).wf(),
            old(self)@.work.len() < u64::MAX,
            old(self)@.totals.has_room(*stats),
        ensures
            final(self)@ == noted(old(self)@, took, late, period, *stats),
            final(self).wf(),
    {
        self.work.record(took / 1000);
        if late > 0 {
            self.late.record(late / 1000);
        }
        if took > period {
            self.over_budget = self.over_budget + 1;
        }
        if took as u128 * 2 > period as u128 {
            self.over_half = self.over_half + 1;
        }
        if took as u128 * 4 > period as u128 * 3 {
            self.over_three_quarters = self.over_three_quarters + 1;
        }
        if took > self.window_worst {
            self.window_worst = took;
        }
        self.totals.add(stats);
    }

    /// Whether there is room to note one tick more.
    pub fn has_room(&self, stats: &Stats) -> (yes: bool)
        requires
            self.wf(),
        ensures
            yes == (self@.work.len() < u64::MAX && self@.totals.has_room(*stats)),
    {
        let t: Totals = self.totals;
        self.work.count() < u64::MAX && stats.viewers <= u64::MAX - t.viewers && stats.candidates
            <= u64::MAX - t.candidates && stats.records <= u64::MAX - t.records && stats.bytes
            <= u64::MAX - t.bytes && stats.subs_changed <= u64::MAX - t.subs_changed
    }

    /// Closes a window at a report line, where the fullest cell holds so many.
    pub fn report(&mut self, fullest: usize)
        ensures
            final(self)@ == closed(old(self)@, fullest),
            old(self).wf() ==> final(self).wf(),
    {
        if fullest > self.peak_cell {
            self.peak_cell = fullest;
        }
        self.window_worst = 0;
    }
}

/// A tick over the budget is over three quarters of it, and one over three
/// quarters is over half.
pub proof fn over_is_over_less(took: int, period: int)
    requires
        0 <= took,
        0 <= period,
    ensures
        took > period ==> took * 4 > period * 3,
        took * 4 > period * 3 ==> took * 2 > period,
{
}

/// A tick that took so many nanoseconds adds to the recorded work the microseconds
/// that are whole in them, and one that was late adds to the recorded lateness the
/// same way. One on time adds nothing there. So a tick over its budget records no
/// less than the whole microseconds of the period.
pub proof fn what_is_recorded_is_whole_microseconds(
    f: Figures,
    took: u64,
    late: u64,
    period: u64,
    s: Stats,
)
    ensures
        ({
            let g = noted(f, took, late, period, s);
            let us = g.work.last();
            let past = g.late.last();
            &&& g.work == f.work.push(us)
            &&& us * 1000 <= took < (us + 1) * 1000
            &&& late > 0 ==> g.late == f.late.push(past) && past * 1000 <= late < (past + 1)
                * 1000
            &&& late == 0 ==> g.late == f.late
            &&& took > period ==> forall|whole: int|
                #![trigger whole * 1000]
                whole * 1000 <= period ==> whole <= us
        }),
{
    assert(noted(f, took, late, period, s).work.last() == took / 1000);
    if late > 0 {
        assert(noted(f, took, late, period, s).late.last() == late / 1000);
    }
}

/// A tick is counted over the budget, over half of it and over three quarters of it
/// where it took more nanoseconds than these are, and each count goes up by one or
/// stays. What it served is added to what was served, figure by figure.
pub proof fn a_tick_is_counted_once(f: Figures, took: u64, late: u64, period: u64, s: Stats)
    requires
        f.over_budget < u64::MAX,
        f.over_half < u64::MAX,
        f.over_three_quarters < u64::MAX,
        f.totals.viewers + s.viewers <= u64::MAX,
        f.totals.candidates + s.candidates <= u64::MAX,
        f.totals.records + s.records <= u64::MAX,
        f.totals.bytes + s.bytes <= u64::MAX,
        f.totals.subs_changed + s.subs_changed <= u64::MAX,
    ensures
        ({
            let g = noted(f, took, late, period, s);
            &&& g.over_budget - f.over_budget == if took > period {
                1int
            } else {
                0
            }
            &&& g.over_half - f.over_half == if took + took > period {
                1int
            } else {
                0
            }
            &&& g.over_three_quarters - f.over_three_quarters == if took + took + took + took
                > period + period + period {
                1int
            } else {
                0
            }
            &&& g.totals.viewers - f.totals.viewers == s.viewers
            &&& g.totals.candidates - f.totals.candidates == s.candidates
            &&& g.totals.records - f.totals.records == s.records
            &&& g.totals.bytes - f.totals.bytes == s.bytes
            &&& g.totals.subs_changed - f.totals.subs_changed == s.subs_changed
        }),
{
}

/// The worst tick of a window is one of its ticks, and none of them took longer. A
/// report line starts a new window. The fullest cell seen at report lines is one of
/// those reported, and none was fuller; noting a tick does not touch it, and a
/// report line touches nothing else.
pub proof fn a_window_keeps_its_worst(
    f: Figures,
    took: u64,
    late: u64,
    period: u64,
    s: Stats,
    fullest: usize,
)
    ensures
        ({
            let g = noted(f, took, late, period, s);
            &&& g.window_worst >= took
            &&& g.window_worst >= f.window_worst
            &&& g.window_worst == took || g.window_worst == f.window_worst
            &&& g.peak_cell == f.peak_cell
        }),
        ({
            let g = closed(f, fullest);
            &&& g.peak_cell >= fullest
            &&& g.peak_cell >= f.peak_cell
            &&& g.peak_cell == fullest || g.peak_cell == f.peak_cell
            &&& g.window_worst == 0
            &&& g.work == f.work
            &&& g.late == f.late
            &&& g.totals == f.totals
            &&& g.over_budget == f.over_budget
            &&& g.over_half == f.over_half
            &&& g.over_three_quarters == f.over_three_quarters
            &&& noted(g, took, late, period, s).window_worst == took
        }),
{
}

} // verus!
