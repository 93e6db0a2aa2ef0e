//! Durations, in quarter-octave buckets.

use vstd::arithmetic::power2::{
    lemma2_to64, lemma_pow2_pos, lemma_pow2_strictly_increases, lemma_pow2_unfold, pow2,
};
use vstd::bits::lemma_u64_shl_is_mul;
use vstd::prelude::*;

verus! {

/// How many buckets there are. The last holds everything from its edge up.
pub const BUCKETS: usize = 128;

/// The octave of a duration and the quarter of that octave it falls in. The two
/// lowest octaves are not divided.
pub open spec fn quarters(us: int) -> (int, int)
    decreases us,
{
    if us < 2 {
        (0, 0)
    } else if us < 4 {
        (1, 0)
    } else if us < 8 {
        (2, us - 4)
    } else {
        let (oct, sub) = quarters(us / 2);
        (oct + 1, sub)
    }
}

/// The bucket of a duration.
pub open spec fn bucket_of(us: int) -> int {
    let (oct, sub) = quarters(us);
    if 4 * oct + sub < BUCKETS {
        4 * oct + sub
    } else {
        BUCKETS - 1
    }
}

/// The upper edge of a bucket, which nothing in it reaches. The last has none.
pub open spec fn edge(b: int) -> int {
    if b < 8 {
        2 * pow2((b / 4) as nat) as int
    } else {
        (5 + b % 4) * pow2((b / 4 - 2) as nat)
    }
}

/// How many of the recorded durations are in buckets below `b`.
pub open spec fn below(seen: Seq<u64>, b: int) -> int
    decreases seen.len(),
{
    if seen.len() == 0 {
        0
    } else {
        below(seen.drop_last(), b) + if bucket_of(seen.last() as int) < b {
            1int
        } else {
            0
        }
    }
}

/// The longest of the recorded durations.
pub open spec fn longest(seen: Seq<u64>) -> u64
    decreases seen.len(),
{
    if seen.len() == 0 {
        0
    } else {
        let rest = longest(seen.drop_last());
        if seen.last() > rest {
            seen.last()
        } else {
            rest
        }
    }
}

/// Whether a bucket holds the duration of that rank, counted from the shortest.
pub open spec fn holds_rank(seen: Seq<u64>, rank: int, b: int) -> bool {
    &&& 0 <= b < BUCKETS
    &&& below(seen, b) < rank <= below(seen, b + 1)
}

/// Durations in microseconds, kept as a count for each bucket.
pub struct Histogram {
    buckets: Vec<u64>,
    count: u64,
    max_us: u64,
    seen: Ghost<Seq<u64>>,
}

impl View for Histogram {
    type V = Seq<u64>;

    /// What was recorded, in order.
    closed spec fn view(&self) -> Seq<u64> {
        self.seen@
    }
}

impl Histogram {
    /// Each bucket counts what was recorded of it.
    pub closed spec fn wf(self) -> bool {
        &&& self.buckets@.len() == BUCKETS
        &&& self.count == self@.len()
        &&& self.max_us == longest(self@)
        &&& forall|b: int|
            0 <= b < BUCKETS ==> #[trigger] self.buckets@[b] == below(self@, b + 1) - below(
                self@,
                b,
            )
    }

    /// What it keeps: a count for each bucket, a count of all, and the longest.
    pub closed spec fn tally(self) -> (Seq<u64>, u64, u64) {
        (self.buckets@, self.count, self.max_us)
    }

    /// Nothing recorded.
    pub fn new() -> (h: Histogram)
        ensures
            h.wf(),
            h@ == Seq::<u64>::empty(),
    {
        let mut buckets: Vec<u64> = Vec::new();
        for b in 0..BUCKETS
            invariant
                buckets@.len() == b,
                forall|j: int| 0 <= j < b ==> #[trigger] buckets@[j] == 0,
        {
            buckets.push(0);
        }
        Histogram { buckets, count: 0, max_us: 0, seen: Ghost(Seq::empty()) }
    }

    /// Counts one duration.
    pub fn record(&mut self, us: u64)
        requires
            old(self).wf(),
            old(self)@.len() < u64::MAX,
        ensures
            final(self).wf(),
            final(self)@ == old(self)@.push(us),
    {
        let ghost seen = self@;
        let b: usize = bucket(us);
        proof {
            assert(seen.push(us).drop_last() =~= seen);
            counts_fit(seen, b as int);
            assert(self.buckets@[b as int] == below(seen, b + 1) - below(seen, b as int));
        }
        let n: u64 = self.buckets[b];
        self.buckets.set(b, n + 1);
        self.count = self.count + 1;
        if us > self.max_us {
            self.max_us = us;
        }
        self.seen = Ghost(seen.push(us));
    }

    /// How many were recorded.
    pub fn count(&self) -> (n: u64)
        requires
            self.wf(),
        ensures
            n == self@.len(),
    {
        self.count
    }
}

/// No more are below a bucket than were recorded, and no more below it than
/// below the next.
proof fn counts_fit(seen: Seq<u64>, b: int)
    ensures
        0 <= below(seen, b) <= below(seen, b + 1) <= seen.len(),
    decreases seen.len(),
{
    if seen.len() > 0 {
        counts_fit(seen.drop_last(), b);
    }
}

/// The bucket of a duration.
fn bucket(us: u64) -> (b: usize)
    ensures
        b == bucket_of(us as int),
        b < BUCKETS,
{
    if us < 2 {
        return 0;
    }
    if us < 4 {
        return 4;
    }
    let mut rest: u64 = us;
    let mut oct: u64 = 2;
    while rest >= 8
        invariant
            4 <= rest,
            2 <= oct,
            oct <= us,
            rest + oct <= us + 2,
            quarters(us as int).0 == quarters(rest as int).0 + oct - 2,
            quarters(us as int).1 == quarters(rest as int).1,
        decreases rest,
    {
        rest = rest / 2;
        oct = oct + 1;
    }
    let sub: usize = (rest - 4) as usize;
    if oct < 32 {
        4 * oct as usize + sub
    } else {
        BUCKETS - 1
    }
}

/// The upper edge of a bucket that has one.
fn upper_edge(b: usize) -> (us: u64)
    requires
        b < BUCKETS - 1,
    ensures
        us == edge(b as int),
{
    let oct: u64 = b as u64 / 4;
    let sub: u64 = b as u64 % 4;
    proof {
        lemma2_to64();
        if oct < 2 {
            lemma_u64_shl_is_mul(2, oct);
        } else {
            let shift = (oct - 2) as nat;
            if shift < 29 {
                lemma_pow2_strictly_increases(shift, 29);
            }
            assert((5 + sub) * pow2(shift) <= 8 * 0x2000_0000) by (nonlinear_arith)
                requires
                    sub < 4,
                    0 <= pow2(shift) <= 0x2000_0000,
            ;
            lemma_u64_shl_is_mul((5 + sub) as u64, (oct - 2) as u64);
        }
    }
    if oct < 2 {
        2u64 << oct
    } else {
        (5 + sub) << (oct - 2)
    }
}

impl Histogram {
    /// Upper edge of the bucket holding the duration of that rank, in
    /// microseconds, or the longest duration where the bucket has none. A rank is
    /// never below one. Log-spaced buckets, so this is a bound rather than an
    /// interpolation.
    pub fn quantile_us(&self, rank: u64) -> (us: u64)
        requires
            self.wf(),
        ensures
            us as int == quantile(self@, if rank > 1 {
                rank as int
            } else {
                1
            }),
    {
        let ghost seen = self@;
        if self.count == 0 {
            return 0;
        }
        let target: u64 = if rank > 1 {
            rank
        } else {
            1
        };
        let mut acc: u64 = 0;
        proof {
            counts_fit(seen, 0);
            nothing_is_below_the_first(seen);
        }
        for b in 0..BUCKETS
            invariant
                seen == self@,
                self.wf(),
                seen.len() > 0,
                target >= 1,
                target == if rank > 1 {
                    rank
                } else {
                    1u64
                },
                acc == below(seen, b as int),
                acc < target,
        {
            proof {
                counts_fit(seen, b as int);
                assert(self.buckets@[b as int] == below(seen, b + 1) - below(seen, b as int));
            }
            acc = acc + self.buckets[b];
            if acc >= target {
                proof {
                    assert(holds_rank(seen, target as int, b as int));
                    one_bucket_holds_a_rank(
                        seen,
                        target as int,
                        b as int,
                        rank_bucket(seen, target as int),
                    );
                }
                return if b < BUCKETS - 1 {
                    upper_edge(b)
                } else {
                    self.max_us
                };
            }
        }
        proof {
            everything_is_below_the_end(seen);
        }
        self.max_us
    }
}

/// The bucket that holds a rank.
pub open spec fn rank_bucket(seen: Seq<u64>, rank: int) -> int {
    choose|b: int| holds_rank(seen, rank, b)
}

/// What a histogram answers for a rank from one up: the upper edge of the bucket
/// that holds it, or the longest duration where there is no such edge. Nothing
/// recorded has no quantile.
pub open spec fn quantile(seen: Seq<u64>, rank: int) -> int {
    let b = rank_bucket(seen, rank);
    if seen.len() == 0 {
        0
    } else if rank <= seen.len() && b < BUCKETS - 1 {
        edge(b)
    } else {
        longest(seen) as int
    }
}

/// Nothing is below the first bucket.
proof fn nothing_is_below_the_first(seen: Seq<u64>)
    ensures
        below(seen, 0) == 0,
    decreases seen.len(),
{
    if seen.len() > 0 {
        a_bucket_spans(seen.last() as int);
        nothing_is_below_the_first(seen.drop_last());
    }
}

/// Everything is in some bucket.
proof fn everything_is_below_the_end(seen: Seq<u64>)
    ensures
        below(seen, BUCKETS as int) == seen.len(),
    decreases seen.len(),
{
    if seen.len() > 0 {
        a_bucket_spans(seen.last() as int);
        everything_is_below_the_end(seen.drop_last());
    }
}

/// More are below a later bucket.
proof fn later_is_more(seen: Seq<u64>, a: int, b: int)
    requires
        a <= b,
    ensures
        below(seen, a) <= below(seen, b),
    decreases seen.len(),
{
    if seen.len() > 0 {
        later_is_more(seen.drop_last(), a, b);
    }
}

/// One bucket holds a rank, and no other.
pub proof fn one_bucket_holds_a_rank(seen: Seq<u64>, rank: int, a: int, b: int)
    requires
        holds_rank(seen, rank, a),
        holds_rank(seen, rank, b),
    ensures
        a == b,
{
    if a < b {
        later_is_more(seen, a + 1, b);
    }
    if b < a {
        later_is_more(seen, b + 1, a);
    }
}

/// A duration is between the edges of its quarter of an octave.
proof fn a_bucket_spans(us: int)
    requires
        0 <= us,
    ensures
        ({
            let (oct, sub) = quarters(us);
            &&& 0 <= oct
            &&& 0 <= sub < 4
            &&& oct == 0 ==> sub == 0 && us < 2
            &&& oct == 1 ==> sub == 0 && 2 <= us < 4
            &&& oct >= 2 ==> (4 + sub) * pow2((oct - 2) as nat) <= us < (5 + sub) * pow2(
                (oct - 2) as nat,
            )
        }),
    decreases us,
{
    if us >= 8 {
        a_bucket_spans(us / 2);
        let (oct, sub) = quarters(us / 2);
        let p = pow2((oct - 2) as nat) as int;
        assert(oct >= 2) by {
            lemma2_to64();
        }
        lemma_pow2_unfold((oct - 1) as nat);
        let q = pow2((oct - 1) as nat) as int;
        assert(q == 2 * p);
        assert((4 + sub) * q == 2 * ((4 + sub) * p) && (5 + sub) * q == 2 * ((5 + sub) * p))
            by (nonlinear_arith)
            requires
                q == 2 * p,
        ;
    } else if us >= 4 {
        lemma2_to64();
        assert(pow2(0) == 1);
        assert((4 + (us - 4)) * pow2(0) == us && (5 + (us - 4)) * pow2(0) == us + 1)
            by (nonlinear_arith)
            requires
                pow2(0) == 1,
        ;
    }
}

/// The edges of the buckets that have one ascend.
proof fn edges_ascend(a: int, b: int)
    requires
        0 <= a <= b,
    ensures
        0 < edge(a) <= edge(b),
    decreases b - a,
{
    lemma2_to64();
    if a == b {
        if b >= 8 {
            lemma_pow2_pos((b / 4 - 2) as nat);
            let p = pow2((b / 4 - 2) as nat) as int;
            let sub = b % 4;
            assert((5 + sub) * p > 0) by (nonlinear_arith)
                requires
                    p > 0,
                    sub >= 0,
            ;
        } else {
            lemma_pow2_pos((b / 4) as nat);
        }
    } else {
        edges_ascend(a, b - 1);
        let c = b - 1;
        if b < 8 {
            assert(b / 4 == c / 4 || (b / 4 == 1 && c / 4 == 0));
        } else if b == 8 {
            assert(pow2(0) == 1 && pow2(1) == 2);
            assert((5 + 0) * pow2(0) == 5);
        } else {
            let o = (c / 4 - 2) as nat;
            let p = pow2(o) as int;
            let sub = c % 4;
            lemma_pow2_pos(o);
            if sub < 3 {
                assert(b / 4 == c / 4 && b % 4 == sub + 1);
                assert((5 + sub) * p <= (5 + (sub + 1)) * p) by (nonlinear_arith)
                    requires
                        p > 0,
                ;
            } else {
                assert(b / 4 == c / 4 + 1 && b % 4 == 0);
                lemma_pow2_unfold(o + 1);
                assert((o + 1) as int == b / 4 - 2);
                assert((5 + 3) * p <= (5 + 0) * (2 * p)) by (nonlinear_arith)
                    requires
                        p > 0,
                ;
            }
        }
    }
}

/// A duration is below the upper edge of its bucket, and from the edge of the
/// bucket before it up.
proof fn a_duration_is_between_edges(us: int)
    requires
        0 <= us,
    ensures
        0 <= bucket_of(us) < BUCKETS,
        bucket_of(us) < BUCKETS - 1 ==> us < edge(bucket_of(us)),
        bucket_of(us) == BUCKETS - 1 ==> edge(BUCKETS - 2) <= us,
{
    a_bucket_spans(us);
    lemma2_to64();
    let (oct, sub) = quarters(us);
    if 4 * oct + sub < BUCKETS {
        let b = 4 * oct + sub;
        assert(b / 4 == oct && b % 4 == sub);
        if b == BUCKETS - 1 {
            assert(oct == 31 && sub == 3);
            assert(edge(126) == 7 * pow2(29));
        }
    } else {
        let o = (oct - 2) as nat;
        assert(edge(126) == 7 * pow2(29));
        lemma_pow2_strictly_increases(29, o);
        lemma_pow2_pos(o);
        if o > 30 {
            lemma_pow2_strictly_increases(30, o);
        }
        assert((4 + sub) * pow2(o) >= 4 * pow2(o)) by (nonlinear_arith)
            requires
                sub >= 0,
                pow2(o) > 0,
        ;
        assert(pow2(30) == 2 * pow2(29));
    }
}

/// How many of the recorded durations are no longer than that.
pub open spec fn at_most(seen: Seq<u64>, us: int) -> int
    decreases seen.len(),
{
    if seen.len() == 0 {
        0
    } else {
        at_most(seen.drop_last(), us) + if seen.last() <= us {
            1int
        } else {
            0
        }
    }
}

/// What is below the bucket after one is no longer than its upper edge.
proof fn the_edge_bounds_the_bucket(seen: Seq<u64>, b: int)
    requires
        0 <= b < BUCKETS - 1,
    ensures
        below(seen, b + 1) <= at_most(seen, edge(b)),
    decreases seen.len(),
{
    if seen.len() > 0 {
        let us = seen.last() as int;
        the_edge_bounds_the_bucket(seen.drop_last(), b);
        a_duration_is_between_edges(us);
        if bucket_of(us) <= b {
            edges_ascend(bucket_of(us), b);
        }
    }
}

/// The longest is no shorter than any.
proof fn the_longest_bounds_all(seen: Seq<u64>, us: int)
    requires
        longest(seen) <= us,
    ensures
        at_most(seen, us) == seen.len(),
    decreases seen.len(),
{
    if seen.len() > 0 {
        the_longest_bounds_all(seen.drop_last(), us);
    }
}

/// Something in the last bucket makes the longest no shorter than the last edge.
proof fn the_longest_reaches_the_last_bucket(seen: Seq<u64>)
    requires
        below(seen, BUCKETS - 1) < seen.len(),
    ensures
        edge(BUCKETS - 2) <= longest(seen),
    decreases seen.len(),
{
    let us = seen.last() as int;
    a_duration_is_between_edges(us);
    if bucket_of(us) < BUCKETS - 1 {
        the_longest_reaches_the_last_bucket(seen.drop_last());
    }
}

/// Every rank that was recorded has a bucket.
pub proof fn every_rank_has_a_bucket(seen: Seq<u64>, rank: int)
    requires
        1 <= rank <= seen.len(),
    ensures
        holds_rank(seen, rank, rank_bucket(seen, rank)),
{
    nothing_is_below_the_first(seen);
    everything_is_below_the_end(seen);
    let b = climb_to_rank(seen, rank, 0);
    assert(holds_rank(seen, rank, b));
}

/// Climbs to the bucket that holds a rank.
proof fn climb_to_rank(seen: Seq<u64>, rank: int, from: int) -> (b: int)
    requires
        0 <= from < BUCKETS,
        below(seen, from) < rank <= below(seen, BUCKETS as int),
    ensures
        holds_rank(seen, rank, b),
    decreases BUCKETS - from,
{
    if rank <= below(seen, from + 1) {
        from
    } else {
        climb_to_rank(seen, rank, from + 1)
    }
}

/// A quantile is a bound: as many as its rank are no longer than it.
pub proof fn a_quantile_bounds_its_rank(seen: Seq<u64>, rank: int)
    requires
        1 <= rank <= seen.len(),
    ensures
        rank <= at_most(seen, quantile(seen, rank)),
{
    every_rank_has_a_bucket(seen, rank);
    let b = rank_bucket(seen, rank);
    if b < BUCKETS - 1 {
        the_edge_bounds_the_bucket(seen, b);
    } else {
        the_longest_bounds_all(seen, longest(seen) as int);
    }
}

/// Quantiles come in order: a higher rank has no lower quantile.
pub proof fn quantiles_come_in_order(seen: Seq<u64>, lower: int, higher: int)
    requires
        1 <= lower <= higher <= seen.len(),
    ensures
        quantile(seen, lower) <= quantile(seen, higher),
{
    every_rank_has_a_bucket(seen, lower);
    every_rank_has_a_bucket(seen, higher);
    let a = rank_bucket(seen, lower);
    let b = rank_bucket(seen, higher);
    if b < a {
        later_is_more(seen, b + 1, a);
    }
    if b < BUCKETS - 1 {
        edges_ascend(a, b);
    } else if a < b {
        the_longest_reaches_the_last_bucket(seen);
        edges_ascend(a, BUCKETS - 2);
    }
}

/// One duration alone is reported within a quarter of an octave of itself: above
/// it, and by no more than a quarter. The two lowest octaves are not divided, and
/// the last bucket answers with the duration itself.
pub proof fn one_duration_is_reported_near_itself(us: u64)
    requires
        4 <= us,
    ensures
        us <= quantile(seq![us], 1),
        4 * quantile(seq![us], 1) <= 5 * us,
{
    let seen = seq![us];
    assert(seen.drop_last() =~= Seq::empty());
    assert(seen.last() == us);
    reveal_with_fuel(below, 2);
    reveal_with_fuel(longest, 2);
    every_rank_has_a_bucket(seen, 1);
    let b = rank_bucket(seen, 1);
    assert(bucket_of(us as int) == b);
    a_duration_is_between_edges(us as int);
    a_bucket_spans(us as int);
    let (oct, sub) = quarters(us as int);
    if b < BUCKETS - 1 {
        assert(b / 4 == oct && b % 4 == sub);
        let p = pow2((oct - 2) as nat) as int;
        lemma_pow2_pos((oct - 2) as nat);
        assert(4 * ((5 + sub) * p) <= 5 * ((4 + sub) * p)) by (nonlinear_arith)
            requires
                sub >= 0,
                p > 0,
        ;
    }
}

/// A longer duration is in no lower quarter.
proof fn quarters_ascend(a: int, b: int)
    requires
        0 <= a <= b,
    ensures
        4 * quarters(a).0 + quarters(a).1 <= 4 * quarters(b).0 + quarters(b).1,
    decreases b,
{
    if a >= 8 {
        quarters_ascend(a / 2, b / 2);
    } else if b >= 8 {
        a_bucket_spans(b / 2);
    }
}

/// A longer duration never falls in a lower bucket.
pub proof fn buckets_ascend(a: int, b: int)
    requires
        0 <= a <= b,
    ensures
        0 <= bucket_of(a) <= bucket_of(b) < BUCKETS,
{
    a_bucket_spans(a);
    a_bucket_spans(b);
    quarters_ascend(a, b);
}

/// The sum of some counts.
pub open spec fn sum_of(counts: Seq<u64>) -> int
    decreases counts.len(),
{
    if counts.len() == 0 {
        0
    } else {
        sum_of(counts.drop_last()) + counts.last()
    }
}

/// The first buckets together hold what is below the next.
proof fn buckets_add_up(h: Histogram, b: int)
    requires
        h.wf(),
        0 <= b <= BUCKETS,
    ensures
        sum_of(h.tally().0.take(b)) == below(h@, b),
    decreases b,
{
    let counts = h.tally().0;
    if b == 0 {
        nothing_is_below_the_first(h@);
    } else {
        buckets_add_up(h, b - 1);
        assert(counts.take(b).drop_last() =~= counts.take(b - 1));
        assert(h.buckets@[b - 1] == below(h@, b) - below(h@, b - 1));
    }
}

/// The longest is no shorter than any, and is one of them.
proof fn the_longest_is_one_of_them(seen: Seq<u64>)
    ensures
        forall|i: int| 0 <= i < seen.len() ==> #[trigger] seen[i] <= longest(seen),
        seen.len() > 0 ==> seen.contains(longest(seen)),
    decreases seen.len(),
{
    if seen.len() > 0 {
        let front = seen.drop_last();
        the_longest_is_one_of_them(front);
        assert forall|i: int| 0 <= i < seen.len() implies #[trigger] seen[i] <= longest(seen) by {
            if i < front.len() {
                assert(front[i] <= longest(front));
            }
        }
        if seen.last() > longest(front) || front.len() == 0 {
            assert(seen[seen.len() - 1] == longest(seen));
        } else {
            let i = choose|i: int| 0 <= i < front.len() && front[i] == longest(front);
            assert(seen[i] == longest(seen));
        }
    }
}

/// What a histogram keeps is of what was recorded: as many as were recorded, in the
/// buckets together and in all, each in the bucket of its duration, and the longest
/// of them, which is none where nothing was.
pub proof fn a_tally_is_of_what_was_recorded(h: Histogram)
    requires
        h.wf(),
    ensures
        ({
            let (buckets, count, max_us) = h.tally();
            &&& buckets.len() == BUCKETS
            &&& sum_of(buckets) == count == h@.len()
            &&& forall|b: int|
                0 <= b < BUCKETS ==> #[trigger] buckets[b] == below(h@, b + 1) - below(h@, b)
            &&& max_us == longest(h@)
            &&& forall|i: int| 0 <= i < h@.len() ==> #[trigger] h@[i] <= max_us
            &&& if h@.len() > 0 {
                h@.contains(max_us)
            } else {
                max_us == 0
            }
        }),
{
    buckets_add_up(h, BUCKETS as int);
    everything_is_below_the_end(h@);
    the_longest_is_one_of_them(h@);
    assert(h.tally().0.take(BUCKETS as int) =~= h.tally().0);
}

/// What one recorded duration adds to the figures, wherever it stands.
proof fn one_fewer(seen: Seq<u64>, i: int, b: int)
    requires
        0 <= i < seen.len(),
    ensures
        below(seen, b) == below(seen.remove(i), b) + if bucket_of(seen[i] as int) < b {
            1int
        } else {
            0
        },
        longest(seen) == if seen[i] > longest(seen.remove(i)) {
            seen[i]
        } else {
            longest(seen.remove(i))
        },
    decreases seen.len(),
{
    let front = seen.drop_last();
    let rest = seen.remove(i);
    if i == seen.len() - 1 {
        assert(rest =~= front);
    } else {
        one_fewer(front, i, b);
        assert(rest.drop_last() =~= front.remove(i));
        assert(rest.last() == seen.last());
        assert(front[i] == seen[i]);
    }
}

/// The same durations in another order have the same figures.
proof fn order_does_not_matter(seen: Seq<u64>, other: Seq<u64>, b: int)
    requires
        seen.to_multiset() == other.to_multiset(),
    ensures
        seen.len() == other.len(),
        below(seen, b) == below(other, b),
        longest(seen) == longest(other),
    decreases seen.len(),
{
    seen.to_multiset_ensures();
    other.to_multiset_ensures();
    if seen.len() > 0 {
        let last = seen.len() - 1;
        let us = seen[last];
        assert(seen.contains(us));
        assert(other.to_multiset().count(us) > 0);
        let i = choose|i: int| 0 <= i < other.len() && other[i] == us;
        assert(seen.remove(last).to_multiset() =~= seen.to_multiset().remove(us));
        assert(other.remove(i).to_multiset() =~= other.to_multiset().remove(us));
        order_does_not_matter(seen.remove(last), other.remove(i), b);
        one_fewer(seen, last, b);
        one_fewer(other, i, b);
    }
}

/// The order of recording does not matter: two histograms of the same durations
/// keep the same counts, bucket by bucket and in all, and the same longest, and so
/// give the same quantiles.
pub proof fn only_what_was_recorded_matters(a: Histogram, b: Histogram)
    requires
        a.wf(),
        b.wf(),
        a@.to_multiset() == b@.to_multiset(),
    ensures
        a.tally() == b.tally(),
        forall|rank: int| 1 <= rank ==> #[trigger] quantile(a@, rank) == quantile(b@, rank),
{
    assert forall|k: int| below(a@, k) == #[trigger] below(b@, k) by {
        order_does_not_matter(a@, b@, k);
    }
    order_does_not_matter(a@, b@, 0);
    assert(a.buckets@ =~= b.buckets@) by {
        assert forall|k: int| 0 <= k < BUCKETS implies a.buckets@[k] == b.buckets@[k] by {
            assert(a.buckets@[k] == below(a@, k + 1) - below(a@, k));
            assert(b.buckets@[k] == below(b@, k + 1) - below(b@, k));
        }
    }
    assert forall|rank: int| 1 <= rank implies #[trigger] quantile(a@, rank) == quantile(
        b@,
        rank,
    ) by {
        if rank <= a@.len() {
            every_rank_has_a_bucket(a@, rank);
            every_rank_has_a_bucket(b@, rank);
            let k = rank_bucket(b@, rank);
            assert(below(a@, k) == below(b@, k) && below(a@, k + 1) == below(b@, k + 1));
            assert(holds_rank(a@, rank, k));
            one_bucket_holds_a_rank(a@, rank, rank_bucket(a@, rank), k);
        }
    }
}

/// How many of the recorded durations are shorter than four fifths of another.
pub open spec fn well_short_of(seen: Seq<u64>, us: int) -> int
    decreases seen.len(),
{
    if seen.len() == 0 {
        0
    } else {
        well_short_of(seen.drop_last(), us) + if 5 * seen.last() < 4 * us {
            1int
        } else {
            0
        }
    }
}

/// What is shorter than four fifths of a bucket's upper edge is in a bucket below it.
proof fn well_short_is_below(seen: Seq<u64>, b: int)
    requires
        8 <= b < BUCKETS - 1,
    ensures
        well_short_of(seen, edge(b)) <= below(seen, b),
    decreases seen.len(),
{
    if seen.len() > 0 {
        let us = seen.last() as int;
        let c = bucket_of(us);
        well_short_is_below(seen.drop_last(), b);
        a_duration_is_between_edges(us);
        a_bucket_spans(us);
        if b <= c && c < BUCKETS - 1 {
            let (oct, sub) = quarters(us);
            assert(c / 4 == oct && c % 4 == sub);
            edges_ascend(b, c);
            let p = pow2((oct - 2) as nat) as int;
            lemma_pow2_pos((oct - 2) as nat);
            assert(4 * ((5 + sub) * p) <= 5 * ((4 + sub) * p)) by (nonlinear_arith)
                requires
                    sub >= 0,
                    p > 0,
            ;
        } else if b <= c {
            edges_ascend(b, BUCKETS - 2);
        }
    }
}

/// A quantile is near what it bounds. Unless an hour and more was recorded, fewer
/// than its rank are shorter than four fifths of it, so that the duration of that
/// rank is between four fifths of the quantile and the quantile; only durations
/// below four microseconds are rounded up further, to two or to four.
pub proof fn a_quantile_is_near_its_rank(seen: Seq<u64>, rank: int)
    requires
        1 <= rank <= seen.len(),
        longest(seen) < 3_758_096_384,
    ensures
        ({
            let q = quantile(seen, rank);
            q == 2 || q == 4 || (q > 4 && well_short_of(seen, q) < rank)
        }),
{
    every_rank_has_a_bucket(seen, rank);
    let b = rank_bucket(seen, rank);
    lemma2_to64();
    if b == BUCKETS - 1 {
        the_longest_reaches_the_last_bucket(seen);
        assert(edge(126) == 7 * pow2(29));
    } else if b < 8 {
        assert(b / 4 == 0 || b / 4 == 1);
    } else {
        well_short_is_below(seen, b);
        edges_ascend(8, b);
        assert(edge(8) == 5 * pow2(0));
    }
}

/// The longest is one of those recorded, and none is longer. It is what a rank past
/// all of them is answered with.
pub proof fn the_longest_was_recorded(seen: Seq<u64>, i: int, rank: int)
    requires
        0 <= i < seen.len(),
        rank > seen.len(),
    ensures
        seen[i] <= longest(seen),
        seen.contains(longest(seen)),
        quantile(seen, rank) == longest(seen),
    decreases seen.len(),
{
    let front = seen.drop_last();
    let n = seen.len() as int;
    assert(seen[n - 1] == seen.last());
    if i < n - 1 {
        the_longest_was_recorded(front, i, rank);
        assert(front[i] == seen[i]);
    }
    if longest(seen) != seen.last() {
        if front.len() > 0 {
            the_longest_was_recorded(front, 0, rank);
            let k = choose|k: int| 0 <= k < front.len() && front[k] == longest(front);
            assert(seen[k] == longest(seen));
        }
    } else {
        assert(seen[n - 1] == longest(seen));
    }
}

} // verus!
