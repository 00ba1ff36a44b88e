//! Latency samples: how they are collected and summed up.
use crate::le;
use crate::load;
use crate::load::extract_origin_ns;
use vstd::multiset::Multiset;
use vstd::prelude::*;

verus! {

/// Collects the latency of each message after the first few, which only warm things up.
pub struct Collector {
    /// Messages received so far.
    pub count: usize,
    /// Messages at the start that give no sample.
    pub warmup: usize,
    /// Messages after which the collection is complete, the warmup included.
    pub total: usize,
    pub samples: Vec<u64>,
}

/// The time from `origin` to `received`; 0 if the clock was set back in between.
pub open spec fn latency(received: u64, origin: u64) -> u64 {
    if received >= origin {
        (received - origin) as u64
    } else {
        0
    }
}

impl Collector {
    /// There is at most one sample for each message after the warmup.
    pub open spec fn wf(&self) -> bool {
        self.samples@.len() <= if self.count > self.warmup {
            self.count - self.warmup
        } else {
            0
        }
    }

    /// A collector that expects `total` messages, the first `warmup` of them unmeasured.
    pub fn new(total: usize, warmup: usize) -> (collector: Self)
        ensures
            collector.wf(),
            collector.count == 0,
            collector.warmup == warmup,
            collector.total == total,
            collector.samples@.len() == 0,
    {
        Collector { count: 0, warmup, total, samples: Vec::new() }
    }

    /// The sample that the next message gives, if any: none during the warmup, none for a
    /// payload that could not be had or that is too short to name its origin.
    pub open spec fn sample(&self, recv_ns: u64, payload: Option<Seq<u8>>) -> Option<u64> {
        if self.count + 1 <= self.warmup {
            None
        } else {
            match payload {
                None => None,
                Some(bytes) => match load::origin_of(bytes) {
                    None => None,
                    Some(origin) => Some(latency(recv_ns, origin)),
                },
            }
        }
    }

    /// Takes note of a message that came at `recv_ns`, with its payload unless that could
    /// not be had. Tells whether the collection is complete; a message past the warmup
    /// whose payload could not be had never completes it.
    pub fn record(&mut self, recv_ns: u64, payload: Option<&[u8]>) -> (finished: bool)
        requires
            old(self).count < usize::MAX,
        ensures
            old(self).wf() ==> final(self).wf(),
            final(self).count == old(self).count + 1,
            final(self).warmup == old(self).warmup,
            final(self).total == old(self).total,
            final(self).samples@ == match old(self).sample(
                recv_ns,
                match payload {
                    Some(bytes) => Some(bytes@),
                    None => None,
                },
            ) {
                Some(ns) => old(self).samples@.push(ns),
                None => old(self).samples@,
            },
            finished == (final(self).count >= final(self).total && !(final(self).count
                > final(self).warmup && payload is None)),
    {
        self.count = self.count + 1;
        if self.count > self.warmup {
            let bytes = match payload {
                Some(bytes) => bytes,
                None => return false,
            };
            if let Some(origin_ns) = extract_origin_ns(bytes) {
                self.samples.push(recv_ns.saturating_sub(origin_ns));
            }
        }
        self.count >= self.total
    }
}

/// The sum of the samples.
pub open spec fn sum(samples: Seq<u64>) -> nat
    decreases samples.len(),
{
    if samples.len() == 0 {
        0
    } else {
        sum(samples.drop_last()) + samples.last() as nat
    }
}

proof fn lemma_sum_of_part(samples: Seq<u64>, n: int)
    requires
        0 <= n <= samples.len(),
    ensures
        sum(samples.take(n)) <= sum(samples),
    decreases samples.len(),
{
    if n < samples.len() {
        lemma_sum_of_part(samples.drop_last(), n);
        assert(samples.drop_last().take(n) =~= samples.take(n));
    } else {
        assert(samples.take(n) =~= samples);
    }
}

/// The average, rounded down; 0 if there are no samples.
pub fn avg(samples: &[u64]) -> (mean: u64)
    requires
        sum(samples@) <= u64::MAX,
    ensures
        mean == if samples@.len() == 0 {
            0
        } else {
            sum(samples@) as int / samples@.len() as int
        },
{
    if samples.len() == 0 {
        return 0;
    }
    let mut total: u64 = 0;
    let mut i: usize = 0;
    while i < samples.len()
        invariant
            i <= samples@.len(),
            total == sum(samples@.take(i as int)),
            sum(samples@) <= u64::MAX,
        decreases samples@.len() - i,
    {
        assert(samples@.take(i + 1).drop_last() =~= samples@.take(i as int));
        proof {
            lemma_sum_of_part(samples@, i + 1);
        }
        total = total + samples[i];
        i = i + 1;
    }
    assert(samples@.take(i as int) =~= samples@);
    total / samples.len() as u64
}

/// `samples` stand in order, the least first.
pub open spec fn in_order(samples: Seq<u64>) -> bool {
    forall|i: int, j: int| 0 <= i < j < samples.len() ==> samples[i] <= samples[j]
}

/// `slice::sort_unstable` on numbers: puts them in ascending order. The same numbers are
/// there as before, each as often as before.
#[verifier::external_body]
fn sort_ascending(samples: &mut Vec<u64>)
    ensures
        final(samples)@.to_multiset() == old(samples)@.to_multiset(),
        in_order(final(samples)@),
{
    samples.sort_unstable();
}

/// The samples in order, the least first.
pub fn sorted(samples: Vec<u64>) -> (sorted: Vec<u64>)
    ensures
        sorted@.to_multiset() == samples@.to_multiset(),
        in_order(sorted@),
{
    let mut sorted = samples;
    sort_ascending(&mut sorted);
    sorted
}

/// The sample of a given rank, or the last one if there are not that many; 0 if there are
/// none.
pub fn at_rank(sorted: &[u64], rank: usize) -> (sample: u64)
    ensures
        sample == if sorted@.len() == 0 {
            0
        } else if rank < sorted@.len() {
            sorted@[rank as int]
        } else {
            sorted@.last()
        },
{
    if sorted.len() == 0 {
        return 0;
    }
    if rank < sorted.len() {
        sorted[rank]
    } else {
        sorted[sorted.len() - 1]
    }
}

/// How many samples are less than `v`.
pub open spec fn count_below(samples: Seq<u64>, v: u64) -> nat {
    samples.to_multiset().filter(|x: u64| x < v).len()
}

/// How many samples are at most `v`.
pub open spec fn count_up_to(samples: Seq<u64>, v: u64) -> nat {
    samples.to_multiset().filter(|x: u64| x <= v).len()
}

/// A part is no larger than the whole.
proof fn lemma_part_is_no_larger(part: Multiset<u64>, whole: Multiset<u64>)
    requires
        part.subset_of(whole),
    ensures
        part.len() <= whole.len(),
{
    broadcast use vstd::multiset::group_multiset_axioms;

    assert(whole =~= part.add(whole.sub(part)));
}

/// In the ordered samples the ranks mean what they say. The sample at a rank is one of the
/// samples that were given; no more than `rank` of these are less than it, and more than
/// `rank` of them are at most it. So the first is the least of all and the last the greatest.
pub proof fn law_ranks_of_sorted_samples(samples: Seq<u64>, sorted: Seq<u64>, rank: int)
    requires
        sorted.to_multiset() == samples.to_multiset(),
        in_order(sorted),
        0 <= rank < sorted.len(),
    ensures
        sorted.len() == samples.len(),
        samples.contains(sorted[rank]),
        count_below(samples, sorted[rank]) <= rank < count_up_to(samples, sorted[rank]),
        forall|i: int|
            0 <= i < samples.len() ==> sorted[0] <= #[trigger] samples[i] <= sorted.last(),
{
    broadcast use vstd::multiset::group_multiset_axioms;
    broadcast use vstd::seq_lib::group_to_multiset_ensures;

    let v = sorted[rank];
    assert(samples.to_multiset().len() == samples.len());
    assert(sorted.contains(v));
    assert(samples.to_multiset().count(v) > 0);
    assert forall|i: int| 0 <= i < samples.len() implies sorted[0] <= #[trigger] samples[i]
        <= sorted.last() by {
        assert(samples.contains(samples[i]));
        assert(sorted.to_multiset().count(samples[i]) > 0);
        assert(sorted.contains(samples[i]));
    }
    let all = samples.to_multiset();
    // What is less than the sample at the rank stands before it.
    let front = sorted.take(rank);
    let back = sorted.skip(rank);
    assert(sorted =~= front + back);
    vstd::seq_lib::lemma_multiset_commutative(front, back);
    let below = all.filter(|x: u64| x < v);
    assert forall|x: u64| #[trigger] below.count(x) <= front.to_multiset().count(x) by {
        if x < v && back.to_multiset().count(x) > 0 {
            assert(back.contains(x));
            let k = choose|k: int| 0 <= k < back.len() && back[k] == x;
            assert(back[k] == sorted[rank + k]);
        }
    }
    lemma_part_is_no_larger(below, front.to_multiset());
    assert(front.to_multiset().len() == rank);
    // What stands up to the rank is at most the sample there.
    let head = sorted.take(rank + 1);
    let tail = sorted.skip(rank + 1);
    assert(sorted =~= head + tail);
    vstd::seq_lib::lemma_multiset_commutative(head, tail);
    let up_to = all.filter(|x: u64| x <= v);
    assert forall|x: u64| #[trigger] head.to_multiset().count(x) <= up_to.count(x) by {
        if head.to_multiset().count(x) > 0 {
            assert(head.contains(x));
            let k = choose|k: int| 0 <= k < head.len() && head[k] == x;
            assert(head[k] == sorted[k]);
        }
    }
    lemma_part_is_no_larger(head.to_multiset(), up_to);
    assert(head.to_multiset().len() == rank + 1);
}

/// The unit in which a time is shown.
#[derive(Debug, Clone, Copy, PartialEq, Eq, Structural)]
pub enum Unit {
    Nanos,
    Micros,
    Millis,
}

/// The unit for a time: microseconds from one of them on, milliseconds from one of them on.
pub fn unit_for(ns: u64) -> (unit: Unit)
    ensures
        unit == (if ns < 1_000 {
            Unit::Nanos
        } else if ns < 1_000_000 {
            Unit::Micros
        } else {
            Unit::Millis
        }),
{
    if ns < 1_000 {
        Unit::Nanos
    } else if ns < 1_000_000 {
        Unit::Micros
    } else {
        Unit::Millis
    }
}

/// `edges` go up.
pub open spec fn ascending(edges: Seq<u64>) -> bool {
    forall|i: int, j: int| 0 <= i < j < edges.len() ==> edges[i] < edges[j]
}

/// A sample falls into bucket `i`: it is at least the edge before the bucket and below the
/// edge after it, as far as there are such edges.
pub open spec fn in_bucket(edges: Seq<u64>, i: int, v: u64) -> bool {
    &&& i > 0 ==> edges[i - 1] <= v
    &&& i < edges.len() ==> v < edges[i]
}

/// How many samples fall into bucket `i`.
pub open spec fn bucket_count(samples: Seq<u64>, edges: Seq<u64>, i: int) -> nat
    decreases samples.len(),
{
    if samples.len() == 0 {
        0
    } else {
        bucket_count(samples.drop_last(), edges, i) + if in_bucket(edges, i, samples.last()) {
            1nat
        } else {
            0nat
        }
    }
}

/// The bucket of a sample: the number of edges that it has reached.
fn bucket_of(edges: &[u64], v: u64) -> (i: usize)
    requires
        ascending(edges@),
    ensures
        i <= edges@.len(),
        in_bucket(edges@, i as int, v),
        forall|k: int| 0 <= k <= edges@.len() && k != i ==> !#[trigger] in_bucket(edges@, k, v),
{
    let mut i: usize = 0;
    while i < edges.len() && v >= edges[i]
        invariant
            i <= edges@.len(),
            i > 0 ==> edges@[i - 1] <= v,
            ascending(edges@),
        decreases edges@.len() - i,
    {
        i = i + 1;
    }
    i
}

/// How many samples fall into each bucket between the edges. There is one bucket more than
/// there are edges: below the first, between two, and from the last on.
pub fn histogram(samples: &[u64], edges: &[u64]) -> (counts: Vec<usize>)
    requires
        ascending(edges@),
        edges@.len() < usize::MAX,
    ensures
        counts@.len() == edges@.len() + 1,
        forall|i: int|
            0 <= i <= edges@.len() ==> #[trigger] counts@[i] == bucket_count(
                samples@,
                edges@,
                i,
            ),
{
    let buckets = edges.len() + 1;
    let mut counts: Vec<usize> = Vec::new();
    let mut k: usize = 0;
    while k < buckets
        invariant
            k <= buckets,
            counts@.len() == k,
            forall|i: int| 0 <= i < k ==> #[trigger] counts@[i] == 0,
        decreases buckets - k,
    {
        counts.push(0);
        k = k + 1;
    }
    let mut n: usize = 0;
    while n < samples.len()
        invariant
            n <= samples@.len(),
            samples@.len() == samples.len(),
            ascending(edges@),
            counts@.len() == edges@.len() + 1,
            forall|i: int|
                0 <= i <= edges@.len() ==> #[trigger] counts@[i] == bucket_count(
                    samples@.take(n as int),
                    edges@,
                    i,
                ) && counts@[i] <= n,
        decreases samples@.len() - n,
    {
        let v = samples[n];
        let i = bucket_of(edges, v);
        assert(samples@.take(n + 1).drop_last() =~= samples@.take(n as int));
        assert(counts@[i as int] <= n);
        counts[i] = counts[i] + 1;
        n = n + 1;
    }
    assert(samples@.take(n as int) =~= samples@);
    counts
}

/// The sum of counts.
pub open spec fn total_count(samples: Seq<u64>, edges: Seq<u64>, buckets: int) -> nat
    decreases buckets,
{
    if buckets <= 0 {
        0
    } else {
        total_count(samples, edges, buckets - 1) + bucket_count(samples, edges, buckets - 1)
    }
}

/// A single sample falls into one of the first `buckets` buckets or into none of them.
proof fn lemma_one_more(samples: Seq<u64>, edges: Seq<u64>, buckets: int, home: int)
    requires
        samples.len() > 0,
        0 <= home,
        0 <= buckets,
        forall|k: int|
            0 <= k < buckets ==> (#[trigger] in_bucket(edges, k, samples.last()) <==> k == home),
    ensures
        total_count(samples, edges, buckets) == total_count(samples.drop_last(), edges, buckets)
            + if home < buckets {
            1nat
        } else {
            0nat
        },
    decreases buckets,
{
    if buckets > 0 {
        lemma_one_more(samples, edges, buckets - 1, home);
        assert(in_bucket(edges, buckets - 1, samples.last()) <==> buckets - 1 == home);
    }
}

/// The bucket of a sample exists.
proof fn lemma_some_bucket(edges: Seq<u64>, v: u64, n: int) -> (home: int)
    requires
        ascending(edges),
        0 <= n <= edges.len(),
        n < edges.len() ==> v < edges[n],
    ensures
        0 <= home <= edges.len(),
        forall|k: int|
            0 <= k <= edges.len() ==> (#[trigger] in_bucket(edges, k, v) <==> k == home),
    decreases n,
{
    if n == 0 || edges[n - 1] <= v {
        n
    } else {
        lemma_some_bucket(edges, v, n - 1)
    }
}

/// Every sample is counted once: the counts of a histogram add up to the number of samples.
pub proof fn law_every_sample_is_counted(samples: Seq<u64>, edges: Seq<u64>)
    requires
        ascending(edges),
    ensures
        total_count(samples, edges, edges.len() as int + 1) == samples.len(),
    decreases samples.len(),
{
    if samples.len() == 0 {
        lemma_nothing_to_count(samples, edges, edges.len() as int + 1);
    } else {
        law_every_sample_is_counted(samples.drop_last(), edges);
        let home = lemma_some_bucket(edges, samples.last(), edges.len() as int);
        lemma_one_more(samples, edges, edges.len() as int + 1, home);
    }
}

proof fn lemma_nothing_to_count(samples: Seq<u64>, edges: Seq<u64>, buckets: int)
    requires
        samples.len() == 0,
    ensures
        total_count(samples, edges, buckets) == 0,
    decreases buckets,
{
    if buckets > 0 {
        lemma_nothing_to_count(samples, edges, buckets - 1);
    }
}

/// The edges of a report on round numbers, in nanoseconds, from 1 us to 1 ms. The last edge
/// is no bound for any real sample.
pub fn report_edges() -> (edges: Vec<u64>)
    ensures
        edges@ == seq![
            1_000u64,
            2_000,
            5_000,
            10_000,
            20_000,
            50_000,
            100_000,
            200_000,
            500_000,
            1_000_000,
            u64::MAX,
        ],
        ascending(edges@),
{
    let edges: Vec<u64> = vec![
        1_000,
        2_000,
        5_000,
        10_000,
        20_000,
        50_000,
        100_000,
        200_000,
        500_000,
        1_000_000,
        u64::MAX,
    ];
    edges
}

/// The edges of a distribution whose buckets double, in nanoseconds, from 250 ns to 2 ms.
pub fn doubling_edges() -> (edges: Vec<u64>)
    ensures
        edges@ == seq![
            250u64,
            500,
            1_000,
            2_000,
            4_000,
            8_000,
            16_000,
            32_000,
            64_000,
            128_000,
            256_000,
            512_000,
            1_000_000,
            2_000_000,
        ],
        ascending(edges@),
{
    let edges: Vec<u64> = vec![
        250,
        500,
        1_000,
        2_000,
        4_000,
        8_000,
        16_000,
        32_000,
        64_000,
        128_000,
        256_000,
        512_000,
        1_000_000,
        2_000_000,
    ];
    edges
}

/// No count is over `top`.
pub open spec fn none_over(counts: Seq<usize>, top: usize) -> bool {
    forall|i: int| 0 <= i < counts.len() ==> #[trigger] counts[i] <= top
}

/// The largest count, but at least 1.
pub fn peak(counts: &[usize]) -> (top: usize)
    ensures
        top >= 1,
        forall|i: int| 0 <= i < counts@.len() ==> #[trigger] counts@[i] <= top,
        none_over(counts@, top),
        top == 1 || exists|i: int| 0 <= i < counts@.len() && #[trigger] counts@[i] == top,
{
    let mut top: usize = 1;
    let mut i: usize = 0;
    while i < counts.len()
        invariant
            i <= counts@.len(),
            top >= 1,
            forall|j: int| 0 <= j < i ==> #[trigger] counts@[j] <= top,
            top == 1 || exists|j: int| 0 <= j < i && #[trigger] counts@[j] == top,
        decreases counts@.len() - i,
    {
        if counts[i] > top {
            top = counts[i];
        }
        i = i + 1;
    }
    top
}

/// Cells of the longest bar in a distribution.
pub const BAR_WIDTH: usize = 40;

/// The length of the bar for a count, when the longest bar stands for `peak`.
pub fn bar_len(count: usize, peak: usize) -> (cells: usize)
    requires
        peak > 0,
        count * BAR_WIDTH <= usize::MAX,
    ensures
        cells == count * BAR_WIDTH / peak as int,
{
    count * BAR_WIDTH / peak
}

/// A latency is the time that passed: added to the origin it gives the time of receipt. If
/// the clock was set back in between it is 0.
pub proof fn law_latency_is_the_time_passed(received: u64, origin: u64)
    ensures
        received >= origin ==> origin + latency(received, origin) == received,
        received < origin ==> latency(received, origin) == 0,
{
}

/// A new collector has seen nothing and expects what it was told.
pub proof fn law_collector_starts_empty(total: usize, warmup: usize, collector: Collector)
    requires
        call_ensures(Collector::new, (total, warmup), collector),
    ensures
        collector.count == 0,
        collector.total == total,
        collector.warmup == warmup,
        collector.samples@ == Seq::<u64>::empty(),
{
    assert(collector.samples@ =~= Seq::<u64>::empty());
}

/// Recording a message keeps the samples that are there and adds one exactly if the warmup
/// is over and the payload is there with an origin in its first eight bytes. The new sample,
/// added to that origin, gives the time of receipt, unless the origin lies after it: then it
/// is 0. Every message counts, and with the last of them the collection is complete, unless
/// that one should have given a sample and its payload is missing.
pub proof fn law_samples_are_travel_times(
    collector: &mut Collector,
    recv_ns: u64,
    payload: Option<&[u8]>,
    finished: bool,
)
    requires
        call_ensures(Collector::record, (collector, recv_ns, payload), finished),
    ensures
        final(collector).count == old(collector).count + 1,
        final(collector).total == old(collector).total,
        final(collector).warmup == old(collector).warmup,
        finished <==> old(collector).count + 1 >= old(collector).total && (old(collector).count
            < old(collector).warmup || payload is Some),
        ({
            let measured = old(collector).count >= old(collector).warmup && payload is Some
                && payload->0@.len() >= 8;
            let origin = le::le_value(payload->0@.subrange(0, 8));
            let sample = final(collector).samples@.last();
            &&& !measured ==> final(collector).samples@ == old(collector).samples@
            &&& measured ==> {
                &&& final(collector).samples@ == old(collector).samples@.push(sample)
                &&& origin <= recv_ns ==> origin + sample == recv_ns
                &&& origin > recv_ns ==> sample == 0
            }
        }),
{
    if payload is Some && payload->0@.len() >= 8 {
        let bytes = payload->0@;
        assert(bytes.take(8) =~= bytes.subrange(0, 8));
        le::lemma_capacities();
        le::law_le_bytes_of_value(bytes.take(8));
        law_latency_is_the_time_passed(recv_ns, le::le_value(bytes.take(8)) as u64);
    }
}

/// The sum of one sample is that sample, the sum of two series the sum of their sums, and
/// the sum of none is 0.
pub proof fn law_sum_adds_up(a: Seq<u64>, b: Seq<u64>, v: u64)
    ensures
        sum(Seq::<u64>::empty()) == 0,
        sum(seq![v]) == v,
        sum(a + b) == sum(a) + sum(b),
    decreases b.len(),
{
    reveal_with_fuel(sum, 2);
    assert(seq![v].drop_last() =~= Seq::<u64>::empty());
    if b.len() == 0 {
        assert(a + b =~= a);
    } else {
        law_sum_adds_up(a, b.drop_last(), v);
        assert((a + b).drop_last() =~= a + b.drop_last());
    }
}

/// The average is the largest number that, taken once for every sample, does not exceed the
/// sum of the samples. It lies between any two bounds of the samples.
pub proof fn law_average_shares_the_sum(samples: &[u64], mean: u64, low: u64, high: u64)
    requires
        call_ensures(avg, (samples,), mean),
    ensures
        samples@.len() == 0 ==> mean == 0,
        samples@.len() > 0 ==> mean * samples@.len() <= sum(samples@) < (mean + 1)
            * samples@.len(),
        samples@.len() > 0 && (forall|i: int|
            0 <= i < samples@.len() ==> low <= #[trigger] samples@[i] <= high) ==> low <= mean
            <= high,
{
    if samples@.len() > 0 {
        let n = samples@.len() as int;
        let t = sum(samples@) as int;
        let m = mean as int;
        assert(m * n <= t < (m + 1) * n) by (nonlinear_arith)
            requires
                n > 0,
                m == t / n,
        ;
        if forall|i: int| 0 <= i < samples@.len() ==> low <= #[trigger] samples@[i] <= high {
            lemma_sum_within_bounds(samples@, low, high);
            assert(low <= m <= high) by (nonlinear_arith)
                requires
                    n > 0,
                    low * n <= t <= high * n,
                    m * n <= t < (m + 1) * n,
            ;
        }
    }
}

/// Bounds of the samples bound their sum.
proof fn lemma_sum_within_bounds(samples: Seq<u64>, low: u64, high: u64)
    requires
        forall|i: int| 0 <= i < samples.len() ==> low <= #[trigger] samples[i] <= high,
    ensures
        low * samples.len() <= sum(samples) <= high * samples.len(),
    decreases samples.len(),
{
    if samples.len() > 0 {
        let front = samples.drop_last();
        assert forall|i: int| 0 <= i < front.len() implies low <= #[trigger] front[i] <= high by {
            assert(front[i] == samples[i]);
        }
        lemma_sum_within_bounds(front, low, high);
        assert(low <= samples[samples.len() - 1] <= high);
        let n = front.len() as int;
        assert(low * (n + 1) == low * n + low) by (nonlinear_arith);
        assert(high * (n + 1) == high * n + high) by (nonlinear_arith);
    } else {
        assert(low * 0 == 0 && high * 0 == 0);
    }
}

/// What is reported for a rank of the samples is right whatever order they came in: it is one
/// of them, no more than `rank` of them are less, and more than `rank` of them are at most
/// it. A rank past the end gives the greatest sample, and without samples the answer is 0.
pub proof fn law_reported_rank_is_right(
    samples: Vec<u64>,
    ordered: Vec<u64>,
    slice: &[u64],
    rank: usize,
    v: u64,
)
    requires
        call_ensures(sorted, (samples,), ordered),
        slice@ == ordered@,
        call_ensures(at_rank, (slice, rank), v),
    ensures
        ordered@.len() == samples@.len(),
        forall|i: int, j: int| 0 <= i < j < ordered@.len() ==> ordered@[i] <= ordered@[j],
        samples@.len() == 0 ==> v == 0,
        samples@.len() > 0 ==> samples@.contains(v),
        rank < samples@.len() ==> {
            &&& samples@.to_multiset().filter(|x: u64| x < v).len() <= rank
            &&& samples@.to_multiset().filter(|x: u64| x <= v).len() > rank
        },
        rank >= samples@.len() ==> forall|i: int|
            0 <= i < samples@.len() ==> #[trigger] samples@[i] <= v,
{
    broadcast use vstd::seq_lib::group_to_multiset_ensures;

    assert(ordered@.to_multiset().len() == ordered@.len());
    assert(samples@.to_multiset().len() == samples@.len());
    if samples@.len() > 0 {
        let at = if rank < ordered@.len() {
            rank as int
        } else {
            ordered@.len() - 1
        };
        law_ranks_of_sorted_samples(samples@, ordered@, at);
        assert(v == ordered@[at]);
    }
}

/// A time below a microsecond is shown in nanoseconds, one below a millisecond in
/// microseconds, any other in milliseconds.
pub proof fn law_unit_fits_the_time(ns: u64, unit: Unit)
    requires
        call_ensures(unit_for, (ns,), unit),
    ensures
        unit is Nanos <==> ns < 1_000,
        unit is Micros <==> 1_000 <= ns < 1_000_000,
        unit is Millis <==> 1_000_000 <= ns,
{
}

/// A count of samples in a bucket is the number of samples that meet the bucket's bounds.
proof fn lemma_bucket_count_is_a_filter(
    samples: Seq<u64>,
    edges: Seq<u64>,
    i: int,
    inside: spec_fn(u64) -> bool,
)
    requires
        forall|v: u64| #[trigger] inside(v) <==> in_bucket(edges, i, v),
    ensures
        bucket_count(samples, edges, i) == samples.filter(inside).len(),
    decreases samples.len(),
{
    reveal(Seq::filter);
    if samples.len() > 0 {
        lemma_bucket_count_is_a_filter(samples.drop_last(), edges, i, inside);
    }
}

/// The count for a bucket is the number of samples from the edge before it on and below the
/// edge after it. The first bucket has no edge before it and the last none after it.
pub proof fn law_histogram_counts_between_edges(
    samples: &[u64],
    edges: &[u64],
    counts: Vec<usize>,
    i: int,
)
    requires
        call_ensures(histogram, (samples, edges), counts),
        0 <= i <= edges@.len(),
    ensures
        counts@.len() == edges@.len() + 1,
        counts@[i] == samples@.filter(
            |v: u64| (i > 0 ==> edges@[i - 1] <= v) && (i < edges@.len() ==> v < edges@[i]),
        ).len(),
{
    let inside = |v: u64|
        (i > 0 ==> edges@[i - 1] <= v) && (i < edges@.len() ==> v < edges@[i]);
    assert forall|v: u64| #[trigger] inside(v) <==> in_bucket(edges@, i, v) by {}
    lemma_bucket_count_is_a_filter(samples@, edges@, i, inside);
}

/// The edges of a report run through 1, 2 and 5 of each decade of microseconds, up to one
/// millisecond; those of a distribution double. Both go up throughout.
pub proof fn law_edges_are_round(report: Vec<u64>, doubling: Vec<u64>)
    requires
        call_ensures(report_edges, (), report),
        call_ensures(doubling_edges, (), doubling),
    ensures
        report@.len() == 11,
        report@[0] == 1_000,
        report@[9] == 1_000_000,
        report@[10] == u64::MAX,
        forall|k: int|
            0 <= k < 3 ==> {
                &&& #[trigger] report@[3 * k + 1] == 2 * report@[3 * k]
                &&& report@[3 * k + 2] == 5 * report@[3 * k]
                &&& report@[3 * k + 3] == 10 * report@[3 * k]
            },
        doubling@.len() == 14,
        doubling@[0] == 250,
        doubling@[12] == 1_000_000,
        forall|k: int|
            0 <= k < 13 && k != 11 ==> #[trigger] doubling@[k + 1] == 2 * doubling@[k],
        forall|i: int, j: int| 0 <= i < j < report@.len() ==> report@[i] < report@[j],
        forall|i: int, j: int| 0 <= i < j < doubling@.len() ==> doubling@[i] < doubling@[j],
{
}

/// The peak is the least number that is at least 1 and at least every count.
pub proof fn law_peak_is_the_largest(counts: &[usize], top: usize, bound: usize)
    requires
        call_ensures(peak, (counts,), top),
    ensures
        top >= 1,
        forall|i: int| 0 <= i < counts@.len() ==> #[trigger] counts@[i] <= top,
        bound >= 1 && (forall|i: int| 0 <= i < counts@.len() ==> #[trigger] counts@[i] <= bound)
            ==> top <= bound,
{
    assert(none_over(counts@, top));
}

/// Bars are in proportion: a bar of `cells` out of 40 stands for no more than its share of
/// the peak, and with a cell more it would. The peak itself fills all 40.
pub proof fn law_bars_are_in_proportion(count: usize, top: usize, cells: usize)
    requires
        top > 0,
        call_ensures(bar_len, (count, top), cells),
    ensures
        cells * top <= count * 40 < (cells + 1) * top,
        count == top ==> cells == 40,
        count <= top ==> cells <= 40,
{
    let c = count * 40;
    let t = top as int;
    let q = c / t;
    assert(q * t <= c < (q + 1) * t) by (nonlinear_arith)
        requires
            t > 0,
            q == c / t,
    ;
    if count <= top {
        assert(q <= 40) by (nonlinear_arith)
            requires
                t > 0,
                q * t <= c,
                c <= t * 40,
        ;
    }
    if count == top {
        assert(q >= 40) by (nonlinear_arith)
            requires
                t > 0,
                c < (q + 1) * t,
                c == t * 40,
        ;
    }
}

} // verus!
