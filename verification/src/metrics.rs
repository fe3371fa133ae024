//! Metrics in Prometheus' text format: counters and fixed-bucket histograms.
//!
//! Counters are 64 bits wide and wrap.

use vstd::prelude::*;
use vstd::string::*;

use crate::text::{self, decimal, pad_zeros, replace, same};

verus! {

/// How many latency buckets there are, besides the last, which holds whatever is slower.
pub const BUCKETS: usize = 14;

/// The longest time that falls into a bucket, in nanoseconds: from a fast single question to a
/// long multi-question request.
pub open spec fn bound(i: int) -> int {
    if i == 0 {
        5_000_000
    } else if i == 1 {
        10_000_000
    } else if i == 2 {
        25_000_000
    } else if i == 3 {
        50_000_000
    } else if i == 4 {
        100_000_000
    } else if i == 5 {
        250_000_000
    } else if i == 6 {
        500_000_000
    } else if i == 7 {
        1_000_000_000
    } else if i == 8 {
        2_500_000_000
    } else if i == 9 {
        5_000_000_000
    } else if i == 10 {
        10_000_000_000
    } else if i == 11 {
        30_000_000_000
    } else if i == 12 {
        60_000_000_000
    } else {
        120_000_000_000
    }
}

/// A bucket's bound in seconds, as text.
pub open spec fn bound_text(i: int) -> Seq<char> {
    if i == 0 {
        "0.005"@
    } else if i == 1 {
        "0.01"@
    } else if i == 2 {
        "0.025"@
    } else if i == 3 {
        "0.05"@
    } else if i == 4 {
        "0.1"@
    } else if i == 5 {
        "0.25"@
    } else if i == 6 {
        "0.5"@
    } else if i == 7 {
        "1"@
    } else if i == 8 {
        "2.5"@
    } else if i == 9 {
        "5"@
    } else if i == 10 {
        "10"@
    } else if i == 11 {
        "30"@
    } else if i == 12 {
        "60"@
    } else if i == 13 {
        "120"@
    } else {
        "+Inf"@
    }
}

fn bucket_bound(i: usize) -> (r: u128)
    ensures
        r == bound(i as int),
{
    match i {
        0 => 5_000_000,
        1 => 10_000_000,
        2 => 25_000_000,
        3 => 50_000_000,
        4 => 100_000_000,
        5 => 250_000_000,
        6 => 500_000_000,
        7 => 1_000_000_000,
        8 => 2_500_000_000,
        9 => 5_000_000_000,
        10 => 10_000_000_000,
        11 => 30_000_000_000,
        12 => 60_000_000_000,
        _ => 120_000_000_000,
    }
}

fn bucket_text(i: usize) -> (r: &'static str)
    ensures
        r@ == bound_text(i as int),
{
    match i {
        0 => "0.005",
        1 => "0.01",
        2 => "0.025",
        3 => "0.05",
        4 => "0.1",
        5 => "0.25",
        6 => "0.5",
        7 => "1",
        8 => "2.5",
        9 => "5",
        10 => "10",
        11 => "30",
        12 => "60",
        13 => "120",
        _ => "+Inf",
    }
}

/// The first bucket, from `i` on, that a time falls into.
pub open spec fn bucket_from(nanos: int, i: int) -> int
    decreases BUCKETS - i,
{
    if i >= BUCKETS || nanos <= bound(i) {
        i
    } else {
        bucket_from(nanos, i + 1)
    }
}

/// `n` as a 64-bit counter holds it.
pub open spec fn wrapped(n: int) -> int {
    n % 0x1_0000_0000_0000_0000
}

/// A histogram of times over the latency buckets.
pub struct Histogram {
    /// Times per bucket (not cumulative); the last slot is for what is slower.
    pub counts: [u64; 15],
    /// All times together, in microseconds.
    pub sum_us: u64,
}

/// The first `n` of several counters together.
pub open spec fn total(counts: Seq<u64>, n: nat) -> int
    decreases n,
{
    if n == 0 {
        0
    } else {
        total(counts, (n - 1) as nat) + counts[n - 1]
    }
}

/// A bucket's line.
pub open spec fn bucket_line(
    counts: Seq<u64>,
    name: Seq<char>,
    labels: Seq<char>,
    i: int,
) -> Seq<char> {
    let sep = if labels.len() == 0 {
        ""@
    } else {
        ","@
    };
    name + "_bucket{"@ + labels + sep + "le=\""@ + bound_text(i) + "\"} "@ + text::dec(
        wrapped(total(counts, (i + 1) as nat)) as nat,
    ) + "\n"@
}

/// The lines of the first `n` buckets.
pub open spec fn bucket_lines(
    counts: Seq<u64>,
    name: Seq<char>,
    labels: Seq<char>,
    n: nat,
) -> Seq<char>
    decreases n,
{
    if n == 0 {
        Seq::empty()
    } else {
        bucket_lines(counts, name, labels, (n - 1) as nat) + bucket_line(
            counts,
            name,
            labels,
            n - 1,
        )
    }
}

/// The digits of a fraction without the zeros at its end.
pub open spec fn significant(s: Seq<char>) -> Seq<char>
    decreases s.len(),
{
    if s.len() > 0 && s.last() == '0' {
        significant(s.drop_last())
    } else {
        s
    }
}

/// Microseconds as seconds in decimal, with as many digits as it takes.
pub open spec fn seconds_text(us: nat) -> Seq<char> {
    let whole = text::dec(us / 1_000_000);
    let fraction = significant(text::zero_padded(text::dec(us % 1_000_000), 6));
    if us % 1_000_000 == 0 {
        whole
    } else {
        whole + "."@ + fraction
    }
}

/// Labels in braces, or nothing without labels.
pub open spec fn in_braces(labels: Seq<char>) -> Seq<char> {
    if labels.len() == 0 {
        Seq::empty()
    } else {
        "{"@ + labels + "}"@
    }
}

/// A histogram as text.
pub open spec fn histogram_text(
    counts: Seq<u64>,
    sum_us: u64,
    name: Seq<char>,
    labels: Seq<char>,
) -> Seq<char> {
    bucket_lines(counts, name, labels, 15) + total_lines(
        wrapped(total(counts, 15)) as nat,
        sum_us as nat,
        name,
        labels,
    )
}

/// The lines of a histogram's sum and count.
pub open spec fn total_lines(
    count: nat,
    sum_us: nat,
    name: Seq<char>,
    labels: Seq<char>,
) -> Seq<char> {
    name + "_sum"@ + in_braces(labels) + " "@ + seconds_text(sum_us) + "\n"@ + name + "_count"@
        + in_braces(labels) + " "@ + text::dec(count) + "\n"@
}

fn write_totals(count: u64, sum_us: u64, name: &str, labels: &str) -> (r: String)
    ensures
        r@ == total_lines(count as nat, sum_us as nat, name@, labels@),
{
    let mut braces = String::new();
    if labels.unicode_len() > 0 {
        braces.append("{");
        braces.append(labels);
        braces.append("}");
    }
    proof {
        assert(braces@ =~= in_braces(labels@));
    }
    let mut r = name.to_owned();
    r.append("_sum");
    r.append(braces.as_str());
    r.append(" ");
    r.append(seconds(sum_us).as_str());
    r.append("\n");
    r.append(name);
    r.append("_count");
    r.append(braces.as_str());
    r.append(" ");
    r.append(decimal(count).as_str());
    r.append("\n");
    r
}

fn seconds(us: u64) -> (r: String)
    ensures
        r@ == seconds_text(us as nat),
{
    let mut r = decimal(us / 1_000_000);
    let rest: u64 = us % 1_000_000;
    if rest == 0 {
        return r;
    }
    let digits = pad_zeros(decimal(rest).as_str(), 6);
    let v = text::chars_of(digits.as_str());
    let mut n: usize = v.len();
    proof {
        assert(v@.take(n as int) =~= v@);
    }
    while n > 0 && v[n - 1] == '0'
        invariant
            n <= v@.len(),
            significant(v@.take(n as int)) == significant(v@),
        decreases n,
    {
        proof {
            assert(v@.take(n as int).drop_last() =~= v@.take(n - 1));
        }
        n -= 1;
    }
    let fraction = text::text_of(&v, 0, n);
    proof {
        assert(fraction@ =~= v@.take(n as int));
    }
    r.append(".");
    r.append(fraction.as_str());
    r
}

impl Histogram {
    /// A histogram without times.
    pub fn new() -> (r: Histogram)
        ensures
            r.sum_us == 0,
            forall|i: int| 0 <= i < 15 ==> #[trigger] r.counts@[i] == 0,
    {
        Histogram { counts: [0u64; 15], sum_us: 0 }
    }

    /// Counts a time.
    pub fn observe(&mut self, nanos: u128)
        ensures
            final(self).counts@ == old(self).counts@.update(
                bucket_from(nanos as int, 0),
                wrapped(old(self).counts@[bucket_from(nanos as int, 0)] + 1) as u64,
            ),
            final(self).sum_us == wrapped(old(self).sum_us + nanos as int / 1000),
            0 <= bucket_from(nanos as int, 0) < 15,
    {
        let mut i: usize = 0;
        while i < BUCKETS && nanos > bucket_bound(i)
            invariant
                i <= BUCKETS,
                bucket_from(nanos as int, i as int) == bucket_from(nanos as int, 0),
            decreases BUCKETS - i,
        {
            i += 1;
        }
        let ghost before = self.counts@;
        let n: u64 = self.counts[i].wrapping_add(1);
        self.counts[i] = n;
        let us: u64 = (nanos / 1000 % 0x1_0000_0000_0000_0000) as u64;
        self.sum_us = self.sum_us.wrapping_add(us);
        proof {
            assert(self.counts@ =~= before.update(i as int, n));
        }
    }

    /// How many times were counted.
    pub fn count(&self) -> (n: u64)
        ensures
            n == wrapped(total(self.counts@, 15)),
    {
        let mut n: u64 = 0;
        let mut i: usize = 0;
        while i < 15
            invariant
                i <= 15,
                n == wrapped(total(self.counts@, i as nat)),
            decreases 15 - i,
        {
            n = n.wrapping_add(self.counts[i]);
            i += 1;
        }
        n
    }

    /// Appends the bucket, sum and count lines with the given labels (empty, or
    /// `key="value",...` without braces).
    pub fn render(&self, out: &mut String, name: &str, labels: &str)
        ensures
            final(out)@ == old(out)@ + histogram_text(
                self.counts@,
                self.sum_us,
                name@,
                labels@,
            ),
    {
        let ghost before = out@;
        let ghost counts = self.counts@;
        let bare = labels.unicode_len() == 0;
        let sep = if bare {
            ""
        } else {
            ","
        };
        let mut cum: u64 = 0;
        let mut i: usize = 0;
        proof {
            assert(out@ =~= before + bucket_lines(counts, name@, labels@, 0));
        }
        while i < 15
            invariant
                i <= 15,
                counts == self.counts@,
                bare == (labels@.len() == 0),
                sep@ == (if labels@.len() == 0 {
                    ""@
                } else {
                    ","@
                }),
                cum == wrapped(total(counts, i as nat)),
                out@ == before + bucket_lines(counts, name@, labels@, i as nat),
            decreases 15 - i,
        {
            cum = cum.wrapping_add(self.counts[i]);
            let mut line = name.to_owned();
            line.append("_bucket{");
            line.append(labels);
            line.append(sep);
            line.append("le=\"");
            line.append(bucket_text(i));
            line.append("\"} ");
            line.append(decimal(cum).as_str());
            line.append("\n");
            proof {
                assert(line@ == bucket_line(counts, name@, labels@, i as int));
            }
            out.append(line.as_str());
            i += 1;
            proof {
                assert(out@ =~= before + bucket_lines(counts, name@, labels@, i as nat));
            }
        }
        let tail = write_totals(cum, self.sum_us, name, labels);
        out.append(tail.as_str());
        proof {
            assert(out@ =~= before + histogram_text(counts, self.sum_us, name@, labels@));
        }
    }
}

/// A bucket's line counts every time of the buckets up to it: the counts of successive lines
/// never fall, short of a counter that wraps.
pub proof fn lemma_buckets_are_cumulative(counts: Seq<u64>, i: nat, j: nat)
    requires
        i <= j <= counts.len(),
    ensures
        0 <= total(counts, i) <= total(counts, j),
    decreases j,
{
    if j > 0 {
        if i < j {
            lemma_buckets_are_cumulative(counts, i, (j - 1) as nat);
        } else {
            lemma_buckets_are_cumulative(counts, (i - 1) as nat, (j - 1) as nat);
        }
    }
}

proof fn lemma_total_update(counts: Seq<u64>, i: int, v: u64, n: nat)
    requires
        0 <= i < counts.len(),
        n <= counts.len(),
    ensures
        total(counts.update(i, v), n) == total(counts, n) + if i < n {
            v - counts[i]
        } else {
            0
        },
    decreases n,
{
    if n > 0 {
        lemma_total_update(counts, i, v, (n - 1) as nat);
    }
}

/// The bounds grow, so the bucket of a time comes before the `n`-th bound exactly when the time is
/// within the one before it.
proof fn lemma_bucket_before(nanos: int, i: int, n: int)
    requires
        0 <= i < n <= BUCKETS,
    ensures
        bucket_from(nanos, i) < n <==> nanos <= bound(n - 1),
    decreases BUCKETS - i,
{
    lemma_bucket(nanos, i);
    if nanos > bound(i) {
        if i + 1 < n {
            lemma_bucket_before(nanos, i + 1, n);
        } else {
            lemma_bucket(nanos, i + 1);
        }
    }
}

/// Each time that is observed is counted once: the line of every bound that it is within, the
/// last line and the count go up by one, as a 64-bit counter goes up, and the other lines stay.
pub proof fn lemma_observing_counts_one(counts: Seq<u64>, nanos: int, n: nat)
    requires
        counts.len() == 15,
        1 <= n <= 15,
    ensures
        ({
            let i = bucket_from(nanos, 0);
            let after = counts.update(i, wrapped(counts[i] + 1) as u64);
            let one: int = if n == 15 || nanos <= bound(n - 1) {
                1
            } else {
                0
            };
            &&& wrapped(total(after, n)) == wrapped(total(counts, n) + one)
            &&& counts[i] < u64::MAX ==> total(after, n) == total(counts, n) + one
        }),
{
    let i = bucket_from(nanos, 0);
    lemma_bucket(nanos, 0);
    if n < 15 {
        lemma_bucket_before(nanos, 0, n as int);
    }
    let c = counts[i] as int;
    lemma_total_update(counts, i, wrapped(c + 1) as u64, n);
    if c == u64::MAX && i < n {
        let t = total(counts, n) as int;
        assert(wrapped(c + 1) == 0);
        assert(total(counts.update(i, 0), n) == t - 0xffff_ffff_ffff_ffff);
        assert((t + 1) % 0x1_0000_0000_0000_0000 == (t + 1 - 0x1_0000_0000_0000_0000)
            % 0x1_0000_0000_0000_0000) by (nonlinear_arith);
    }
}

/// Responses by route and status, and latency by route.
pub struct HttpMetrics {
    /// Routes and statuses with their counts, in the order they were first seen.
    pub responses: Vec<(String, u16, u64)>,
    /// Request latency per route, in the order routes were first seen.
    pub latency: Vec<(String, Histogram)>,
}

/// The counted routes and statuses.
pub open spec fn response_values(v: Seq<(String, u16, u64)>) -> Seq<(Seq<char>, u16, u64)> {
    Seq::new(v.len(), |i: int| (v[i].0@, v[i].1, v[i].2))
}

/// The routes with their times: the counters and the sum.
pub open spec fn latency_values(v: Seq<(String, Histogram)>) -> Seq<
    (Seq<char>, Seq<u64>, u64),
> {
    Seq::new(v.len(), |i: int| (v[i].0@, v[i].1.counts@, v[i].1.sum_us))
}

/// Where a route and status stand, or the end.
pub open spec fn response_at(v: Seq<(Seq<char>, u16, u64)>, route: Seq<char>, status: u16) -> int
    decreases v.len(),
{
    if v.len() == 0 || (v[0].0 == route && v[0].1 == status) {
        0
    } else {
        1 + response_at(v.skip(1), route, status)
    }
}

/// Where a route stands, or the end.
pub open spec fn route_at(v: Seq<(Seq<char>, Seq<u64>, u64)>, route: Seq<char>) -> int
    decreases v.len(),
{
    if v.len() == 0 || v[0].0 == route {
        0
    } else {
        1 + route_at(v.skip(1), route)
    }
}

/// The responses with one more.
pub open spec fn responded(
    v: Seq<(Seq<char>, u16, u64)>,
    route: Seq<char>,
    status: u16,
) -> Seq<(Seq<char>, u16, u64)> {
    let k = response_at(v, route, status);
    if k < v.len() {
        v.update(k, (route, status, wrapped(v[k].2 + 1) as u64))
    } else {
        v.push((route, status, 1))
    }
}

/// Counters with one more time.
pub open spec fn timed(counts: Seq<u64>, nanos: int) -> Seq<u64> {
    let i = bucket_from(nanos, 0);
    counts.update(i, wrapped(counts[i] + 1) as u64)
}

/// The latencies with one more time.
pub open spec fn lasted(
    v: Seq<(Seq<char>, Seq<u64>, u64)>,
    route: Seq<char>,
    nanos: int,
) -> Seq<(Seq<char>, Seq<u64>, u64)> {
    let k = route_at(v, route);
    if k < v.len() {
        v.update(
            k,
            (route, timed(v[k].1, nanos), wrapped(v[k].2 + nanos / 1000) as u64),
        )
    } else {
        v.push(
            (
                route,
                timed(Seq::new(15, |i: int| 0u64), nanos),
                wrapped(nanos / 1000) as u64,
            ),
        )
    }
}

proof fn lemma_response_at(
    v: Seq<(Seq<char>, u16, u64)>,
    route: Seq<char>,
    status: u16,
    k: int,
)
    requires
        0 <= k <= v.len(),
        forall|i: int|
            0 <= i < k ==> !((#[trigger] v[i]).0 == route && v[i].1 == status),
        k < v.len() ==> v[k].0 == route && v[k].1 == status,
    ensures
        response_at(v, route, status) == k,
    decreases v.len(),
{
    if k > 0 {
        let t = v.skip(1);
        assert(!(v[0].0 == route && v[0].1 == status));
        assert forall|i: int| 0 <= i < k - 1 implies !((#[trigger] t[i]).0 == route && t[i].1
            == status) by {
            assert(t[i] == v[i + 1]);
        }
        lemma_response_at(t, route, status, k - 1);
    }
}

proof fn lemma_route_at(v: Seq<(Seq<char>, Seq<u64>, u64)>, route: Seq<char>, k: int)
    requires
        0 <= k <= v.len(),
        forall|i: int| 0 <= i < k ==> (#[trigger] v[i]).0 != route,
        k < v.len() ==> v[k].0 == route,
    ensures
        route_at(v, route) == k,
    decreases v.len(),
{
    if k > 0 {
        let t = v.skip(1);
        assert(v[0].0 != route);
        assert forall|i: int| 0 <= i < k - 1 implies (#[trigger] t[i]).0 != route by {
            assert(t[i] == v[i + 1]);
        }
        lemma_route_at(t, route, k - 1);
    }
}

/// The line of one route and status.
pub open spec fn response_line(r: (Seq<char>, u16, u64)) -> Seq<char> {
    "candle_rlcd_http_requests_total{route=\""@ + r.0 + "\",status=\""@ + text::dec(r.1 as nat)
        + "\"} "@ + text::dec(r.2 as nat) + "\n"@
}

/// The lines of several routes and statuses.
pub open spec fn response_lines(v: Seq<(Seq<char>, u16, u64)>) -> Seq<char>
    decreases v.len(),
{
    if v.len() == 0 {
        Seq::empty()
    } else {
        response_lines(v.drop_last()) + response_line(v.last())
    }
}

/// The label of a route.
pub open spec fn route_label(route: Seq<char>) -> Seq<char> {
    "route=\""@ + route + "\""@
}

/// The histograms of several routes as text.
pub open spec fn latency_lines(v: Seq<(Seq<char>, Seq<u64>, u64)>) -> Seq<char>
    decreases v.len(),
{
    if v.len() == 0 {
        Seq::empty()
    } else {
        latency_lines(v.drop_last()) + histogram_text(
            v.last().1,
            v.last().2,
            "candle_rlcd_http_request_duration_seconds"@,
            route_label(v.last().0),
        )
    }
}

/// Responses and latencies as text.
pub open spec fn http_text(
    responses: Seq<(Seq<char>, u16, u64)>,
    latency: Seq<(Seq<char>, Seq<u64>, u64)>,
) -> Seq<char> {
    "# HELP candle_rlcd_http_requests_total HTTP responses by route and status.\n"@
        + "# TYPE candle_rlcd_http_requests_total counter\n"@ + response_lines(responses)
        + "# HELP candle_rlcd_http_request_duration_seconds Time from request to response.\n"@
        + "# TYPE candle_rlcd_http_request_duration_seconds histogram\n"@ + latency_lines(latency)
}

impl HttpMetrics {
    /// No responses yet.
    pub fn new() -> (r: HttpMetrics)
        ensures
            r.responses@.len() == 0,
            r.latency@.len() == 0,
    {
        HttpMetrics { responses: Vec::new(), latency: Vec::new() }
    }

    /// Counts a response.
    pub fn record(&mut self, route: &str, status: u16, nanos: u128)
        ensures
            response_values(final(self).responses@) == responded(
                response_values(old(self).responses@),
                route@,
                status,
            ),
            latency_values(final(self).latency@) == lasted(
                latency_values(old(self).latency@),
                route@,
                nanos as int,
            ),
    {
        let ghost rs = response_values(self.responses@);
        let mut k: usize = 0;
        while k < self.responses.len() && !(same(self.responses[k].0.as_str(), route)
            && self.responses[k].1 == status)
            invariant
                k <= self.responses@.len(),
                *self == *old(self),
                rs == response_values(self.responses@),
                forall|i: int|
                    0 <= i < k ==> !((#[trigger] rs[i]).0 == route@ && rs[i].1 == status),
            decreases self.responses@.len() - k,
        {
            k += 1;
        }
        proof {
            lemma_response_at(rs, route@, status, k as int);
        }
        if k < self.responses.len() {
            let n: u64 = self.responses[k].2.wrapping_add(1);
            self.responses.set(k, (route.to_owned(), status, n));
            proof {
                assert(response_values(self.responses@) =~= responded(rs, route@, status));
            }
        } else {
            self.responses.push((route.to_owned(), status, 1));
            proof {
                assert(response_values(self.responses@) =~= responded(rs, route@, status));
            }
        }
        let ghost ls = latency_values(self.latency@);
        let mut m: usize = 0;
        while m < self.latency.len() && !same(self.latency[m].0.as_str(), route)
            invariant
                m <= self.latency@.len(),
                ls == latency_values(self.latency@),
                ls == latency_values(old(self).latency@),
                response_values(self.responses@) == responded(rs, route@, status),
                rs == response_values(old(self).responses@),
                forall|i: int| 0 <= i < m ==> (#[trigger] ls[i]).0 != route@,
            decreases self.latency@.len() - m,
        {
            m += 1;
        }
        proof {
            lemma_route_at(ls, route@, m as int);
        }
        if m < self.latency.len() {
            let ghost before = self.latency@;
            self.latency[m].1.observe(nanos);
            proof {
                assert(latency_values(self.latency@) =~= lasted(ls, route@, nanos as int));
            }
        } else {
            let mut h = Histogram::new();
            proof {
                assert(h.counts@ =~= Seq::new(15, |i: int| 0u64));
            }
            h.observe(nanos);
            self.latency.push((route.to_owned(), h));
            proof {
                assert(latency_values(self.latency@) =~= lasted(ls, route@, nanos as int));
            }
        }
    }

    /// Appends responses and latencies as text.
    pub fn render(&self, out: &mut String)
        ensures
            final(out)@ == old(out)@ + http_text(
                response_values(self.responses@),
                latency_values(self.latency@),
            ),
    {
        let ghost before = out@;
        let ghost rs = response_values(self.responses@);
        let ghost ls = latency_values(self.latency@);
        let mut page = "# HELP candle_rlcd_http_requests_total HTTP responses by route and status.\n".to_owned();
        page.append("# TYPE candle_rlcd_http_requests_total counter\n");
        let ghost first = page@;
        let mut i: usize = 0;
        proof {
            assert(rs.take(0) =~= Seq::empty());
            assert(page@ =~= first + response_lines(rs.take(0)));
        }
        while i < self.responses.len()
            invariant
                i <= self.responses@.len(),
                rs == response_values(self.responses@),
                page@ == first + response_lines(rs.take(i as int)),
            decreases self.responses@.len() - i,
        {
            let r = &self.responses[i];
            let mut line = "candle_rlcd_http_requests_total{route=\"".to_owned();
            line.append(r.0.as_str());
            line.append("\",status=\"");
            line.append(decimal(r.1 as u64).as_str());
            line.append("\"} ");
            line.append(decimal(r.2).as_str());
            line.append("\n");
            proof {
                assert(line@ == response_line(rs[i as int]));
                assert(rs.take(i + 1).drop_last() =~= rs.take(i as int));
            }
            page.append(line.as_str());
            proof {
                assert(page@ =~= first + response_lines(rs.take(i + 1)));
            }
            i += 1;
        }
        proof {
            assert(rs.take(i as int) =~= rs);
        }
        page.append("# HELP candle_rlcd_http_request_duration_seconds Time from request to response.\n");
        page.append("# TYPE candle_rlcd_http_request_duration_seconds histogram\n");
        let ghost second = page@;
        let mut j: usize = 0;
        proof {
            assert(ls.take(0) =~= Seq::empty());
            assert(page@ =~= second + latency_lines(ls.take(0)));
        }
        while j < self.latency.len()
            invariant
                j <= self.latency@.len(),
                ls == latency_values(self.latency@),
                page@ == second + latency_lines(ls.take(j as int)),
            decreases self.latency@.len() - j,
        {
            let l = &self.latency[j];
            let mut labels = "route=\"".to_owned();
            labels.append(l.0.as_str());
            labels.append("\"");
            proof {
                assert(labels@ == route_label(ls[j as int].0));
                assert(ls.take(j + 1).drop_last() =~= ls.take(j as int));
            }
            l.1.render(&mut page, "candle_rlcd_http_request_duration_seconds", labels.as_str());
            proof {
                assert(page@ =~= second + latency_lines(ls.take(j + 1)));
            }
            j += 1;
        }
        proof {
            assert(ls.take(j as int) =~= ls);
            assert(page@ == http_text(rs, ls));
        }
        out.append(page.as_str());
    }
}

// ---------------------------------------------------------------------------------------------
// What is counted of several responses

/// The responses counted after those of a log: routes, statuses and times in nanoseconds.
pub open spec fn responses_after(log: Seq<(Seq<char>, u16, nat)>) -> Seq<(Seq<char>, u16, u64)>
    decreases log.len(),
{
    if log.len() == 0 {
        Seq::empty()
    } else {
        responded(responses_after(log.drop_last()), log.last().0, log.last().1)
    }
}

/// The latencies counted after the responses of a log.
pub open spec fn latencies_after(log: Seq<(Seq<char>, u16, nat)>) -> Seq<
    (Seq<char>, Seq<u64>, u64),
>
    decreases log.len(),
{
    if log.len() == 0 {
        Seq::empty()
    } else {
        lasted(latencies_after(log.drop_last()), log.last().0, log.last().2 as int)
    }
}

/// How often a log has a route with a status.
pub open spec fn times_seen(log: Seq<(Seq<char>, u16, nat)>, route: Seq<char>, status: u16) -> nat
    decreases log.len(),
{
    if log.len() == 0 {
        0
    } else {
        times_seen(log.drop_last(), route, status) + if log.last().0 == route && log.last().1
            == status {
            1nat
        } else {
            0
        }
    }
}

/// How often a log has a route.
pub open spec fn route_seen(log: Seq<(Seq<char>, u16, nat)>, route: Seq<char>) -> nat
    decreases log.len(),
{
    if log.len() == 0 {
        0
    } else {
        route_seen(log.drop_last(), route) + if log.last().0 == route {
            1nat
        } else {
            0
        }
    }
}

/// What is counted of a route, over its statuses.
pub open spec fn route_sum(v: Seq<(Seq<char>, u16, u64)>, route: Seq<char>) -> nat
    decreases v.len(),
{
    if v.len() == 0 {
        0
    } else {
        route_sum(v.drop_last(), route) + if v.last().0 == route {
            v.last().2 as nat
        } else {
            0
        }
    }
}

proof fn lemma_response_found(v: Seq<(Seq<char>, u16, u64)>, route: Seq<char>, status: u16)
    ensures
        ({
            let k = response_at(v, route, status);
            &&& 0 <= k <= v.len()
            &&& forall|i: int|
                0 <= i < k ==> !((#[trigger] v[i]).0 == route && v[i].1 == status)
            &&& k < v.len() ==> v[k].0 == route && v[k].1 == status
        }),
    decreases v.len(),
{
    if v.len() > 0 && !(v[0].0 == route && v[0].1 == status) {
        let t = v.skip(1);
        lemma_response_found(t, route, status);
        let k = response_at(v, route, status);
        assert forall|i: int| 0 <= i < k implies !((#[trigger] v[i]).0 == route && v[i].1
            == status) by {
            if i > 0 {
                assert(t[i - 1] == v[i]);
            }
        }
    }
}

proof fn lemma_route_found(v: Seq<(Seq<char>, Seq<u64>, u64)>, route: Seq<char>)
    ensures
        ({
            let k = route_at(v, route);
            &&& 0 <= k <= v.len()
            &&& forall|i: int| 0 <= i < k ==> (#[trigger] v[i]).0 != route
            &&& k < v.len() ==> v[k].0 == route
        }),
    decreases v.len(),
{
    if v.len() > 0 && v[0].0 != route {
        let t = v.skip(1);
        lemma_route_found(t, route);
        let k = route_at(v, route);
        assert forall|i: int| 0 <= i < k implies (#[trigger] v[i]).0 != route by {
            if i > 0 {
                assert(t[i - 1] == v[i]);
            }
        }
    }
}

proof fn lemma_route_sum_update(
    v: Seq<(Seq<char>, u16, u64)>,
    k: int,
    n: u64,
    route: Seq<char>,
)
    requires
        0 <= k < v.len(),
    ensures
        route_sum(v.update(k, (v[k].0, v[k].1, n)), route) == route_sum(v, route) + if v[k].0
            == route {
            n - v[k].2
        } else {
            0
        },
    decreases v.len(),
{
    let u = v.update(k, (v[k].0, v[k].1, n));
    if k == v.len() - 1 {
        assert(u.drop_last() =~= v.drop_last());
    } else {
        let f = v.drop_last();
        assert(u.drop_last() =~= f.update(k, (f[k].0, f[k].1, n)));
        lemma_route_sum_update(f, k, n, route);
    }
}

/// Numbers that a counter cannot tell apart stay so when the same is added.
proof fn lemma_wrapped_sum(a: int, b: int, d: int)
    requires
        wrapped(a) == wrapped(b),
    ensures
        wrapped(a + d) == wrapped(b + d),
        wrapped(wrapped(a) + d) == wrapped(a + d),
{
    let m: int = 0x1_0000_0000_0000_0000;
    let k = a / m - b / m;
    assert(a == b + k * m) by (nonlinear_arith)
        requires
            a % m == b % m,
            k == a / m - b / m,
            m == 0x1_0000_0000_0000_0000,
    ;
    vstd::arithmetic::div_mod::lemma_mod_multiples_vanish(k, b + d, m);
    assert(a + d == m * k + (b + d)) by (nonlinear_arith)
        requires
            a == b + k * m,
    ;
    let q = a / m;
    vstd::arithmetic::div_mod::lemma_mod_multiples_vanish(q, a % m + d, m);
    assert(a + d == m * q + (a % m + d)) by (nonlinear_arith)
        requires
            q == a / m,
            m == 0x1_0000_0000_0000_0000,
    ;
}

/// Each route and status of a log is counted once, as often as the log has it, and no other is; a
/// route's latency counts every response of the route, which is the sum over its statuses. All of
/// it as 64-bit counters count.
pub proof fn lemma_responses_are_counted(
    log: Seq<(Seq<char>, u16, nat)>,
    route: Seq<char>,
    status: u16,
)
    ensures
        ({
            let v = responses_after(log);
            let n = times_seen(log, route, status);
            let k = response_at(v, route, status);
            &&& forall|i: int|
                0 <= i < v.len() ==> ((#[trigger] v[i]).0 == route && v[i].1 == status <==> n > 0
                    && i == k)
            &&& n > 0 ==> 0 <= k < v.len() && v[k].2 == wrapped(n as int)
            &&& n <= route_seen(log, route) <= log.len()
        }),
        ({
            let v = latencies_after(log);
            let n = route_seen(log, route);
            let k = route_at(v, route);
            &&& forall|i: int|
                0 <= i < v.len() ==> ((#[trigger] v[i]).0 == route <==> n > 0 && i == k)
            &&& n > 0 ==> {
                &&& 0 <= k < v.len()
                &&& v[k].1.len() == BUCKETS + 1
                &&& wrapped(total(v[k].1, 15)) == wrapped(n as int)
            }
            &&& wrapped(route_sum(responses_after(log), route) as int) == wrapped(n as int)
        }),
    decreases log.len(),
{
    let rs = responses_after(log);
    let ls = latencies_after(log);
    if log.len() > 0 {
        let before = log.drop_last();
        let (r, s, nanos) = log.last();
        lemma_responses_are_counted(before, route, status);
        lemma_responses_are_counted(before, r, s);
        let old_rs = responses_after(before);
        let old_ls = latencies_after(before);
        lemma_response_found(old_rs, r, s);
        lemma_response_found(rs, route, status);
        let k = response_at(old_rs, r, s);
        if k < old_rs.len() {
            assert(rs =~= old_rs.update(
                k,
                (old_rs[k].0, old_rs[k].1, wrapped(old_rs[k].2 + 1) as u64),
            ));
            lemma_route_sum_update(old_rs, k, wrapped(old_rs[k].2 + 1) as u64, route);
            assert(old_rs[k].0 == r && old_rs[k].1 == s);
            let c = old_rs[k].2 as int;
            lemma_wrapped_sum(times_seen(before, r, s) as int, c, 1);
            lemma_wrapped_sum(wrapped(c + 1), c + 1, route_sum(old_rs, route) - c);
            lemma_wrapped_sum(
                route_sum(old_rs, route) as int,
                route_seen(before, route) as int,
                1,
            );
        } else {
            assert(rs.drop_last() =~= old_rs);
            lemma_wrapped_sum(
                route_sum(old_rs, route) as int,
                route_seen(before, route) as int,
                1,
            );
        }
        lemma_response_found(old_rs, route, status);
        assert forall|i: int| 0 <= i < rs.len() implies ((#[trigger] rs[i]).0 == route && rs[i].1
            == status <==> times_seen(log, route, status) > 0 && i == response_at(
            rs,
            route,
            status,
        )) by {
            if i < old_rs.len() {
                assert(rs[i].0 == old_rs[i].0 && rs[i].1 == old_rs[i].1);
            }
            let at = response_at(rs, route, status);
            if at < old_rs.len() {
                assert(rs[at].0 == old_rs[at].0 && rs[at].1 == old_rs[at].1);
            }
        }
        let at = response_at(rs, route, status);
        if times_seen(log, route, status) > 0 {
            if times_seen(before, route, status) > 0 {
                let was = response_at(old_rs, route, status);
                assert(rs[was].0 == route && rs[was].1 == status);
                assert(at == was);
            } else {
                assert(k == old_rs.len());
                assert(rs[k].0 == route && rs[k].1 == status);
                assert(at == k);
            }
        }
        lemma_route_found(old_ls, r);
        lemma_route_found(old_ls, route);
        lemma_route_found(ls, route);
        let m = route_at(old_ls, r);
        let i = bucket_from(nanos as int, 0);
        lemma_bucket(nanos as int, 0);
        if m < old_ls.len() {
            let c = old_ls[m].1;
            lemma_observing_counts_one(c, nanos as int, 15);
            lemma_wrapped_sum(total(c, 15) as int, route_seen(before, r) as int, 1);
        } else {
            let none = Seq::new(15, |i: int| 0u64);
            lemma_nothing(none, 15);
            lemma_observing_counts_one(none, nanos as int, 15);
        }
        assert forall|i: int| 0 <= i < ls.len() implies ((#[trigger] ls[i]).0 == route
            <==> route_seen(log, route) > 0 && i == route_at(ls, route)) by {
            if i < old_ls.len() {
                assert(ls[i].0 == old_ls[i].0);
            }
            let at = route_at(ls, route);
            if at < old_ls.len() {
                assert(ls[at].0 == old_ls[at].0);
            }
        }
        if route_seen(log, route) > 0 {
            let at = route_at(ls, route);
            if route_seen(before, route) > 0 {
                let was = route_at(old_ls, route);
                assert(ls[was].0 == route);
                assert(at == was);
            } else {
                assert(m == old_ls.len());
                assert(ls[m].0 == route);
                assert(at == m);
            }
        }
    }
}

proof fn lemma_bucket(nanos: int, i: int)
    requires
        0 <= i <= BUCKETS,
    ensures
        i <= bucket_from(nanos, i) <= BUCKETS,
    decreases BUCKETS - i,
{
    if i < BUCKETS && nanos > bound(i) {
        lemma_bucket(nanos, i + 1);
    }
}

proof fn lemma_nothing(counts: Seq<u64>, n: nat)
    requires
        n <= counts.len(),
        forall|i: int| 0 <= i < counts.len() ==> #[trigger] counts[i] == 0,
    ensures
        total(counts, n) == 0,
    decreases n,
{
    if n > 0 {
        lemma_nothing(counts, (n - 1) as nat);
    }
}

/// What the line of a route and status begins with.
pub open spec fn line_start(route: Seq<char>, status: u16) -> Seq<char> {
    "candle_rlcd_http_requests_total{route=\""@ + route + "\",status=\""@ + text::dec(
        status as nat,
    ) + "\"} "@
}

/// A line tells which route and status it is of, as long as routes hold no quotes.
proof fn lemma_lines_tell_apart(r: (Seq<char>, u16, u64), route: Seq<char>, status: u16)
    requires
        !r.0.contains('"'),
        !route.contains('"'),
        text::begins(response_line(r), line_start(route, status)),
    ensures
        r.0 == route,
        r.1 == status,
{
    let first = "candle_rlcd_http_requests_total{route=\""@;
    let quote = seq!['"'];
    let middle = ",status=\""@;
    reveal_strlit("\",status=\"");
    reveal_strlit(",status=\"");
    reveal_strlit("\"} ");
    reveal_strlit("} ");
    assert("\",status=\""@ =~= quote + middle);
    assert("\"} "@ =~= quote + "} "@);
    let more = middle + text::dec(status as nat) + "\"} "@;
    let rest = middle + text::dec(r.1 as nat) + "\"} "@ + text::dec(r.2 as nat) + "\n"@;
    let line = response_line(r);
    let start = line_start(route, status);
    let tail = route + quote + more;
    let whole = r.0 + quote + rest;
    assert(start =~= first + tail);
    assert(line =~= first + whole);
    assert forall|i: int| 0 <= i < tail.len() implies whole[i] == tail[i] by {
        assert(line.take(start.len() as int)[first.len() + i] == start[first.len() + i]);
    }
    assert(whole.take(tail.len() as int) =~= tail);
    text::lemma_same_up_to(route, r.0, '"', more, rest);
    let (a, x) = (text::dec(status as nat), text::dec(r.1 as nat));
    let rest2 = "} "@ + text::dec(r.2 as nat) + "\n"@;
    text::lemma_dec_is_digits(status as nat);
    text::lemma_dec_is_digits(r.1 as nat);
    let tail2 = a + quote + "} "@;
    let whole2 = x + quote + rest2;
    assert(more =~= middle + tail2);
    assert(rest =~= middle + whole2);
    assert forall|i: int| 0 <= i < tail2.len() implies whole2[i] == tail2[i] by {
        assert(rest.take(more.len() as int)[middle.len() + i] == more[middle.len() + i]);
    }
    assert(whole2.take(tail2.len() as int) =~= tail2);
    assert(!a.contains('"') && !x.contains('"'));
    text::lemma_same_up_to(a, x, '"', "} "@, rest2);
    text::lemma_dec_tells_apart(status as nat, r.1 as nat);
}

/// Each route and status that was seen has one line on the page, with how often it was seen, and no
/// other has one, as long as routes hold no quotes; a 64-bit counter says how often. The page has a line for each of
/// `responses_after`, one after another.
pub proof fn lemma_each_response_has_one_line(
    log: Seq<(Seq<char>, u16, nat)>,
    route: Seq<char>,
    status: u16,
)
    requires
        forall|i: int| 0 <= i < log.len() ==> !(#[trigger] log[i]).0.contains('"'),
        !route.contains('"'),
    ensures
        ({
            let v = responses_after(log);
            let n = times_seen(log, route, status);
            let k = response_at(v, route, status);
            &&& forall|i: int|
                0 <= i < v.len() ==> (text::begins(
                    response_line(#[trigger] v[i]),
                    line_start(route, status),
                ) <==> n > 0 && i == k)
            &&& n > 0 ==> 0 <= k < v.len() && response_line(v[k]) == line_start(route, status)
                + text::dec(wrapped(n as int) as nat) + "\n"@
        }),
{
    lemma_responses_are_counted(log, route, status);
    let v = responses_after(log);
    assert forall|i: int| 0 <= i < v.len() implies (text::begins(
        response_line(#[trigger] v[i]),
        line_start(route, status),
    ) <==> times_seen(log, route, status) > 0 && i == response_at(v, route, status)) by {
        lemma_routes_come_from_the_log(log, i);
        if text::begins(response_line(v[i]), line_start(route, status)) {
            lemma_lines_tell_apart(v[i], route, status);
        }
        if v[i].0 == route && v[i].1 == status {
            let start = line_start(route, status);
            assert(response_line(v[i]) =~= start + text::dec(v[i].2 as nat) + "\n"@);
            assert(response_line(v[i]).take(start.len() as int) =~= start);
        }
    }
}

proof fn lemma_routes_come_from_the_log(log: Seq<(Seq<char>, u16, nat)>, i: int)
    requires
        0 <= i < responses_after(log).len(),
        forall|i: int| 0 <= i < log.len() ==> !(#[trigger] log[i]).0.contains('"'),
    ensures
        !responses_after(log)[i].0.contains('"'),
    decreases log.len(),
{
    if log.len() > 0 {
        let before = log.drop_last();
        assert forall|i: int| 0 <= i < before.len() implies !(#[trigger] before[i]).0.contains(
            '"',
        ) by {
            assert(before[i] == log[i]);
        }
        let old_rs = responses_after(before);
        lemma_response_found(old_rs, log.last().0, log.last().1);
        assert(!log[log.len() - 1].0.contains('"'));
        if i < old_rs.len() {
            lemma_routes_come_from_the_log(before, i);
        }
    }
}

/// A label's value with backslashes, quotes and line breaks escaped.
pub open spec fn label_text(v: Seq<char>) -> Seq<char> {
    text::replaced(
        text::replaced(text::replaced(v, "\\"@, "\\\\"@), "\""@, "\\\""@),
        "\n"@,
        "\\n"@,
    )
}

/// Escapes a label's value.
pub fn label(v: &str) -> (r: String)
    ensures
        r@ == label_text(v@),
{
    let a = replace(v, "\\", "\\\\");
    let b = replace(a.as_str(), "\"", "\\\"");
    replace(b.as_str(), "\n", "\\n")
}

/// A response that lasted exactly a bucket's bound is counted in that bucket, one that lasted longer
/// in a later one, and one that lasted longer than all bounds in the last.
pub proof fn lemma_times_fall_in_their_bucket(counts: Seq<u64>, nanos: int, i: int)
    requires
        counts.len() == 15,
        0 <= i < 15,
    ensures
        ({
            let fits = i == 14 || nanos <= bound(i);
            let below = i > 0 && nanos <= bound(i - 1);
            &&& fits && !below ==> timed(counts, nanos)[i] == wrapped(counts[i] + 1)
            &&& !fits || below ==> timed(counts, nanos)[i] == counts[i]
        }),
{
    lemma_bucket(nanos, 0);
    if i < 14 {
        lemma_bucket_before(nanos, 0, i + 1);
    }
    if i > 0 {
        lemma_bucket_before(nanos, 0, i);
    }
}

/// The bounds grow.
pub proof fn lemma_bounds_grow(i: int)
    requires
        0 <= i < 13,
    ensures
        0 < bound(i) < bound(i + 1),
{
}

/// How long a response took is counted for its route and no other: its time is added, in
/// microseconds, and one of its buckets grows.
pub proof fn lemma_times_are_kept_by_route(
    v: Seq<(Seq<char>, Seq<u64>, u64)>,
    route: Seq<char>,
    nanos: int,
    i: int,
)
    requires
        0 <= i < v.len(),
    ensures
        ({
            let after = lasted(v, route, nanos);
            &&& v.len() <= after.len() <= v.len() + 1
            &&& v[i].0 != route ==> after[i] == v[i]
            &&& v[i].0 == route && (forall|j: int| 0 <= j < i ==> (#[trigger] v[j]).0 != route)
                ==> after.len() == v.len() && after[i].0 == route && after[i].1 == timed(
                v[i].1,
                nanos,
            ) && after[i].2 == wrapped(v[i].2 + nanos / 1000)
        }),
{
    lemma_route_found(v, route);
    let k = route_at(v, route);
    if k < v.len() && k != i && v[i].0 == route {
        assert(v[k].0 == route);
    }
}

/// A response is counted for its route and status and no other.
pub proof fn lemma_responses_are_kept_apart(
    v: Seq<(Seq<char>, u16, u64)>,
    route: Seq<char>,
    status: u16,
    i: int,
)
    requires
        0 <= i < v.len(),
    ensures
        ({
            let after = responded(v, route, status);
            &&& v.len() <= after.len() <= v.len() + 1
            &&& v[i].0 != route || v[i].1 != status ==> after[i] == v[i]
            &&& after.len() > v.len() ==> after.last() == (route, status, 1u64)
        }),
{
    lemma_response_found(v, route, status);
}

// ---------------------------------------------------------------------------------------------
// What measures read like

/// Dropping the zeros at the end drops nothing else.
pub proof fn lemma_only_zeros_are_dropped(s: Seq<char>, i: int)
    ensures
        significant(s).len() <= s.len(),
        significant(s) == s.take(significant(s).len() as int),
        significant(s).len() > 0 ==> significant(s).last() != '0',
        significant(s).len() <= i < s.len() ==> s[i] == '0',
    decreases s.len(),
{
    if s.len() > 0 && s.last() == '0' {
        let t = s.drop_last();
        lemma_only_zeros_are_dropped(t, i);
        let n = significant(t).len() as int;
        assert(t.take(n) =~= s.take(n));
    } else {
        assert(s.take(s.len() as int) =~= s);
    }
}

/// Seconds are written with their millionths behind a point, without the zeros at the end, and
/// whole seconds without a point.
pub proof fn lemma_seconds_read_as_decimals(us: nat)
    ensures
        us % 1_000_000 == 0 ==> seconds_text(us) == text::dec(us / 1_000_000),
        us % 1_000_000 != 0 ==> {
            let d = text::zero_padded(text::dec(us % 1_000_000), 6);
            let n = significant(d).len() as int;
            &&& n <= d.len()
            &&& seconds_text(us) == text::dec(us / 1_000_000) + seq!['.'] + d.take(n)
            &&& forall|i: int| n <= i < d.len() ==> #[trigger] d[i] == '0'
        },
{
    reveal_strlit(".");
    assert("."@ =~= seq!['.']);
    let d = text::zero_padded(text::dec(us % 1_000_000), 6);
    lemma_only_zeros_are_dropped(d, 0);
    assert forall|i: int| significant(d).len() <= i < d.len() implies #[trigger] d[i] == '0' by {
        lemma_only_zeros_are_dropped(d, i);
    }
}

/// A label without quotes, backslashes and line breaks is written as it is, and no label breaks its
/// line.
pub proof fn lemma_labels_stay_on_their_line(v: Seq<char>)
    ensures
        !v.contains('\\') && !v.contains('"') && !v.contains('\n') ==> label_text(v) == v,
        !label_text(v).contains('\n'),
{
    reveal_strlit("\\");
    reveal_strlit("\"");
    reveal_strlit("\n");
    reveal_strlit("\\n");
    reveal_strlit("\\\\");
    reveal_strlit("\\\"");
    assert("\\"@ =~= seq!['\\']);
    assert("\""@ =~= seq!['"']);
    assert("\n"@ =~= seq!['\n']);
    assert("\\n"@ =~= seq!['\\', 'n']);
    let a = text::replaced(v, "\\"@, "\\\\"@);
    let b = text::replaced(a, "\""@, "\\\""@);
    text::lemma_replacing_one_character(v, '\\', "\\\\"@);
    text::lemma_replacing_one_character(a, '"', "\\\""@);
    text::lemma_replacing_one_character(b, '\n', "\\n"@);
    let w = "\\n"@;
    if w.contains('\n') {
        let k = choose|k: int| 0 <= k < w.len() && w[k] == '\n';
        assert(k == 0 || k == 1);
    }
}

/// Labels stand in braces, and none are written when there are none.
pub proof fn lemma_labels_stand_in_braces(labels: Seq<char>)
    ensures
        labels.len() == 0 ==> in_braces(labels).len() == 0,
        labels.len() > 0 ==> in_braces(labels) == seq!['{'] + labels + seq!['}'],
{
    reveal_strlit("{");
    reveal_strlit("}");
    assert("{"@ =~= seq!['{']);
    assert("}"@ =~= seq!['}']);
}

/// A bucket is named by its bound, in seconds.
pub proof fn lemma_buckets_are_named_by_their_bound(i: int)
    requires
        0 <= i < 14,
    ensures
        bound_text(i) == seconds_text((bound(i) / 1000) as nat),
        bound_text(14) == "+Inf"@,
{
    reveal_strlit(".");
    assert("."@ =~= seq!['.']);
    if i == 0 {
        reveal_strlit("0.005");
        assert(text::dec(0) =~= seq!['0']) by {
            reveal_with_fuel(text::radix_text, 4);
        }
        assert(text::dec(5000) =~= seq!['5', '0', '0', '0']) by {
            reveal_with_fuel(text::radix_text, 7);
        }
        let d = text::zero_padded(text::dec(5000), 6);
        assert(d =~= seq!['0', '0', '5', '0', '0', '0']);
        assert(significant(d) =~= seq!['0', '0', '5']) by {
            lemma_only_zeros_are_dropped(d, 2);
            lemma_only_zeros_are_dropped(d, significant(d).len() as int);
            if significant(d).len() > 3 {
                assert(significant(d).last() == d[significant(d).len() - 1]);
            }
        }
        assert("0.005"@ =~= seconds_text(5000));
    }
    if i == 1 {
        reveal_strlit("0.01");
        assert(text::dec(0) =~= seq!['0']) by {
            reveal_with_fuel(text::radix_text, 4);
        }
        assert(text::dec(10000) =~= seq!['1', '0', '0', '0', '0']) by {
            reveal_with_fuel(text::radix_text, 7);
        }
        let d = text::zero_padded(text::dec(10000), 6);
        assert(d =~= seq!['0', '1', '0', '0', '0', '0']);
        assert(significant(d) =~= seq!['0', '1']) by {
            lemma_only_zeros_are_dropped(d, 1);
            lemma_only_zeros_are_dropped(d, significant(d).len() as int);
            if significant(d).len() > 2 {
                assert(significant(d).last() == d[significant(d).len() - 1]);
            }
        }
        assert("0.01"@ =~= seconds_text(10000));
    }
    if i == 2 {
        reveal_strlit("0.025");
        assert(text::dec(0) =~= seq!['0']) by {
            reveal_with_fuel(text::radix_text, 4);
        }
        assert(text::dec(25000) =~= seq!['2', '5', '0', '0', '0']) by {
            reveal_with_fuel(text::radix_text, 7);
        }
        let d = text::zero_padded(text::dec(25000), 6);
        assert(d =~= seq!['0', '2', '5', '0', '0', '0']);
        assert(significant(d) =~= seq!['0', '2', '5']) by {
            lemma_only_zeros_are_dropped(d, 2);
            lemma_only_zeros_are_dropped(d, significant(d).len() as int);
            if significant(d).len() > 3 {
                assert(significant(d).last() == d[significant(d).len() - 1]);
            }
        }
        assert("0.025"@ =~= seconds_text(25000));
    }
    if i == 3 {
        reveal_strlit("0.05");
        assert(text::dec(0) =~= seq!['0']) by {
            reveal_with_fuel(text::radix_text, 4);
        }
        assert(text::dec(50000) =~= seq!['5', '0', '0', '0', '0']) by {
            reveal_with_fuel(text::radix_text, 7);
        }
        let d = text::zero_padded(text::dec(50000), 6);
        assert(d =~= seq!['0', '5', '0', '0', '0', '0']);
        assert(significant(d) =~= seq!['0', '5']) by {
            lemma_only_zeros_are_dropped(d, 1);
            lemma_only_zeros_are_dropped(d, significant(d).len() as int);
            if significant(d).len() > 2 {
                assert(significant(d).last() == d[significant(d).len() - 1]);
            }
        }
        assert("0.05"@ =~= seconds_text(50000));
    }
    if i == 4 {
        reveal_strlit("0.1");
        assert(text::dec(0) =~= seq!['0']) by {
            reveal_with_fuel(text::radix_text, 4);
        }
        assert(text::dec(100000) =~= seq!['1', '0', '0', '0', '0', '0']) by {
            reveal_with_fuel(text::radix_text, 7);
        }
        let d = text::zero_padded(text::dec(100000), 6);
        assert(d =~= seq!['1', '0', '0', '0', '0', '0']);
        assert(significant(d) =~= seq!['1']) by {
            lemma_only_zeros_are_dropped(d, 0);
            lemma_only_zeros_are_dropped(d, significant(d).len() as int);
            if significant(d).len() > 1 {
                assert(significant(d).last() == d[significant(d).len() - 1]);
            }
        }
        assert("0.1"@ =~= seconds_text(100000));
    }
    if i == 5 {
        reveal_strlit("0.25");
        assert(text::dec(0) =~= seq!['0']) by {
            reveal_with_fuel(text::radix_text, 4);
        }
        assert(text::dec(250000) =~= seq!['2', '5', '0', '0', '0', '0']) by {
            reveal_with_fuel(text::radix_text, 7);
        }
        let d = text::zero_padded(text::dec(250000), 6);
        assert(d =~= seq!['2', '5', '0', '0', '0', '0']);
        assert(significant(d) =~= seq!['2', '5']) by {
            lemma_only_zeros_are_dropped(d, 1);
            lemma_only_zeros_are_dropped(d, significant(d).len() as int);
            if significant(d).len() > 2 {
                assert(significant(d).last() == d[significant(d).len() - 1]);
            }
        }
        assert("0.25"@ =~= seconds_text(250000));
    }
    if i == 6 {
        reveal_strlit("0.5");
        assert(text::dec(0) =~= seq!['0']) by {
            reveal_with_fuel(text::radix_text, 4);
        }
        assert(text::dec(500000) =~= seq!['5', '0', '0', '0', '0', '0']) by {
            reveal_with_fuel(text::radix_text, 7);
        }
        let d = text::zero_padded(text::dec(500000), 6);
        assert(d =~= seq!['5', '0', '0', '0', '0', '0']);
        assert(significant(d) =~= seq!['5']) by {
            lemma_only_zeros_are_dropped(d, 0);
            lemma_only_zeros_are_dropped(d, significant(d).len() as int);
            if significant(d).len() > 1 {
                assert(significant(d).last() == d[significant(d).len() - 1]);
            }
        }
        assert("0.5"@ =~= seconds_text(500000));
    }
    if i == 7 {
        reveal_strlit("1");
        assert(text::dec(1) =~= seq!['1']) by {
            reveal_with_fuel(text::radix_text, 4);
        }
        assert("1"@ =~= seconds_text(1000000));
    }
    if i == 8 {
        reveal_strlit("2.5");
        assert(text::dec(2) =~= seq!['2']) by {
            reveal_with_fuel(text::radix_text, 4);
        }
        assert(text::dec(500000) =~= seq!['5', '0', '0', '0', '0', '0']) by {
            reveal_with_fuel(text::radix_text, 7);
        }
        let d = text::zero_padded(text::dec(500000), 6);
        assert(d =~= seq!['5', '0', '0', '0', '0', '0']);
        assert(significant(d) =~= seq!['5']) by {
            lemma_only_zeros_are_dropped(d, 0);
            lemma_only_zeros_are_dropped(d, significant(d).len() as int);
            if significant(d).len() > 1 {
                assert(significant(d).last() == d[significant(d).len() - 1]);
            }
        }
        assert("2.5"@ =~= seconds_text(2500000));
    }
    if i == 9 {
        reveal_strlit("5");
        assert(text::dec(5) =~= seq!['5']) by {
            reveal_with_fuel(text::radix_text, 4);
        }
        assert("5"@ =~= seconds_text(5000000));
    }
    if i == 10 {
        reveal_strlit("10");
        assert(text::dec(10) =~= seq!['1', '0']) by {
            reveal_with_fuel(text::radix_text, 4);
        }
        assert("10"@ =~= seconds_text(10000000));
    }
    if i == 11 {
        reveal_strlit("30");
        assert(text::dec(30) =~= seq!['3', '0']) by {
            reveal_with_fuel(text::radix_text, 4);
        }
        assert("30"@ =~= seconds_text(30000000));
    }
    if i == 12 {
        reveal_strlit("60");
        assert(text::dec(60) =~= seq!['6', '0']) by {
            reveal_with_fuel(text::radix_text, 4);
        }
        assert("60"@ =~= seconds_text(60000000));
    }
    if i == 13 {
        reveal_strlit("120");
        assert(text::dec(120) =~= seq!['1', '2', '0']) by {
            reveal_with_fuel(text::radix_text, 4);
        }
        assert("120"@ =~= seconds_text(120000000));
    }
}

} // verus!
