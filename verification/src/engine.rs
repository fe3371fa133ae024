//! How forward passes are scheduled: how wide a worker's pool is, which requests run together,
//! and what is counted of them.

use vstd::prelude::*;

use crate::metrics::{self, Histogram};
use crate::plan;
use crate::sequence;

verus! {

/// How inference runs.
#[derive(Clone, Copy, PartialEq, Eq, Structural, Debug)]
pub struct EngineConfig {
    /// Inference threads, each running whole forward passes.
    pub workers: usize,
    /// Threads per worker for matrix kernels; with 0 all workers share one pool.
    pub threads_per_worker: usize,
    /// Most question rows one forward pass takes (a larger single request still runs alone).
    pub max_batch_rows: usize,
    /// Nanoseconds that a worker waits for more requests before it runs a partial batch; with 0 it
    /// runs whatever is queued.
    pub batch_wait: u128,
    /// Queued requests beyond this are refused.
    pub max_queue: usize,
    /// Widen a worker's pool, up to every core, when fewer passes run or wait than there are
    /// cores; `threads_per_worker` is then the narrowest width.
    pub adaptive: bool,
}

impl EngineConfig {
    /// One worker with every core.
    pub fn for_cores(cores: usize) -> (r: EngineConfig)
        ensures
            r == (EngineConfig {
                workers: 1,
                threads_per_worker: cores,
                max_batch_rows: 64,
                batch_wait: 0,
                max_queue: 1024,
                adaptive: true,
            }),
    {
        EngineConfig {
            workers: 1,
            threads_per_worker: cores,
            max_batch_rows: 64,
            batch_wait: 0,
            max_queue: 1024,
            adaptive: true,
        }
    }
}

/// Why a request has no outputs.
#[derive(Debug, PartialEq, Eq)]
pub enum EngineError {
    /// The queue is full.
    Overloaded,
    /// The pass failed, with a message.
    Failed(String),
}

impl EngineError {
    /// Why a request could not be queued: the queue is full, or nobody takes from it any more.
    pub fn not_queued(full: bool) -> (r: EngineError)
        ensures
            if full {
                r is Overloaded
            } else {
                r matches EngineError::Failed(m) && m@ == "inference workers stopped"@
            },
    {
        if full {
            EngineError::Overloaded
        } else {
            EngineError::Failed("inference workers stopped".to_owned())
        }
    }

    /// Why a queued request was never answered.
    pub fn dropped() -> (r: EngineError)
        ensures
            r matches EngineError::Failed(m) && m@ == "inference worker dropped the request"@,
    {
        EngineError::Failed("inference worker dropped the request".to_owned())
    }

    /// The error in words.
    pub fn message(&self) -> (r: String)
        ensures
            r@ == (match *self {
                EngineError::Overloaded => "engine overloaded"@,
                EngineError::Failed(m) => m@,
            }),
    {
        match self {
            EngineError::Overloaded => "engine overloaded".to_owned(),
            EngineError::Failed(m) => m.clone(),
        }
    }
}

// ---------------------------------------------------------------------------------------------
// Counters

/// What an engine counts. Counters are 64 bits wide and wrap.
pub struct Stats {
    pub requests: u64,
    pub batches: u64,
    pub rows: u64,
    /// Forward passes that ran on every core.
    pub burst: u64,
    /// Questions answered.
    pub questions: u64,
    /// Tokens that the answered questions read.
    pub input_tokens: u64,
    /// Time per forward pass.
    pub forward: Histogram,
    /// Time that requests waited for a worker.
    pub queue_wait: Histogram,
}

impl Stats {
    /// Nothing counted yet.
    pub fn new() -> (r: Stats)
        ensures
            r.requests == 0,
            r.batches == 0,
            r.rows == 0,
            r.burst == 0,
            r.questions == 0,
            r.input_tokens == 0,
            r.forward.sum_us == 0,
            r.queue_wait.sum_us == 0,
            forall|i: int| 0 <= i < 15 ==> #[trigger] r.forward.counts@[i] == 0,
            forall|i: int| 0 <= i < 15 ==> #[trigger] r.queue_wait.counts@[i] == 0,
    {
        Stats {
            requests: 0,
            batches: 0,
            rows: 0,
            burst: 0,
            questions: 0,
            input_tokens: 0,
            forward: Histogram::new(),
            queue_wait: Histogram::new(),
        }
    }

    /// Counts a batch of `requests` requests with `rows` rows.
    pub fn count_batch(&mut self, requests: usize, rows: usize)
        ensures
            final(self).batches == metrics::wrapped(old(self).batches + 1),
            final(self).rows == metrics::wrapped(old(self).rows + rows),
            final(self).requests == metrics::wrapped(old(self).requests + requests),
            *final(self) == (Stats {
                batches: final(self).batches,
                rows: final(self).rows,
                requests: final(self).requests,
                ..*old(self)
            }),
    {
        self.batches = self.batches.wrapping_add(1);
        self.rows = self.rows.wrapping_add(rows as u64);
        self.requests = self.requests.wrapping_add(requests as u64);
    }

    /// Counts a forward pass that ran on every core.
    pub fn count_burst(&mut self)
        ensures
            final(self).burst == metrics::wrapped(old(self).burst + 1),
            *final(self) == (Stats { burst: final(self).burst, ..*old(self) }),
    {
        self.burst = self.burst.wrapping_add(1);
    }

    /// Counts the answers of a request.
    pub fn count_answers(&mut self, questions: usize, tokens: usize)
        ensures
            final(self).questions == metrics::wrapped(old(self).questions + questions),
            final(self).input_tokens == metrics::wrapped(old(self).input_tokens + tokens),
            *final(self) == (Stats {
                questions: final(self).questions,
                input_tokens: final(self).input_tokens,
                ..*old(self)
            }),
    {
        self.questions = self.questions.wrapping_add(questions as u64);
        self.input_tokens = self.input_tokens.wrapping_add(tokens as u64);
    }
}

// ---------------------------------------------------------------------------------------------
// Width

/// Widths from `w` on: doubled as long as they are below `cores`, and then `cores`.
pub open spec fn doubled(w: int, cores: int) -> Seq<int>
    decreases
            if w < cores {
                cores - w
            } else {
                0
            },
{
    if 0 < w < cores {
        seq![w] + doubled(2 * w, cores)
    } else {
        seq![cores]
    }
}

/// The widths of a worker's pools, narrowest first: none when all workers share one, the base
/// alone when it does not adapt, or else every doubling of it up to the cores.
pub open spec fn widths(base: int, adaptive: bool, cores: int) -> Seq<int> {
    if base == 0 {
        Seq::empty()
    } else if adaptive && base < cores {
        doubled(base, cores)
    } else {
        seq![base]
    }
}

/// The widths of a worker's pools, narrowest first.
pub fn pool_widths(cfg: &EngineConfig, cores: usize) -> (r: Vec<usize>)
    requires
        cores <= usize::MAX / 2,
    ensures
        sequence::ints(r@) == widths(cfg.threads_per_worker as int, cfg.adaptive, cores as int),
{
    let base: usize = cfg.threads_per_worker;
    let mut r: Vec<usize> = Vec::new();
    if base > 0 {
        r.push(base);
        if cfg.adaptive && base < cores {
            let mut w: usize = base * 2;
            proof {
                assert(sequence::ints(r@) + doubled(w as int, cores as int) =~= doubled(
                    base as int,
                    cores as int,
                ));
            }
            while w < cores
                invariant
                    0 < w,
                    cores <= usize::MAX / 2,
                    sequence::ints(r@) + doubled(w as int, cores as int) == doubled(base as int, cores as int),
                decreases
                        if w < cores {
                            cores - w
                        } else {
                            0
                        },
            {
                let ghost before = sequence::ints(r@);
                r.push(w);
                proof {
                    assert(sequence::ints(r@) =~= before.push(w as int));
                    assert(sequence::ints(r@) + doubled(2 * w, cores as int) =~= before + doubled(
                        w as int,
                        cores as int,
                    ));
                }
                w = w * 2;
            }
            let ghost before = sequence::ints(r@);
            r.push(cores);
            proof {
                assert(sequence::ints(r@) =~= before + doubled(w as int, cores as int));
            }
        } else {
            proof {
                assert(sequence::ints(r@) =~= seq![base as int]);
            }
        }
    } else {
        proof {
            assert(sequence::ints(r@) =~= Seq::empty());
        }
    }
    r
}

/// Doubled widths start with the first, end with the cores, and each is wider than the one before.
proof fn lemma_doubled(w: int, cores: int)
    requires
        0 < w <= cores,
    ensures
        doubled(w, cores).len() >= 1,
        doubled(w, cores)[0] == w,
        doubled(w, cores).last() == cores,
        forall|i: int, j: int|
            0 <= i < j < doubled(w, cores).len() ==> doubled(w, cores)[i] < doubled(w, cores)[j],
    decreases cores - w,
{
    if w < cores {
        let rest = doubled(2 * w, cores);
        let all = doubled(w, cores);
        assert(all =~= seq![w] + rest);
        if 2 * w <= cores {
            lemma_doubled(2 * w, cores);
            assert forall|i: int, j: int| 0 <= i < j < all.len() implies all[i] < all[j] by {
                if i > 0 {
                    assert(rest[i - 1] < rest[j - 1]);
                } else if j > 1 {
                    assert(rest[0] < rest[j - 1]);
                }
            }
        } else {
            assert(rest =~= seq![cores]);
        }
    }
}

/// An adapting worker has a pool of its base width and one of every core, and each pool is wider
/// than the one before.
pub proof fn lemma_widths_reach_every_core(base: int, cores: int)
    requires
        0 < base < cores,
    ensures
        ({
            let w = widths(base, true, cores);
            &&& w.len() >= 2
            &&& w[0] == base
            &&& w.last() == cores
            &&& forall|i: int, j: int| 0 <= i < j < w.len() ==> w[i] < w[j]
        }),
{
    lemma_doubled(base, cores);
}

/// Each pass's share of the cores, between the passes running and the requests waiting.
pub open spec fn core_share(cores: int, running: int, waiting: int) -> int {
    if running + waiting >= 1 {
        cores / (running + waiting)
    } else {
        cores
    }
}

/// The last of several widths that is no wider than a share, or the first when none is.
pub open spec fn width_for(widths: Seq<int>, share: int) -> int
    decreases widths.len(),
{
    if widths.len() == 0 {
        0
    } else if widths.last() <= share {
        widths.len() - 1
    } else {
        width_for(widths.drop_last(), share)
    }
}

/// Which pool a pass runs on: the widest that is within its share, or the narrowest.
pub fn choose_pool(widths: &Vec<usize>, cores: usize, running: usize, waiting: usize) -> (r: usize)
    requires
        widths@.len() > 0,
        running + waiting <= usize::MAX,
    ensures
        r == width_for(sequence::ints(widths@), core_share(cores as int, running as int, waiting as int)),
        r < widths@.len(),
{
    let n: usize = running + waiting;
    let share: usize = if n >= 1 {
        cores / n
    } else {
        cores
    };
    let ghost all = sequence::ints(widths@);
    let mut i: usize = widths.len();
    proof {
        assert(all.take(i as int) =~= all);
    }
    while i > 0
        invariant
            i <= widths@.len(),
            widths@.len() > 0,
            all == sequence::ints(widths@),
            share == core_share(cores as int, running as int, waiting as int),
            width_for(all, share as int) == width_for(all.take(i as int), share as int),
        decreases i,
    {
        proof {
            assert(all.take(i as int).drop_last() =~= all.take(i - 1));
            assert(all.take(i as int).last() == all[i - 1]);
        }
        if widths[i - 1] <= share {
            return i - 1;
        }
        i -= 1;
    }
    0
}

/// A lone request on an adapting worker gets every core.
pub proof fn lemma_a_lone_request_gets_every_core(base: int, cores: int)
    requires
        0 < base < cores,
    ensures
        ({
            let w = widths(base, true, cores);
            w[width_for(w, core_share(cores, 1, 0))] == cores
        }),
{
    lemma_widths_reach_every_core(base, cores);
}

/// The pool that a share gives is no wider than the share, unless even the narrowest is.
pub proof fn lemma_pools_stay_within_their_share(widths: Seq<int>, share: int)
    requires
        widths.len() > 0,
    ensures
        0 <= width_for(widths, share) < widths.len(),
        widths[width_for(widths, share)] <= share || (width_for(widths, share) == 0 && forall|i:
            int| 0 <= i < widths.len() ==> widths[i] > share),
    decreases widths.len(),
{
    if widths.last() > share {
        let rest = widths.drop_last();
        if rest.len() > 0 {
            lemma_pools_stay_within_their_share(rest, share);
            let k = width_for(rest, share);
            assert(rest[k] == widths[k]);
            if widths[k] > share {
                assert forall|i: int| 0 <= i < widths.len() implies widths[i] > share by {
                    if i < rest.len() {
                        assert(rest[i] > share);
                    }
                }
            }
        } else {
            assert(width_for(rest, share) == 0);
        }
        assert(width_for(widths, share) == width_for(rest, share));
    } else {
        assert(width_for(widths, share) == widths.len() - 1);
    }
}

/// How many threads multiply matrices.
pub open spec fn threads_for(own: int, adaptive: bool, cores: int) -> int {
    if own == 0 || (adaptive && cores > own) {
        cores
    } else {
        own
    }
}

/// Matrices are multiplied on a worker's own threads, on all cores when it adapts and they are more,
/// and on all cores when it has none.
pub proof fn lemma_threads_are_the_workers_own(own: int, cores: int)
    requires
        own >= 0,
        cores >= 0,
    ensures
        own > 0 ==> threads_for(own, false, cores) == own,
        threads_for(own, true, cores) >= own,
        threads_for(own, true, cores) >= cores,
        threads_for(own, true, cores) == own || threads_for(own, true, cores) == cores,
        threads_for(0, false, cores) == cores,
{
}

/// As many threads as the widest pool that runs matrix kernels has.
pub fn matmul_threads(cfg: &EngineConfig, cores: usize) -> (n: usize)
    ensures
        n == (if cfg.threads_per_worker == 0 {
            cores
        } else if cfg.adaptive && cores > cfg.threads_per_worker {
            cores
        } else {
            cfg.threads_per_worker
        }),
        n == threads_for(cfg.threads_per_worker as int, cfg.adaptive, cores as int),
{
    if cfg.threads_per_worker == 0 || (cfg.adaptive && cores > cfg.threads_per_worker) {
        cores
    } else {
        cfg.threads_per_worker
    }
}

// ---------------------------------------------------------------------------------------------
// Batches

/// What a worker finds when it looks for a request.
#[derive(Clone, Copy, PartialEq, Eq, Structural, Debug)]
pub enum Arrival {
    /// Nothing is queued, or the time to wait is over.
    Nothing,
    /// A request whose caller gave up.
    Abandoned,
    /// A request with so many rows.
    Request(usize),
}

/// What a worker does next.
#[derive(Clone, Copy, PartialEq, Eq, Structural, Debug)]
pub enum Step {
    /// Wait for a request, however long it takes.
    Wait,
    /// Look for one more request, within the time to wait.
    Look,
    /// Run the requests gathered so far.
    Run,
}

/// The requests that a worker has gathered for its next pass.
#[derive(Debug, PartialEq, Eq)]
pub struct Gathering {
    /// The rows of each request, in the order they came.
    pub requests: Vec<usize>,
    /// All rows together, as far as a length can count.
    pub rows: usize,
    /// Whether nothing more is looked for.
    pub closed: bool,
    /// The rows of a request that was found and did not fit, which waits for the next pass.
    pub kept: Option<usize>,
}

/// The rows of several requests together.
pub open spec fn row_sum(v: Seq<usize>) -> nat
    decreases v.len(),
{
    if v.len() == 0 {
        0
    } else {
        row_sum(v.drop_last()) + v.last() as nat
    }
}

impl Gathering {
    /// Whether the rows are counted and are no more than a pass takes, unless they are of one
    /// request, and whether a request is kept only when it did not fit.
    pub open spec fn wf(self, max_rows: usize) -> bool {
        &&& self.rows == plan::counted(row_sum(self.requests@))
        &&& self.requests@.len() <= 1 || row_sum(self.requests@) <= max_rows
        &&& self.closed ==> self.requests@.len() > 0
        &&& self.kept matches Some(n) ==> self.closed && row_sum(self.requests@) + n > max_rows
    }

    /// Nothing gathered yet.
    pub fn new() -> (r: Gathering)
        ensures
            r.requests@.len() == 0,
            r.rows == 0,
            !r.closed,
            r.kept is None,
            forall|max_rows: usize| r.wf(max_rows),
    {
        let r = Gathering { requests: Vec::new(), rows: 0, closed: false, kept: None };
        proof {
            assert(row_sum(r.requests@) == 0);
        }
        r
    }

    /// What the worker does next: it waits for a first request, looks for more until its batch is
    /// full, nothing is found or what is found does not fit, and runs.
    pub fn step(&self, max_rows: usize) -> (r: Step)
        ensures
            r == (if self.requests@.len() == 0 {
                Step::Wait
            } else if self.closed || self.rows >= max_rows {
                Step::Run
            } else {
                Step::Look
            }),
    {
        if self.requests.len() == 0 {
            Step::Wait
        } else if self.closed || self.rows >= max_rows {
            Step::Run
        } else {
            Step::Look
        }
    }

    /// Takes what was found, and returns whether a request joined: the first one does, and so does
    /// one that fits; any other is kept and closes the batch. One whose caller gave up is dropped,
    /// and nothing closes the batch.
    pub fn arrive(&mut self, a: Arrival, max_rows: usize) -> (joined: bool)
        requires
            old(self).wf(max_rows),
            !old(self).closed,
            old(self).requests@.len() > 0 ==> old(self).rows < max_rows,
            old(self).requests@.len() == 0 ==> a != Arrival::Nothing,
        ensures
            final(self).wf(max_rows),
            match a {
                Arrival::Nothing => !joined && *final(self) == (Gathering {
                    closed: true,
                    ..*old(self)
                }),
                Arrival::Abandoned => !joined && *final(self) == *old(self),
                Arrival::Request(n) => {
                    &&& joined == (old(self).requests@.len() == 0 || row_sum(old(self).requests@)
                        + n <= max_rows)
                    &&& joined ==> {
                        &&& final(self).requests@ == old(self).requests@.push(n)
                        &&& !final(self).closed
                        &&& final(self).kept is None
                    }
                    &&& !joined ==> *final(self) == (Gathering {
                        closed: true,
                        kept: Some(n),
                        ..*old(self)
                    })
                },
            },
    {
        match a {
            Arrival::Nothing => {
                self.closed = true;
                false
            },
            Arrival::Abandoned => false,
            Arrival::Request(n) => {
                let ghost before = self.requests@;
                if self.requests.len() > 0 && n > max_rows - self.rows {
                    self.closed = true;
                    self.kept = Some(n);
                    return false;
                }
                self.requests.push(n);
                self.rows = self.rows.saturating_add(n);
                proof {
                    assert(self.requests@.drop_last() =~= before);
                }
                true
            },
        }
    }

    /// What the worker has gathered for the pass after this one: the request it kept, unless its
    /// caller gave up meanwhile.
    pub fn after(&self, live: bool) -> (r: Gathering)
        ensures
            r.requests@ == (match self.kept {
                Some(n) => if live {
                    seq![n]
                } else {
                    Seq::empty()
                },
                None => Seq::empty(),
            }),
            !r.closed,
            r.kept is None,
            forall|max_rows: usize| r.wf(max_rows),
    {
        let mut r = Gathering::new();
        match self.kept {
            Some(n) => {
                if live {
                    r.requests.push(n);
                    r.rows = n;
                    proof {
                        assert(r.requests@ =~= seq![n]);
                        assert(r.requests@.drop_last() =~= Seq::empty());
                        assert(row_sum(r.requests@.drop_last()) == 0);
                        assert(row_sum(r.requests@) == n);
                    }
                }
            },
            None => {},
        }
        proof {
            assert(row_sum(Seq::empty()) == 0);
            assert(r.requests@ =~= (match self.kept {
                Some(n) => if live {
                    seq![n]
                } else {
                    Seq::empty()
                },
                None => Seq::empty(),
            }));
        }
        r
    }
}

/// A pass takes no more than the most rows, unless it runs one request alone.
pub proof fn lemma_a_pass_keeps_the_most_rows(g: Gathering, max_rows: usize)
    requires
        g.wf(max_rows),
        row_sum(g.requests@) > max_rows,
    ensures
        g.requests@.len() == 1,
{
}

/// What becomes of a batch after its pass.
#[derive(Clone, Copy, PartialEq, Eq, Structural, Debug)]
pub enum Outcome {
    /// Each request gets its outputs.
    Deliver,
    /// Each request runs again, alone, so that only the one at fault fails.
    RunAlone,
    /// The one request fails.
    Fail,
}

/// What becomes of the requests of a pass.
pub open spec fn outcome_of(passed: bool, requests: int) -> Outcome {
    if passed {
        Outcome::Deliver
    } else if requests > 1 {
        Outcome::RunAlone
    } else {
        Outcome::Fail
    }
}

/// No request fails for another: a pass that fails is only given up when it held a single request,
/// and one that does not fail is delivered.
pub proof fn lemma_requests_fail_alone(passed: bool, requests: int)
    ensures
        passed <==> outcome_of(passed, requests) == Outcome::Deliver,
        outcome_of(passed, requests) == Outcome::Fail ==> requests <= 1,
        outcome_of(passed, requests) == Outcome::RunAlone ==> requests > 1,
{
}

/// What becomes of a batch of so many requests after its pass.
pub fn after_pass(passed: bool, requests: usize) -> (r: Outcome)
    ensures
        r == (if passed {
            Outcome::Deliver
        } else if requests > 1 {
            Outcome::RunAlone
        } else {
            Outcome::Fail
        }),
        r == outcome_of(passed, requests as int),
{
    if passed {
        Outcome::Deliver
    } else if requests > 1 {
        Outcome::RunAlone
    } else {
        Outcome::Fail
    }
}

/// A pass runs on the widest pool within its share: any other that is within it comes before.
pub proof fn lemma_pools_are_as_wide_as_their_share(widths: Seq<int>, share: int, i: int)
    requires
        0 <= i < widths.len(),
        widths[i] <= share,
    ensures
        i <= width_for(widths, share) < widths.len(),
        widths[width_for(widths, share)] <= share,
    decreases widths.len(),
{
    if widths.last() > share {
        let rest = widths.drop_last();
        assert(rest[i] == widths[i]);
        lemma_pools_are_as_wide_as_their_share(rest, share, i);
    }
}

/// The cores are shared out evenly: the shares of the passes that run and wait are no more than the
/// cores together, and one core more each would be too many; alone a pass has all.
pub proof fn lemma_cores_are_shared_out(cores: int, running: int, waiting: int)
    requires
        cores >= 0,
        running >= 0,
        waiting >= 0,
        running + waiting >= 1,
    ensures
        core_share(cores, running, waiting) * (running + waiting) <= cores,
        (core_share(cores, running, waiting) + 1) * (running + waiting) > cores,
        running + waiting == 1 ==> core_share(cores, running, waiting) == cores,
{
    let n = running + waiting;
    vstd::arithmetic::div_mod::lemma_fundamental_div_mod(cores, n);
    let q = cores / n;
    assert(q * n <= cores && (q + 1) * n > cores) by (nonlinear_arith)
        requires
            cores == n * q + cores % n,
            0 <= cores % n < n,
    ;
    if n == 1 {
        vstd::arithmetic::div_mod::lemma_div_basics_2(cores);
        assert(core_share(cores, running, waiting) == cores / n);
    }
}

/// A worker's pools double from one to the next, but for the last, which has every core; one that
/// does not adapt has its base alone, and one without a width of its own has none.
pub proof fn lemma_pools_double(base: int, adaptive: bool, cores: int, i: int)
    requires
        base >= 0,
        cores >= 0,
    ensures
        ({
            let w = widths(base, adaptive, cores);
            &&& base == 0 ==> w.len() == 0
            &&& base > 0 && (!adaptive || base >= cores) ==> w == seq![base]
            &&& base > 0 && adaptive && base < cores ==> {
                &&& w.len() >= 2
                &&& w[0] == base
                &&& w.last() == cores
                &&& 0 <= i < w.len() - 2 ==> w[i + 1] == 2 * w[i]
                &&& 2 * w[w.len() - 2] >= cores
            }
        }),
{
    if base > 0 && adaptive && base < cores {
        lemma_doubling(base, cores, i);
    }
}

proof fn lemma_doubling(w: int, cores: int, i: int)
    requires
        0 < w < cores,
    ensures
        ({
            let d = doubled(w, cores);
            &&& d.len() >= 2
            &&& d[0] == w
            &&& d.last() == cores
            &&& 0 <= i < d.len() - 2 ==> d[i + 1] == 2 * d[i]
            &&& 2 * d[d.len() - 2] >= cores
        }),
    decreases cores - w,
{
    let rest = doubled(2 * w, cores);
    let d = doubled(w, cores);
    assert(d =~= seq![w] + rest);
    if 2 * w < cores {
        lemma_doubling(2 * w, cores, i - 1);
        if 0 <= i < d.len() - 2 {
            if i > 0 {
                assert(d[i + 1] == rest[i] && d[i] == rest[i - 1]);
            } else {
                assert(d[1] == rest[0]);
            }
        }
        assert(d[d.len() - 2] == rest[rest.len() - 2]);
    } else {
        assert(rest =~= seq![cores]);
    }
}

} // verus!
