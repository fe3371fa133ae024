//! A request's rows, run round by round.
//!
//! Round one asks every question of every state chunk; only choices whose options ran in batches
//! need more. A caller takes the rows of a round, runs them, combines the outputs of one batch
//! over the state chunks, and feeds them back, until there are no rows.

use vstd::prelude::*;
use vstd::string::*;

use crate::agent::{self, same_ids, RowOutput};
use crate::config::AgentConfig;
use crate::json::Json;
use crate::model::Layout;
use crate::pipeline::{self, chunk_spans, first_round, fit_question, Budget, Truncation};
use crate::sequence::{
    self, encode_state, joint_row, prefix_row, question_parts, Encoded, PartsV, QType, Question,
    QuestionParts, QuestionV, Specials,
};
use crate::tournament::{self, merge_rounds, next_round, Placement};

verus! {

// ---------------------------------------------------------------------------------------------
// Counting tokens

/// Whether options stand in the order of the request.
pub open spec fn ascending(s: Seq<usize>) -> bool {
    forall|a: int, b: int| 0 <= a < b < s.len() ==> #[trigger] s[a] < #[trigger] s[b]
}

/// Options in order have no more tokens than all options.
proof fn lemma_ascending_tokens(opts: Seq<Seq<u32>>, s: Seq<usize>, k: nat)
    requires
        k <= opts.len(),
        ascending(s),
        forall|i: int| 0 <= i < s.len() ==> (#[trigger] s[i]) < k,
    ensures
        sequence::tokens_in(opts, s) <= sequence::flat(opts.take(k as int)).len(),
    decreases k,
{
    if k == 0 {
        assert(s.len() == 0) by {
            if s.len() > 0 {
                assert(s[0] < k);
            }
        }
    } else {
        assert(opts.take(k as int).drop_last() =~= opts.take(k - 1));
        if s.len() > 0 && s.last() == k - 1 {
            let t = s.drop_last();
            assert forall|i: int| 0 <= i < t.len() implies (#[trigger] t[i]) < k - 1 by {
                assert(s[i] < s[s.len() - 1]);
            }
            assert(ascending(t)) by {
                assert forall|a: int, b: int| 0 <= a < b < t.len() implies #[trigger] t[a]
                    < #[trigger] t[b] by {
                    assert(s[a] < s[b]);
                }
            }
            lemma_ascending_tokens(opts, t, (k - 1) as nat);
        } else {
            assert forall|i: int| 0 <= i < s.len() implies (#[trigger] s[i]) < k - 1 by {
                assert(s[s.len() - 1] < k);
                if i < s.len() - 1 {
                    assert(s[i] < s[s.len() - 1]);
                }
            }
            lemma_ascending_tokens(opts, s, (k - 1) as nat);
        }
    }
}

/// A batch has no more tokens than all batches together.
proof fn lemma_batch_tokens(opts: Seq<Seq<u32>>, bs: Seq<Seq<usize>>, i: int)
    requires
        0 <= i < bs.len(),
    ensures
        sequence::tokens_in(opts, bs[i]) <= sequence::tokens_in(opts, pipeline::concat(bs)),
    decreases bs.len(),
{
    let c = pipeline::concat(bs.drop_last());
    tournament::lemma_tokens_in_add(opts, c, bs.last());
    if i < bs.len() - 1 {
        lemma_batch_tokens(opts, bs.drop_last(), i);
        assert(bs.drop_last()[i] == bs[i]);
    }
}

/// Whether a round's batches hold options in the order of the request, each batch at least one.
pub open spec fn good_round(k: nat, round: Seq<Seq<usize>>) -> bool {
    &&& round.len() >= 1
    &&& tournament::sound_round(k, round)
    &&& ascending(pipeline::concat(round))
}

/// Whether a question's tokens can be counted.
pub open spec fn measured(p: PartsV) -> bool {
    &&& p.opts.len() >= 1
    &&& p.head.len() + 3 + sequence::flat(p.opts).len() <= usize::MAX
}

proof fn lemma_countable(p: PartsV, round: Seq<Seq<usize>>)
    requires
        measured(p),
        good_round(p.opts.len(), round),
    ensures
        pipeline::countable(p, round),
{
    let s = pipeline::concat(round);
    assert forall|m: int| 0 <= m < s.len() implies (#[trigger] s[m]) < p.opts.len() by {
        tournament::lemma_concat_contains(round, s[m]);
        let (i, j) = choose|i: int, j: int|
            0 <= i < round.len() && 0 <= j < round[i].len() && #[trigger] round[i][j] == s[m];
        assert(round[i].len() > 0);
    }
    lemma_ascending_tokens(p.opts, s, p.opts.len());
    assert(p.opts.take(p.opts.len() as int) =~= p.opts);
    assert forall|i: int| 0 <= i < round.len() implies sequence::names_options(
        p.opts,
        #[trigger] round[i],
    ) && p.tokens(round[i]) <= usize::MAX by {
        assert(round[i].len() > 0);
        lemma_batch_tokens(p.opts, round, i);
    }
}

proof fn lemma_indices_ascending(k: nat)
    requires
        k <= usize::MAX,
    ensures
        ascending(pipeline::indices(k)),
{
}

/// Round one of a question is a good round over all its options.
proof fn lemma_first_round(t: QType, p: PartsV, budget: Budget)
    requires
        measured(p),
        p.opts.len() <= usize::MAX,
    ensures
        good_round(p.opts.len(), pipeline::first_batches(t, p, budget)),
        pipeline::concat(pipeline::first_batches(t, p, budget)) == pipeline::indices(
            p.opts.len(),
        ),
        sequence::tokens_in(p.opts, pipeline::indices(p.opts.len())) <= usize::MAX,
{
    let k = p.opts.len();
    let all = pipeline::indices(k);
    let r = pipeline::first_batches(t, p, budget);
    let limit = pipeline::option_room(p.head.len(), budget.option_budget as nat);
    lemma_indices_ascending(k);
    lemma_ascending_tokens(p.opts, all, k);
    assert(p.opts.take(k as int) =~= p.opts);
    if r == seq![all] {
        reveal_with_fuel(pipeline::concat, 2);
        assert(r.drop_last() =~= Seq::empty());
        assert(pipeline::concat(r) =~= all);
    } else {
        pipeline::lemma_packing_keeps_order_and_pairs(p.opts, all, limit as nat);
    }
    assert forall|i: int| 0 <= i < r.len() implies (#[trigger] r[i]).len() > 0 && forall|j: int|
        0 <= j < r[i].len() ==> (#[trigger] r[i][j]) < k by {
        assert forall|j: int| 0 <= j < r[i].len() implies (#[trigger] r[i][j]) < k by {
            tournament::lemma_concat_contains(r, r[i][j]);
            let m = choose|m: int| 0 <= m < all.len() && all[m] == r[i][j];
        }
    }
}

/// The next round is a good round as well, and every batch sends an option to it.
proof fn lemma_next_round(
    p: PartsV,
    round: Seq<Seq<usize>>,
    logits: Seq<Seq<u32>>,
    budget: Budget,
    cap: nat,
)
    requires
        measured(p),
        p.opts.len() <= usize::MAX,
        good_round(p.opts.len(), round),
    ensures
        good_round(p.opts.len(), tournament::next_batches(p, round, logits, budget, cap)),
        forall|i: int|
            0 <= i < round.len() ==> tournament::sends_one(
                #[trigger] round[i],
                tournament::next_batches(p, round, logits, budget, cap),
            ),
{
    let k = p.opts.len();
    let next = tournament::next_batches(p, round, logits, budget, cap);
    let limit = tournament::round_limit(p.head.len(), budget.option_budget as nat, cap);
    let kept = tournament::kept(p.opts, tournament::rankings(round, logits), limit);
    let keep = tournament::in_order(kept, k);
    tournament::lemma_next_concat(p, round, logits, budget, cap);
    tournament::lemma_in_order(kept, k);
    assert(ascending(pipeline::concat(next)));
    assert forall|i: int| 0 <= i < round.len() implies tournament::sends_one(
        #[trigger] round[i],
        next,
    ) by {
        tournament::lemma_leaders_advance(p, round, logits, budget, cap, i);
        let o = tournament::ranked(round[i], logits[i])[0];
        let j = choose|j: int| 0 <= j < round[i].len() && #[trigger] round[i][j] == o;
        assert(pipeline::concat(next).contains(round[i][j]));
    }
    assert(keep.len() > 0) by {
        assert(tournament::sends_one(round[0], next));
        let j = choose|j: int|
            0 <= j < round[0].len() && pipeline::concat(next).contains(#[trigger] round[0][j]);
    }
    if next != seq![keep] {
        pipeline::lemma_packing_keeps_order_and_pairs(p.opts, keep, limit as nat);
    }
    assert forall|i: int| 0 <= i < next.len() implies (#[trigger] next[i]).len() > 0 && forall|
        j: int,
    |
        0 <= j < next[i].len() ==> (#[trigger] next[i][j]) < k by {
        assert forall|j: int| 0 <= j < next[i].len() implies (#[trigger] next[i][j]) < k by {
            tournament::lemma_concat_contains(next, next[i][j]);
            let m = choose|m: int| 0 <= m < keep.len() && keep[m] == next[i][j];
        }
    }
}

// ---------------------------------------------------------------------------------------------
// One question

/// One question's progress: the tokens it is asked with, and its rounds.
pub struct QPlan {
    pub q: Question,
    pub parts: QuestionParts,
    pub trunc: Truncation,
    /// The batches of option indices of each round; the last round is running or done.
    pub rounds: Vec<Vec<Vec<usize>>>,
    /// The logits of each batch, combined over the state chunks, of each round that has run.
    pub logits: Vec<Vec<Vec<u32>>>,
    /// The act probabilities of the first batch of the last round that has run.
    pub act: Vec<u32>,
}

impl QPlan {
    /// The batches of each round.
    pub open spec fn batches(self) -> Seq<Seq<Seq<usize>>> {
        tournament::round_batches(self.rounds@)
    }

    /// The logits of each round that has run.
    pub open spec fn results(self) -> Seq<Seq<Seq<u32>>> {
        tournament::round_logits(self.logits@)
    }

    /// Whether the last round has run.
    pub open spec fn answered(self) -> bool {
        self.logits@.len() == self.rounds@.len()
    }

    /// What holds of a question's progress: the first round has all options, each batch sends an
    /// option to the next round, a round that needs another one has it, and what was cut can be
    /// counted.
    pub open spec fn wf(self) -> bool {
        &&& measured(self.parts@)
        &&& self.rounds@.len() >= 1
        &&& self.logits@.len() == self.rounds@.len() || self.logits@.len() + 1
            == self.rounds@.len()
        &&& pipeline::concat(self.batches()[0]) == pipeline::indices(self.parts@.opts.len())
        &&& forall|r: int|
            0 <= r < self.rounds@.len() ==> good_round(
                self.parts@.opts.len(),
                #[trigger] self.batches()[r],
            )
        &&& forall|r: int|
            0 <= r < self.logits@.len() ==> tournament::matches_round(
                self.batches()[r],
                #[trigger] self.results()[r],
            )
        &&& forall|r: int, i: int|
            0 <= r < self.rounds@.len() - 1 && 0 <= i < self.batches()[r].len()
                ==> tournament::sends_one(#[trigger] self.batches()[r][i], self.batches()[r + 1])
        &&& self.trunc.instructions + self.parts@.head.len() <= usize::MAX
        &&& self.trunc.options + sequence::flat(self.parts@.opts).len() <= usize::MAX
        &&& self.answered() ==> self.batches().last().len() == 1
    }
}

// ---------------------------------------------------------------------------------------------
// All questions of a request

/// A request's rows, run round by round.
pub struct Plan {
    pub qs: Vec<QPlan>,
    /// Each chunk of the state, as the tokens a row carries (with the state first, the whole
    /// `[CLS] chunk [SEP]`).
    pub chunks: Vec<Vec<u32>>,
    pub layout: Layout,
    pub budget: Budget,
    pub specials: Specials,
    /// The question and the batch behind each row that was handed out last, per chunk.
    pub pending: Vec<(usize, usize)>,
    pub state_tokens: usize,
    pub input_tokens: usize,
}

/// Tokens of a row besides the question part: the state's closing separator, and the token that
/// opens it when it comes first.
pub open spec fn overhead(layout: Layout) -> int {
    match layout {
        Layout::Laya => 1,
        Layout::Prefix => 2,
    }
}

/// The smaller of two numbers.
pub open spec fn smaller(a: int, b: int) -> int {
    if a <= b {
        a
    } else {
        b
    }
}

/// The most tokens a question part may have: what the encoder's positions leave beside the least
/// state.
pub open spec fn question_cap(layout: Layout, budget: Budget, state: nat) -> int {
    sequence::larger(
        budget.max_window - overhead(layout) - smaller(budget.min_state as int, state as int),
        0,
    )
}

/// A question's tokens as it is asked: cut where it is too long for the encoder.
pub open spec fn asked_parts(
    t: QType,
    p: PartsV,
    layout: Layout,
    budget: Budget,
    state: nat,
) -> PartsV {
    pipeline::fitted(
        p,
        pipeline::first_batches(t, p, budget),
        question_cap(layout, budget, state) as nat,
    )
}

/// The tokens of the longest question part of round one.
pub open spec fn longest_question(
    ts: Seq<QType>,
    ps: Seq<PartsV>,
    layout: Layout,
    budget: Budget,
    state: nat,
) -> nat
    decreases ps.len(),
{
    if ps.len() == 0 {
        0
    } else {
        let n = longest_question(ts, ps.drop_last(), layout, budget, state);
        let t = ts[ps.len() - 1];
        let p = ps.last();
        let m = pipeline::longest(
            asked_parts(t, p, layout, budget, state),
            pipeline::first_batches(t, p, budget),
        );
        if m >= n {
            m
        } else {
            n
        }
    }
}

/// The room each chunk of the state has: what the longest question leaves of the trained length,
/// but no less than the least state.
pub open spec fn chunk_room(
    layout: Layout,
    budget: Budget,
    state: nat,
    question: nat,
) -> int {
    sequence::larger(
        sequence::larger(
            budget.max_len - question - overhead(layout),
            smaller(budget.min_state as int, state as int),
        ),
        1,
    )
}

/// A chunk of the state as rows carry it.
pub open spec fn chunk_tokens(
    cls: u32,
    sep: u32,
    layout: Layout,
    state: Seq<u32>,
    span: (int, int),
) -> Seq<u32> {
    let part = state.subrange(span.0, span.1);
    match layout {
        Layout::Laya => part,
        Layout::Prefix => seq![cls] + part + seq![sep],
    }
}

/// The types of several questions.
pub open spec fn types(qs: Seq<QuestionV>) -> Seq<QType> {
    Seq::new(qs.len(), |i: int| qs[i].t)
}

/// Whether a question's progress is at its start.
pub open spec fn starts(
    q: QPlan,
    question: QuestionV,
    p: PartsV,
    layout: Layout,
    budget: Budget,
    state: nat,
) -> bool {
    let first = pipeline::first_batches(question.t, p, budget);
    let cut = asked_parts(question.t, p, layout, budget, state);
    &&& q.q@ == question
    &&& q.parts@ == cut
    &&& q.batches() == seq![first]
    &&& q.logits@.len() == 0
    &&& q.trunc.instructions == p.head.len() - cut.head.len()
    &&& q.trunc.options == sequence::flat(p.opts).len() - sequence::flat(cut.opts).len()
    &&& q.trunc.question_tokens == pipeline::longest(p, first)
    &&& q.trunc.limit == question_cap(layout, budget, state)
}

impl Plan {
    /// Whether this is the plan, before any round, for a state and questions of these tokens.
    pub open spec fn begins(
        self,
        cls: u32,
        sep: u32,
        layout: Layout,
        budget: Budget,
        state: Seq<u32>,
        questions: Seq<QuestionV>,
        ps: Seq<PartsV>,
    ) -> bool {
        let longest = longest_question(types(questions), ps, layout, budget, state.len());
        let spans = pipeline::spans(
            state.len(),
            chunk_room(layout, budget, state.len(), longest) as nat,
            budget.overlap as nat,
        );
        &&& self.qs@.len() == questions.len()
        &&& ps.len() == questions.len()
        &&& forall|i: int|
            0 <= i < questions.len() ==> starts(
                #[trigger] self.qs@[i],
                questions[i],
                ps[i],
                layout,
                budget,
                state.len(),
            )
        &&& sequence::runs(self.chunks@) == Seq::new(
            spans.len(),
            |i: int| chunk_tokens(cls, sep, layout, state, spans[i]),
        )
        &&& self.layout == layout
        &&& self.budget == budget
        &&& self.specials.cls == cls
        &&& self.specials.sep == sep
        &&& self.pending@.len() == 0
        &&& self.state_tokens == state.len()
        &&& self.input_tokens == 0
    }

    /// What holds of a plan between calls.
    pub open spec fn wf(self) -> bool {
        &&& self.chunks@.len() >= 1
        &&& self.layout == Layout::Prefix ==> forall|c: int|
            0 <= c < self.chunks@.len() ==> (#[trigger] self.chunks@[c])@.len() > 0
        &&& forall|i: int| 0 <= i < self.qs@.len() ==> (#[trigger] self.qs@[i]).wf()
        &&& self.pending@.len() * self.chunks@.len() <= usize::MAX
        &&& self.pending@.len() == 0 || int_pairs_of(self.pending@) == unfinished(self.qs@)
    }
}

/// The longest of several chunks.
pub open spec fn longest_chunk(chunks: Seq<Seq<u32>>) -> nat
    decreases chunks.len(),
{
    if chunks.len() == 0 {
        0
    } else {
        let n = longest_chunk(chunks.drop_last());
        if chunks.last().len() >= n {
            chunks.last().len()
        } else {
            n
        }
    }
}

impl Plan {
    /// Tokens of a row besides the question part and the chunk.
    pub open spec fn beside(self) -> nat {
        match self.layout {
            Layout::Laya => 1,
            Layout::Prefix => 0,
        }
    }

    /// The most tokens a question part may have beside the longest chunk of the state.
    pub open spec fn question_room(self) -> nat {
        sequence::larger(
            self.budget.max_window - self.beside() - longest_chunk(sequence::runs(self.chunks@)),
            0,
        ) as nat
    }
}

/// Whether nothing more may be cut of the longest of several batches.
pub open spec fn cut_down(p: PartsV, bs: Seq<Seq<usize>>) -> bool {
    let batch = bs[pipeline::longest_at(p, bs)];
    &&& p.head.len() <= 16
    &&& forall|i: int| 0 <= i < batch.len() ==> p.opts[#[trigger] batch[i] as int].len() <= 2
}

impl Plan {
    /// Whether every question that has rows to come leaves room for every chunk of the state, as
    /// far as it may be cut.
    pub open spec fn fits(self) -> bool {
        forall|i: int|
            0 <= i < self.qs@.len() && !(#[trigger] self.qs@[i]).answered() ==> {
                let bs = self.qs@[i].batches().last();
                let p = self.qs@[i].parts@;
                pipeline::longest(p, bs) <= self.question_room() || cut_down(p, bs)
            }
    }
}

/// Pairs as integers.
pub open spec fn int_pairs_of(v: Seq<(usize, usize)>) -> Seq<(int, int)> {
    Seq::new(v.len(), |i: int| (v[i].0 as int, v[i].1 as int))
}

/// The questions whose last round has not run, with each batch of that round.
pub open spec fn unfinished(qs: Seq<QPlan>) -> Seq<(int, int)>
    decreases qs.len(),
{
    if qs.len() == 0 {
        Seq::empty()
    } else {
        let q = qs.last();
        unfinished(qs.drop_last()) + if q.answered() {
            Seq::empty()
        } else {
            Seq::new(q.batches().last().len(), |b: int| (qs.len() - 1, b))
        }
    }
}

/// The tokens of each question.
pub open spec fn part_values(v: Seq<(Question, QuestionParts)>) -> Seq<PartsV> {
    Seq::new(v.len(), |i: int| v[i].1@)
}

/// The values of several questions.
pub open spec fn question_values(v: Seq<(Question, QuestionParts)>) -> Seq<QuestionV> {
    Seq::new(v.len(), |i: int| v[i].0@)
}

/// A chunk of the state as rows carry it.
fn build_chunk(sp: &Specials, layout: Layout, state: &[u32], a: usize, b: usize) -> (r: Vec<u32>)
    requires
        a <= b <= state@.len(),
    ensures
        r@ == chunk_tokens(sp.cls, sp.sep, layout, state@, (a as int, b as int)),
{
    let mut r: Vec<u32> = Vec::new();
    if layout == Layout::Prefix {
        r.push(sp.cls);
    }
    r.extend_from_slice(&state[a..b]);
    if layout == Layout::Prefix {
        r.push(sp.sep);
    }
    proof {
        assert(r@ =~= chunk_tokens(sp.cls, sp.sep, layout, state@, (a as int, b as int)));
    }
    r
}

/// One question at its start.
fn start_question(q: Question, parts: QuestionParts, budget: &Budget, cap: usize) -> (r: (
    QPlan,
    usize,
))
    requires
        measured(parts@),
    ensures
        ({
            let first = pipeline::first_batches(q@.t, parts@, *budget);
            let cut = pipeline::fitted(parts@, first, cap as nat);
            &&& r.0.q@ == q@
            &&& r.0.parts@ == cut
            &&& r.0.batches() == seq![first]
            &&& r.0.logits@.len() == 0
            &&& r.0.trunc.instructions == parts@.head.len() - cut.head.len()
            &&& r.0.trunc.options == sequence::flat(parts@.opts).len() - sequence::flat(
                cut.opts,
            ).len()
            &&& r.0.trunc.question_tokens == pipeline::longest(parts@, first)
            &&& r.0.trunc.limit == cap
            &&& r.0.wf()
            &&& r.1 == pipeline::longest(cut, first)
        }),
{
    let mut parts = parts;
    let ghost p = parts@;
    let k: usize = parts.opts.len();
    proof {
        assert(k == p.opts.len());
        lemma_first_round(q.t, p, *budget);
    }
    let first = first_round(q.t, &parts, budget);
    let ghost bs = pipeline::batches(first@);
    proof {
        lemma_countable(p, bs);
    }
    let trunc = fit_question(&mut parts, first.as_slice(), cap);
    let ghost cut = parts@;
    proof {
        pipeline::lemma_fitting(p, bs, cap as nat);
        lemma_shrunk(p, cut);
        assert(measured(cut));
        lemma_countable(cut, bs);
    }
    let (_, size) = pipeline::find_longest(&parts, first.as_slice());
    let mut rounds: Vec<Vec<Vec<usize>>> = Vec::new();
    rounds.push(first);
    let r = QPlan { q, parts, trunc, rounds, logits: Vec::new(), act: Vec::new() };
    proof {
        assert(r.batches() =~= seq![bs]);
        assert(r.batches()[0] == bs);
    }
    (r, size)
}

/// Cutting options leaves no more tokens.
proof fn lemma_shrunk(p: PartsV, q: PartsV)
    requires
        p.opts.len() == q.opts.len(),
        forall|i: int| 0 <= i < p.opts.len() ==> (#[trigger] q.opts[i]).len() <= p.opts[i].len(),
    ensures
        sequence::flat(q.opts).len() <= sequence::flat(p.opts).len(),
    decreases p.opts.len(),
{
    if p.opts.len() > 0 {
        let a = PartsV { head: p.head, opts: p.opts.drop_last() };
        let b = PartsV { head: q.head, opts: q.opts.drop_last() };
        assert forall|i: int| 0 <= i < a.opts.len() implies (#[trigger] b.opts[i]).len()
            <= a.opts[i].len() by {
            assert(q.opts[i].len() <= p.opts[i].len());
        }
        lemma_shrunk(a, b);
        assert(q.opts[q.opts.len() - 1].len() <= p.opts[p.opts.len() - 1].len());
    }
}

impl Plan {
    /// The plan for a state and questions whose tokens are known.
    pub fn of_tokens(
        sp: &Specials,
        layout: Layout,
        budget: &Budget,
        state_ids: &[u32],
        asked: Vec<(Question, QuestionParts)>,
    ) -> (r: Plan)
        requires
            forall|i: int| 0 <= i < asked@.len() ==> measured((#[trigger] asked@[i]).1@),
        ensures
            r.begins(
                sp.cls,
                sp.sep,
                layout,
                *budget,
                state_ids@,
                question_values(asked@),
                part_values(asked@),
            ),
            r.specials.mask == sp.mask,
            r.specials.pad == sp.pad,
            r.specials.mask_token@ == sp.mask_token@,
            r.wf(),
    {
        let n: usize = state_ids.len();
        let over: usize = match layout {
            Layout::Laya => 1,
            Layout::Prefix => 2,
        };
        let floor: usize = if budget.min_state <= n {
            budget.min_state
        } else {
            n
        };
        let cap: usize = budget.max_window.saturating_sub(over).saturating_sub(floor);
        let ghost qv = question_values(asked@);
        let ghost pv = part_values(asked@);
        let ghost ts = types(qv);
        let ghost count = asked@.len();
        let mut qs: Vec<QPlan> = Vec::new();
        let mut longest: usize = 0;
        proof {
            assert(pv.take(0) =~= Seq::empty());
        }
        for x in it: asked
            invariant
                it.seq().len() == count,
                forall|j: int| 0 <= j < count ==> (#[trigger] it.seq()[j]).0@ == qv[j],
                forall|j: int| 0 <= j < count ==> (#[trigger] it.seq()[j]).1@ == pv[j],
                forall|j: int| 0 <= j < count ==> measured((#[trigger] it.seq()[j]).1@),
                count == qv.len(),
                count == pv.len(),
                ts == types(qv),
                cap == question_cap(layout, *budget, n as nat),
                qs@.len() == it.index(),
                forall|j: int|
                    0 <= j < it.index() ==> starts(
                        #[trigger] qs@[j],
                        qv[j],
                        pv[j],
                        layout,
                        *budget,
                        n as nat,
                    ) && qs@[j].wf(),
                longest == longest_question(
                    ts,
                    pv.take(it.index() as int),
                    layout,
                    *budget,
                    n as nat,
                ),
        {
            let ghost m = it.index() as int;
            proof {
                assert(x == it.seq()[m]);
                assert(pv.take(m + 1).drop_last() =~= pv.take(m));
            }
            let (q, size) = start_question(x.0, x.1, budget, cap);
            proof {
                assert(starts(q, qv[m], pv[m], layout, *budget, n as nat));
            }
            if size >= longest {
                longest = size;
            }
            qs.push(q);
        }
        proof {
            assert(pv.take(count as int) =~= pv);
        }
        let left: usize = budget.max_len.saturating_sub(longest).saturating_sub(over);
        let room: usize = if left >= floor {
            left
        } else {
            floor
        };
        let room: usize = if room >= 1 {
            room
        } else {
            1
        };
        let spans = chunk_spans(n, room, budget.overlap);
        let ghost all = pipeline::spans(n as nat, room as nat, budget.overlap as nat);
        proof {
            pipeline::lemma_chunks_cover_the_state(n as nat, room as nat, budget.overlap as nat);
        }
        let mut chunks: Vec<Vec<u32>> = Vec::new();
        let mut c: usize = 0;
        while c < spans.len()
            invariant
                c <= spans@.len(),
                n == state_ids@.len(),
                pipeline::int_pairs(spans@) == all,
                forall|i: int|
                    0 <= i < all.len() ==> 0 <= (#[trigger] all[i]).0 <= all[i].1 <= n,
                chunks@.len() == c,
                forall|j: int|
                    0 <= j < c ==> (#[trigger] chunks@[j])@ == chunk_tokens(
                        sp.cls,
                        sp.sep,
                        layout,
                        state_ids@,
                        all[j],
                    ),
            decreases spans@.len() - c,
        {
            proof {
                assert(all[c as int] == pipeline::int_pairs(spans@)[c as int]);
            }
            let chunk = build_chunk(sp, layout, state_ids, spans[c].0, spans[c].1);
            chunks.push(chunk);
            c += 1;
        }
        let r = Plan {
            qs,
            chunks,
            layout,
            budget: *budget,
            specials: sp.copy(),
            pending: Vec::new(),
            state_tokens: n,
            input_tokens: 0,
        };
        proof {
            assert(pipeline::int_pairs(spans@).len() == all.len());
            assert(sequence::runs(r.chunks@) =~= Seq::new(
                all.len(),
                |i: int| chunk_tokens(sp.cls, sp.sep, layout, state_ids@, all[i]),
            ));
            assert(r.pending@.len() * r.chunks@.len() == 0) by (nonlinear_arith)
                requires
                    r.pending@.len() == 0,
            ;
            if layout == Layout::Prefix {
                assert forall|c: int| 0 <= c < r.chunks@.len() implies (
                #[trigger] r.chunks@[c])@.len() > 0 by {
                    assert(r.chunks@[c]@ == chunk_tokens(
                        sp.cls,
                        sp.sep,
                        layout,
                        state_ids@,
                        all[c],
                    ));
                }
            }
        }
        r
    }
}

/// Why a request has no plan.
#[derive(Debug, PartialEq, Eq)]
pub enum PlanError {
    /// The tokenizer refused a text.
    Tokenizer(String),
    /// A question has no options.
    NoOptions,
    /// A question has more tokens than a length can count.
    TooLong,
}

impl PlanError {
    /// The error in words.
    pub open spec fn words(self) -> Seq<char> {
        match self {
            PlanError::Tokenizer(m) => m@,
            PlanError::NoOptions => "question has no options"@,
            PlanError::TooLong => "question has too many tokens to count"@,
        }
    }

    /// The error in words.
    pub fn message(&self) -> (r: String)
        ensures
            r@ == self.words(),
    {
        match self {
            PlanError::Tokenizer(m) => m.clone(),
            PlanError::NoOptions => "question has no options".to_owned(),
            PlanError::TooLong => "question has too many tokens to count".to_owned(),
        }
    }
}

/// Whether a question's tokens can be counted.
fn can_measure(p: &QuestionParts) -> (r: bool)
    requires
        p@.opts.len() >= 1,
    ensures
        r == measured(p@),
{
    let mut left: usize = usize::MAX;
    if p.head.len() > left - 3 {
        return false;
    }
    left = left - 3 - p.head.len();
    let ghost all = p@.opts;
    let mut i: usize = 0;
    proof {
        assert(all.take(0) =~= Seq::empty());
    }
    while i < p.opts.len()
        invariant
            i <= p.opts@.len(),
            all == p@.opts,
            all.len() == p.opts@.len(),
            left + p@.head.len() + 3 + sequence::flat(all.take(i as int)).len() == usize::MAX,
        decreases p.opts@.len() - i,
    {
        proof {
            assert(all.take(i + 1).drop_last() =~= all.take(i as int));
        }
        if p.opts[i].len() > left {
            proof {
                sequence::lemma_flat_take(all, i + 1);
            }
            return false;
        }
        left -= p.opts[i].len();
        i += 1;
    }
    proof {
        assert(all.take(i as int) =~= all);
    }
    true
}

/// Whether a question has tokens that can be counted, and an option.
pub open spec fn can_be_asked(tok: tokenizers::Tokenizer, sp: Specials, q: QuestionV) -> bool {
    exists|p: PartsV| #[trigger]
        sequence::tokens_of(tok, sp.mask, sp.mask_token@, q, p) && measured(p)
}

/// Whether the `i`-th question is the first that cannot be asked, and `e` says why.
pub open spec fn cannot_ask(
    tok: tokenizers::Tokenizer,
    sp: Specials,
    qs: Seq<QuestionV>,
    i: int,
    e: PlanError,
) -> bool {
    &&& 0 <= i < qs.len()
    &&& forall|j: int| 0 <= j < i ==> can_be_asked(tok, sp, #[trigger] qs[j])
    &&& match e {
        PlanError::Tokenizer(m) => sequence::refuses_question(tok, sp.mask_token@, qs[i], m@),
        PlanError::NoOptions => {
            &&& sequence::has_tokens(tok, sp.mask, sp.mask_token@, qs[i])
            &&& qs[i].rendered().len() == 0
        },
        PlanError::TooLong => {
            &&& qs[i].rendered().len() > 0
            &&& exists|p: PartsV| #[trigger]
                sequence::tokens_of(tok, sp.mask, sp.mask_token@, qs[i], p) && !measured(p)
        },
    }
}

/// Whether `e` says why there is no plan: the state has no tokens, or it has and a question cannot
/// be asked, the first that cannot.
pub open spec fn cannot_plan(
    tok: tokenizers::Tokenizer,
    sp: Specials,
    text: Seq<char>,
    qs: Seq<QuestionV>,
    e: PlanError,
) -> bool {
    ||| e matches PlanError::Tokenizer(m) && sequence::refuses(tok, text, m@)
    ||| sequence::can_encode(tok, text) && exists|i: int| #[trigger]
        cannot_ask(tok, sp, qs, i, e)
}

impl Plan {
    /// The plan for a state and questions.
    pub fn new(
        tok: &tokenizers::Tokenizer,
        sp: &Specials,
        layout: Layout,
        budget: &Budget,
        state: &Json,
        questions: Vec<Question>,
    ) -> (r: Result<Plan, PlanError>)
        ensures
            ({
                let text = sequence::state_text(state@, sp.mask_token@);
                let qv = Seq::new(questions@.len(), |i: int| questions@[i]@);
                match r {
                    Ok(plan) => {
                        &&& plan.wf()
                        &&& exists|ids: Seq<u32>, ps: Seq<PartsV>|
                            {
                                &&& sequence::encodes(*tok, text, Ok(ids))
                                &&& forall|i: int|
                                    0 <= i < qv.len() ==> sequence::tokens_of(
                                        *tok,
                                        sp.mask,
                                        sp.mask_token@,
                                        qv[i],
                                        #[trigger] ps[i],
                                    ) && measured(ps[i])
                                &&& #[trigger] plan.begins(
                                    sp.cls,
                                    sp.sep,
                                    layout,
                                    *budget,
                                    ids,
                                    qv,
                                    ps,
                                )
                            }
                    },
                    Err(e) => cannot_plan(*tok, *sp, text, qv, e),
                }
            }),
    {
        let ghost qv = Seq::new(questions@.len(), |i: int| questions@[i]@);
        let ids = match encode_state(tok, sp, state) {
            Ok(ids) => ids,
            Err(m) => return Err(PlanError::Tokenizer(m)),
        };
        let mut asked: Vec<(Question, QuestionParts)> = Vec::new();
        for q in it: questions
            invariant
                it.seq().len() == qv.len(),
                qv == Seq::new(questions@.len(), |i: int| questions@[i]@),
                sequence::encodes(*tok, sequence::state_text(state@, sp.mask_token@), Ok(ids@)),
                forall|j: int| 0 <= j < qv.len() ==> (#[trigger] it.seq()[j])@ == qv[j],
                asked@.len() == it.index(),
                forall|j: int|
                    0 <= j < it.index() ==> (#[trigger] asked@[j]).0@ == qv[j]
                        && sequence::tokens_of(
                        *tok,
                        sp.mask,
                        sp.mask_token@,
                        qv[j],
                        asked@[j].1@,
                    ) && measured(asked@[j].1@),
        {
            let ghost m = it.index() as int;
            proof {
                assert(q == it.seq()[m]);
                assert(q@ == qv[m]);
                assert forall|j: int| 0 <= j < m implies can_be_asked(
                    *tok,
                    *sp,
                    #[trigger] qv[j],
                ) by {
                    assert(asked@[j].0@ == qv[j]);
                }
            }
            let parts = match question_parts(tok, sp, &q) {
                Ok(p) => p,
                Err(e) => {
                    let r = PlanError::Tokenizer(e);
                    proof {
                        assert(cannot_ask(*tok, *sp, qv, m, r));
                    }
                    return Err(r);
                },
            };
            proof {
                assert(sequence::tokens_of(*tok, sp.mask, sp.mask_token@, qv[m], parts@));
            }
            if parts.opts.len() == 0 {
                proof {
                    assert(qv[m].rendered().len() == 0);
                    assert(cannot_ask(*tok, *sp, qv, m, PlanError::NoOptions));
                }
                return Err(PlanError::NoOptions);
            }
            if !can_measure(&parts) {
                proof {
                    assert(cannot_ask(*tok, *sp, qv, m, PlanError::TooLong));
                }
                return Err(PlanError::TooLong);
            }
            asked.push((q, parts));
        }
        let ghost ps = part_values(asked@);
        let ghost qs = question_values(asked@);
        let plan = Plan::of_tokens(sp, layout, budget, ids.as_slice(), asked);
        proof {
            assert(qs =~= qv);
            assert forall|i: int| 0 <= i < qv.len() implies sequence::tokens_of(
                *tok,
                sp.mask,
                sp.mask_token@,
                qv[i],
                #[trigger] ps[i],
            ) && measured(ps[i]) by {
                assert(asked@[i].0@ == qv[i]);
            }
            assert(plan.begins(sp.cls, sp.sep, layout, *budget, ids@, qv, ps));
        }
        Ok(plan)
    }

    /// State chunks each question is asked against (1 when the state fits).
    pub fn state_chunks(&self) -> (n: usize)
        ensures
            n == self.chunks@.len(),
    {
        self.chunks.len()
    }

    /// Tokens in the serialized state.
    pub fn state_tokens(&self) -> (n: usize)
        ensures
            n == self.state_tokens,
    {
        self.state_tokens
    }

    /// What a question lost to the encoder's position limit.
    pub fn truncation(&self, question: usize) -> (t: Truncation)
        requires
            question < self.qs@.len(),
        ensures
            t == self.qs@[question as int].trunc,
    {
        self.qs[question].trunc
    }

    /// Batches per round for a question (one for a question asked in one row).
    pub fn rounds(&self, question: usize) -> (r: Vec<usize>)
        requires
            question < self.qs@.len(),
        ensures
            r@.len() == self.qs@[question as int].rounds@.len(),
            forall|i: int|
                0 <= i < r@.len() ==> #[trigger] r@[i] == self.qs@[question as int].batches()[i].len(),
    {
        let q = &self.qs[question];
        let mut r: Vec<usize> = Vec::new();
        let mut i: usize = 0;
        while i < q.rounds.len()
            invariant
                i <= q.rounds@.len(),
                r@.len() == i,
                forall|j: int| 0 <= j < i ==> #[trigger] r@[j] == q.batches()[j].len(),
            decreases q.rounds@.len() - i,
        {
            r.push(q.rounds[i].len());
            i += 1;
        }
        r
    }

    /// Tokens the model has read so far (each chunk of a state that comes first counted once).
    pub fn input_tokens(&self) -> (n: usize)
        ensures
            n == self.input_tokens,
    {
        self.input_tokens
    }
}

// ---------------------------------------------------------------------------------------------
// Rows of a round

/// The value of a row.
#[verifier::ext_equal]
pub struct RowV {
    pub ids: Seq<u32>,
    pub markers: Seq<int>,
    pub qtype: QType,
    pub prefix: nat,
}

/// The value of a row.
pub open spec fn row_value(e: Encoded) -> RowV {
    RowV {
        ids: e.ids@,
        markers: sequence::ints(e.markers@),
        qtype: e.qtype,
        prefix: e.prefix_len as nat,
    }
}

/// The values of several rows.
pub open spec fn row_values(v: Seq<Encoded>) -> Seq<RowV> {
    Seq::new(v.len(), |i: int| row_value(v[i]))
}

/// The row that asks one batch of a question of one chunk of the state.
pub open spec fn row_of(
    cls: u32,
    sep: u32,
    layout: Layout,
    qtype: QType,
    p: PartsV,
    batch: Seq<usize>,
    chunk: Seq<u32>,
) -> RowV {
    let opts = sequence::chosen(p.opts, batch);
    let question = sequence::question_ids(cls, sep, p.head, opts);
    match layout {
        Layout::Laya => RowV {
            ids: question + chunk + seq![sep],
            markers: sequence::marker_places(0, p.head.len(), opts),
            qtype,
            prefix: 0,
        },
        Layout::Prefix => RowV {
            ids: chunk + question,
            markers: sequence::marker_places(chunk.len(), p.head.len(), opts),
            qtype,
            prefix: chunk.len(),
        },
    }
}

impl Plan {
    /// The row behind one pending batch, for one chunk.
    pub open spec fn row(self, which: (int, int), chunk: Seq<u32>) -> RowV {
        let q = self.qs@[which.0];
        row_of(
            self.specials.cls,
            self.specials.sep,
            self.layout,
            q.q.t,
            q.parts@,
            q.batches().last()[which.1],
            chunk,
        )
    }

    /// The rows of the next round for several chunks: those of one chunk stand together, in the
    /// order of the questions and their batches.
    pub open spec fn round_rows(self, chunks: Seq<Seq<u32>>) -> Seq<RowV>
        decreases chunks.len(),
    {
        if chunks.len() == 0 {
            Seq::empty()
        } else {
            let which = unfinished(self.qs@);
            self.round_rows(chunks.drop_last()) + Seq::new(
                which.len(),
                |j: int| self.row(which[j], chunks.last()),
            )
        }
    }
}

/// The state at the start of a row.
pub open spec fn prefix_of(r: RowV) -> Seq<u32> {
    r.ids.take(r.prefix as int)
}

/// The last state that any of several rows starts with.
pub open spec fn last_prefix(rows: Seq<RowV>) -> Option<Seq<u32>>
    decreases rows.len(),
{
    if rows.len() == 0 {
        None
    } else if rows.last().prefix > 0 {
        Some(prefix_of(rows.last()))
    } else {
        last_prefix(rows.drop_last())
    }
}

/// Tokens the model reads for rows: each run of rows that start with the same state reads it
/// once, and every row its own tokens.
pub open spec fn rows_total(rows: Seq<RowV>) -> nat
    decreases rows.len(),
{
    if rows.len() == 0 {
        0
    } else {
        let r = rows.last();
        let before = rows.drop_last();
        let state = if r.prefix > 0 && last_prefix(before) != Some(prefix_of(r)) {
            r.prefix
        } else {
            0
        };
        rows_total(before) + state + (r.ids.len() - r.prefix) as nat
    }
}

/// A count as far as a length can hold it.
pub open spec fn counted(n: nat) -> nat {
    if n <= usize::MAX {
        n
    } else {
        usize::MAX as nat
    }
}

/// Tokens the model reads for rows, as far as a length can count.
pub fn rows_tokens(rows: &[Encoded]) -> (n: usize)
    requires
        forall|i: int|
            0 <= i < rows@.len() ==> (#[trigger] rows@[i]).prefix_len <= rows@[i].ids@.len(),
    ensures
        n == counted(rows_total(row_values(rows@))),
{
    let ghost all = row_values(rows@);
    let mut total: usize = 0;
    let mut last: Option<usize> = None;
    let mut i: usize = 0;
    proof {
        assert(all.take(0) =~= Seq::empty());
    }
    while i < rows.len()
        invariant
            i <= rows@.len(),
            all == row_values(rows@),
            forall|i: int|
                0 <= i < rows@.len() ==> (#[trigger] rows@[i]).prefix_len <= rows@[i].ids@.len(),
            total == counted(rows_total(all.take(i as int))),
            match last {
                Some(k) => k < i && last_prefix(all.take(i as int)) == Some(prefix_of(all[k as int])),
                None => last_prefix(all.take(i as int)) is None,
            },
        decreases rows@.len() - i,
    {
        let ghost seen = all.take(i as int);
        proof {
            assert(all.take(i + 1).drop_last() =~= seen);
            assert(all.take(i + 1).last() == row_value(rows@[i as int]));
            assert(rows@[i as int].prefix_len <= rows@[i as int].ids@.len());
        }
        let p: usize = rows[i].prefix_len;
        if p > 0 {
            let prefix = &rows[i].ids.as_slice()[0..p];
            proof {
                assert(prefix@ =~= prefix_of(all[i as int]));
            }
            let known = match last {
                Some(k) => {
                    proof {
                        assert(rows@[k as int].prefix_len <= rows@[k as int].ids@.len());
                    }
                    let other = &rows[k].ids.as_slice()[0..rows[k].prefix_len];
                    proof {
                        assert(other@ =~= prefix_of(all[k as int]));
                    }
                    same_ids(prefix, other)
                },
                None => false,
            };
            if !known {
                total = total.saturating_add(p);
            }
            last = Some(i);
        }
        total = total.saturating_add(rows[i].ids.len() - p);
        i += 1;
    }
    proof {
        assert(all.take(i as int) =~= all);
    }
    total
}

/// What is unfinished names a question whose last round has not run, and a batch of that round.
pub proof fn lemma_unfinished(qs: Seq<QPlan>)
    ensures
        forall|j: int|
            0 <= j < unfinished(qs).len() ==> {
                let w = #[trigger] unfinished(qs)[j];
                &&& 0 <= w.0 < qs.len()
                &&& !qs[w.0].answered()
                &&& 0 <= w.1 < qs[w.0].batches().last().len()
            },
    decreases qs.len(),
{
    if qs.len() > 0 {
        let a = qs.drop_last();
        lemma_unfinished(a);
        let u = unfinished(a);
        assert forall|j: int| 0 <= j < unfinished(qs).len() implies {
            let w = #[trigger] unfinished(qs)[j];
            &&& 0 <= w.0 < qs.len()
            &&& !qs[w.0].answered()
            &&& 0 <= w.1 < qs[w.0].batches().last().len()
        } by {
            if j < u.len() {
                assert(unfinished(qs)[j] == u[j]);
                assert(a[u[j].0] == qs[u[j].0]);
            }
        }
    }
}

impl Plan {
    /// The questions whose last round has not run, with each batch of that round.
    fn find_unfinished(&self) -> (r: Vec<(usize, usize)>)
        requires
            self.wf(),
        ensures
            int_pairs_of(r@) == unfinished(self.qs@),
    {
        let ghost all = self.qs@;
        let mut r: Vec<(usize, usize)> = Vec::new();
        let mut i: usize = 0;
        proof {
            assert(all.take(0) =~= Seq::empty());
            assert(int_pairs_of(r@) =~= unfinished(all.take(0)));
        }
        while i < self.qs.len()
            invariant
                i <= self.qs@.len(),
                all == self.qs@,
                self.wf(),
                int_pairs_of(r@) == unfinished(all.take(i as int)),
            decreases self.qs@.len() - i,
        {
            let q = &self.qs[i];
            let ghost done = int_pairs_of(r@);
            proof {
                assert(all[i as int].wf());
                assert(all.take(i + 1).drop_last() =~= all.take(i as int));
            }
            if q.logits.len() < q.rounds.len() {
                let last: usize = q.rounds.len() - 1;
                let n: usize = q.rounds[last].len();
                let mut b: usize = 0;
                proof {
                    assert(q.batches().last().len() == n);
                    assert(int_pairs_of(r@) =~= done + Seq::new(0, |b: int| (i as int, b)));
                }
                while b < n
                    invariant
                        b <= n,
                        int_pairs_of(r@) == done + Seq::new(b as nat, |b: int| (i as int, b)),
                    decreases n - b,
                {
                    let ghost now = int_pairs_of(r@);
                    r.push((i, b));
                    proof {
                        assert(int_pairs_of(r@) =~= now.push((i as int, b as int)));
                        assert(Seq::new((b + 1) as nat, |b: int| (i as int, b)) =~= Seq::new(
                            b as nat,
                            |b: int| (i as int, b),
                        ).push((i as int, b as int)));
                    }
                    b += 1;
                }
                proof {
                    assert(int_pairs_of(r@) =~= unfinished(all.take(i + 1)));
                }
            } else {
                proof {
                    assert(int_pairs_of(r@) =~= unfinished(all.take(i + 1)));
                }
            }
            i += 1;
        }
        proof {
            assert(all.take(i as int) =~= all);
        }
        r
    }

    /// The row behind one pending batch, for one chunk.
    fn build_row(&self, i: usize, b: usize, c: usize) -> (r: Encoded)
        requires
            self.wf(),
            i < self.qs@.len(),
            c < self.chunks@.len(),
            b < self.qs@[i as int].batches().last().len(),
        ensures
            row_value(r) == self.row((i as int, b as int), self.chunks@[c as int]@),
            r.prefix_len <= r.ids@.len(),
    {
        let q = &self.qs[i];
        let last: usize = q.rounds.len() - 1;
        let ghost batch = q.batches().last()[b as int];
        let ghost want = sequence::chosen(q.parts@.opts, batch);
        proof {
            assert(q.wf());
            assert(q.batches()[last as int] == q.batches().last());
            assert(good_round(q.parts@.opts.len(), q.batches()[last as int]));
            assert(q.rounds@[last as int]@[b as int]@ == batch);
            assert(q.batches()[last as int][b as int].len() > 0);
        }
        let mut opts: Vec<&[u32]> = Vec::new();
        let mut j: usize = 0;
        while j < q.rounds[last][b].len()
            invariant
                last == q.rounds@.len() - 1,
                b < q.rounds@[last as int]@.len(),
                q.rounds@[last as int]@[b as int]@ == batch,
                forall|m: int| 0 <= m < batch.len() ==> (#[trigger] batch[m]) < q.parts@.opts.len(),
                want == sequence::chosen(q.parts@.opts, batch),
                j <= batch.len(),
                opts@.len() == j,
                forall|m: int| 0 <= m < j ==> (#[trigger] opts@[m])@ == want[m],
            decreases batch.len() - j,
        {
            proof {
                assert(batch[j as int] < q.parts@.opts.len());
            }
            let o: usize = q.rounds[last][b][j];
            opts.push(q.parts.opts[o].as_slice());
            j += 1;
        }
        proof {
            assert(sequence::slices(opts@) =~= want);
        }
        let chunk = self.chunks[c].as_slice();
        match self.layout {
            Layout::Laya => joint_row(
                &self.specials,
                q.q.t,
                q.parts.head.as_slice(),
                opts.as_slice(),
                chunk,
            ),
            Layout::Prefix => prefix_row(
                &self.specials,
                q.q.t,
                q.parts.head.as_slice(),
                opts.as_slice(),
                chunk,
            ),
        }
    }

    /// The next round's rows, grouped by state chunk (so rows that start with the same state are
    /// adjacent). Empty when every question is answered.
    pub fn rows(&mut self) -> (r: Vec<Encoded>)
        requires
            old(self).wf(),
        ensures
            final(self).wf(),
            row_values(r@) == old(self).round_rows(sequence::runs(old(self).chunks@)),
            int_pairs_of(final(self).pending@) == unfinished(old(self).qs@),
            final(self).input_tokens == counted(
                old(self).input_tokens as nat + rows_total(row_values(r@)),
            ),
            *final(self) == (Plan {
                pending: final(self).pending,
                input_tokens: final(self).input_tokens,
                ..*old(self)
            }),
    {
        let pending = self.find_unfinished();
        let ghost which = unfinished(self.qs@);
        let ghost chunks = sequence::runs(self.chunks@);
        let n: usize = pending.len();
        let mut rows: Vec<Encoded> = Vec::new();
        let mut c: usize = 0;
        proof {
            lemma_unfinished(self.qs@);
            assert(int_pairs_of(pending@).len() == which.len());
            assert(chunks.take(0) =~= Seq::empty());
            assert(row_values(rows@) =~= self.round_rows(chunks.take(0)));
            assert(0 * n == 0);
        }
        while c < self.chunks.len()
            invariant
                c <= self.chunks@.len(),
                self.wf(),
                *self == *old(self),
                n == pending@.len(),
                n == which.len(),
                which == unfinished(self.qs@),
                int_pairs_of(pending@) == which,
                forall|j: int|
                    0 <= j < which.len() ==> {
                        let w = #[trigger] which[j];
                        &&& 0 <= w.0 < self.qs@.len()
                        &&& 0 <= w.1 < self.qs@[w.0].batches().last().len()
                    },
                chunks == sequence::runs(self.chunks@),
                row_values(rows@) == self.round_rows(chunks.take(c as int)),
                rows@.len() == c * n,
                forall|i: int|
                    0 <= i < rows@.len() ==> (#[trigger] rows@[i]).prefix_len
                        <= rows@[i].ids@.len(),
            decreases self.chunks@.len() - c,
        {
            let ghost done = row_values(rows@);
            let ghost here = Seq::new(n as nat, |j: int| self.row(which[j], chunks[c as int]));
            let mut j: usize = 0;
            proof {
                assert(row_values(rows@) =~= done + here.take(0));
            }
            while j < n
                invariant
                    j <= n,
                    c < self.chunks@.len(),
                    self.wf(),
                    *self == *old(self),
                    n == pending@.len(),
                    n == which.len(),
                    int_pairs_of(pending@) == which,
                    forall|j: int|
                        0 <= j < which.len() ==> {
                            let w = #[trigger] which[j];
                            &&& 0 <= w.0 < self.qs@.len()
                            &&& 0 <= w.1 < self.qs@[w.0].batches().last().len()
                        },
                    chunks == sequence::runs(self.chunks@),
                    here == Seq::new(n as nat, |j: int| self.row(which[j], chunks[c as int])),
                    done.len() == c * n,
                    row_values(rows@) == done + here.take(j as int),
                    rows@.len() == c * n + j,
                    forall|i: int|
                        0 <= i < rows@.len() ==> (#[trigger] rows@[i]).prefix_len
                            <= rows@[i].ids@.len(),
                decreases n - j,
            {
                proof {
                    assert(int_pairs_of(pending@)[j as int] == which[j as int]);
                }
                let e = self.build_row(pending[j].0, pending[j].1, c);
                let ghost now = row_values(rows@);
                let ghost value = row_value(e);
                rows.push(e);
                proof {
                    assert(row_values(rows@) =~= now.push(value));
                    assert(here.take(j + 1) =~= here.take(j as int).push(here[j as int]));
                    assert(now.push(value) =~= done + here.take(j + 1));
                }
                j += 1;
            }
            proof {
                assert(here.take(n as int) =~= here);
                assert(chunks.take(c + 1).drop_last() =~= chunks.take(c as int));
                assert((c + 1) * n == c * n + n) by (nonlinear_arith);
            }
            c += 1;
        }
        let count: usize = rows.len();
        let read: usize = rows_tokens(rows.as_slice());
        proof {
            assert(chunks.take(c as int) =~= chunks);
            assert(pending@.len() * self.chunks@.len() == c * n) by (nonlinear_arith)
                requires
                    pending@.len() == n,
                    self.chunks@.len() == c,
            ;
        }
        self.input_tokens = self.input_tokens.saturating_add(read);
        self.pending = pending;
        rows
    }
}

// ---------------------------------------------------------------------------------------------
// Outputs of a round

/// How many batches the questions before the `i`-th have in this round.
pub open spec fn offset(qs: Seq<QPlan>, i: int) -> int {
    unfinished(qs.take(i)).len() as int
}

/// The logits that several batches of a question got, from the `at`-th output on.
pub open spec fn logits_from(outs: Seq<RowOutput>, at: int, m: nat) -> Seq<Seq<u32>> {
    Seq::new(m, |b: int| outs[at + b].logits@)
}

/// What a question has lost when it is cut once more, so that the batches `bs` fit `cap`: all that
/// was cut, and the tokens it had before the first cut.
pub open spec fn cut_again(t: Truncation, p: PartsV, bs: Seq<Seq<usize>>, cap: nat) -> Truncation {
    let cut = pipeline::fitted(p, bs, cap);
    let head = p.head.len() - cut.head.len();
    let opts = sequence::flat(p.opts).len() - sequence::flat(cut.opts).len();
    let first = t.instructions + t.options == 0 && head + opts > 0;
    Truncation {
        instructions: (t.instructions + head) as usize,
        options: (t.options + opts) as usize,
        question_tokens: if first {
            pipeline::longest(p, bs) as usize
        } else {
            t.question_tokens
        },
        limit: if first {
            cap as usize
        } else {
            t.limit
        },
    }
}

/// Whether `after` is a question's progress `q` with the outputs of its last round, the first of
/// them the `at`-th: it then has its logits, and the next round where it needs one, in which it is
/// asked with no more than `cap` tokens.
pub open spec fn fed(
    q: QPlan,
    outs: Seq<RowOutput>,
    at: int,
    budget: Budget,
    cap: nat,
    after: QPlan,
) -> bool {
    if q.answered() {
        after == q
    } else {
        let last = q.batches().last();
        let logits = logits_from(outs, at, last.len());
        let next = tournament::next_batches(q.parts@, last, logits, budget, cap);
        &&& after.q == q.q
        &&& after.results() == q.results().push(logits)
        &&& after.act@ == outs[at].act_probs@
        &&& last.len() == 1 ==> {
            &&& after.batches() == q.batches()
            &&& after.parts == q.parts
            &&& after.trunc == q.trunc
        }
        &&& last.len() != 1 ==> {
            &&& after.batches() == q.batches().push(next)
            &&& after.parts@ == pipeline::fitted(q.parts@, next, cap)
            &&& after.trunc == cut_again(q.trunc, q.parts@, next, cap)
        }
    }
}

/// Whether there is an output of the right length for every batch that is pending.
pub open spec fn answers(qs: Seq<QPlan>, outs: Seq<RowOutput>) -> bool {
    let which = unfinished(qs);
    &&& outs.len() == which.len()
    &&& forall|j: int|
        0 <= j < which.len() ==> (#[trigger] outs[j]).logits@.len()
            == qs[which[j].0].batches().last()[which[j].1].len()
}

fn copy_ids(v: &Vec<u32>) -> (r: Vec<u32>)
    ensures
        r@ == v@,
{
    let mut r: Vec<u32> = Vec::new();
    r.extend_from_slice(v.as_slice());
    proof {
        assert(r@ =~= v@);
    }
    r
}

proof fn lemma_offset_step(qs: Seq<QPlan>, i: int)
    requires
        0 <= i < qs.len(),
    ensures
        offset(qs, i + 1) == offset(qs, i) + if qs[i].answered() {
            0
        } else {
            qs[i].batches().last().len() as int
        },
        0 <= offset(qs, i),
{
    assert(qs.take(i + 1).drop_last() =~= qs.take(i));
}

/// The batches of a question stand together, at its offset.
proof fn lemma_offset(qs: Seq<QPlan>, i: int, n: int)
    requires
        0 <= i < n <= qs.len(),
        !qs[i].answered(),
    ensures
        offset(qs, i) + qs[i].batches().last().len() <= unfinished(qs.take(n)).len(),
        forall|b: int|
            0 <= b < qs[i].batches().last().len() ==> #[trigger] unfinished(qs.take(n))[offset(
                qs,
                i,
            ) + b] == (i, b),
    decreases n,
{
    let m = qs[i].batches().last().len() as int;
    assert(qs.take(n).drop_last() =~= qs.take(n - 1));
    let u = unfinished(qs.take(n));
    if i == n - 1 {
        assert forall|b: int| 0 <= b < m implies #[trigger] u[offset(qs, i) + b] == (i, b) by {}
    } else {
        lemma_offset(qs, i, n - 1);
        let w = unfinished(qs.take(n - 1));
        assert forall|b: int| 0 <= b < m implies #[trigger] u[offset(qs, i) + b] == (i, b) by {
            assert(u[offset(qs, i) + b] == w[offset(qs, i) + b]);
        }
    }
}

/// Cutting a question again keeps its options, its tokens can be counted, and nothing that is cut
/// is lost track of.
proof fn lemma_cut_again(t: Truncation, p: PartsV, bs: Seq<Seq<usize>>, cap: nat)
    requires
        measured(p),
        good_round(p.opts.len(), bs),
        t.instructions + p.head.len() <= usize::MAX,
        t.options + sequence::flat(p.opts).len() <= usize::MAX,
    ensures
        ({
            let cut = pipeline::fitted(p, bs, cap);
            let after = cut_again(t, p, bs, cap);
            &&& measured(cut)
            &&& cut.opts.len() == p.opts.len()
            &&& after.instructions + cut.head.len() == t.instructions + p.head.len()
            &&& after.options + sequence::flat(cut.opts).len() == t.options + sequence::flat(
                p.opts,
            ).len()
        }),
{
    lemma_countable(p, bs);
    pipeline::lemma_fitting(p, bs, cap);
    lemma_shrunk(p, pipeline::fitted(p, bs, cap));
}

/// Feeding keeps what holds of a question's progress.
proof fn lemma_fed_wf(
    q: QPlan,
    outs: Seq<RowOutput>,
    at: int,
    budget: Budget,
    cap: nat,
    after: QPlan,
)
    requires
        q.wf(),
        fed(q, outs, at, budget, cap, after),
        !q.answered() ==> tournament::matches_round(
            q.batches().last(),
            logits_from(outs, at, q.batches().last().len()),
        ),
    ensures
        after.wf(),
{
    if !q.answered() {
        let last = q.batches().last();
        let logits = logits_from(outs, at, last.len());
        let n = q.rounds@.len() as int;
        let k: usize = q.parts.opts.len();
        assert(k == q.parts@.opts.len());
        assert(q.batches()[n - 1] == last);
        assert(good_round(q.parts@.opts.len(), q.batches()[n - 1]));
        lemma_next_round(q.parts@, last, logits, budget, cap);
        let next = tournament::next_batches(q.parts@, last, logits, budget, cap);
        lemma_cut_again(q.trunc, q.parts@, next, cap);
        assert(after.parts@.opts.len() == k);
        assert(after.results().len() == n);
        assert(after.batches().len() == after.rounds@.len());
        assert(q.batches().len() == n);
        assert forall|r: int| 0 <= r < after.rounds@.len() implies good_round(
            after.parts@.opts.len(),
            #[trigger] after.batches()[r],
        ) by {
            if r < n {
                assert(after.batches()[r] == q.batches()[r]);
            } else {
                assert(after.batches()[r] == next);
            }
        }
        assert forall|r: int| 0 <= r < after.logits@.len() implies tournament::matches_round(
            after.batches()[r],
            #[trigger] after.results()[r],
        ) by {
            if r < n - 1 {
                assert(after.results()[r] == q.results()[r]);
                assert(after.batches()[r] == q.batches()[r]);
            } else {
                assert(after.batches()[r] == last);
            }
        }
        assert forall|r: int, i: int|
            0 <= r < after.rounds@.len() - 1 && 0 <= i < after.batches()[r].len() implies tournament::sends_one(
            #[trigger] after.batches()[r][i],
            after.batches()[r + 1],
        ) by {
            assert(after.batches()[r] == q.batches()[r]);
            if r + 1 < n {
                assert(after.batches()[r + 1] == q.batches()[r + 1]);
                assert(tournament::sends_one(q.batches()[r][i], q.batches()[r + 1]));
            } else {
                assert(after.batches()[r] == last);
                assert(after.batches()[r + 1] == next);
                assert(tournament::sends_one(last[i], next));
            }
        }
        assert(after.batches()[0] == q.batches()[0]);
    }
}

/// A question that is fed leaves room for every chunk of the state in its next round, as far as
/// it may be cut.
proof fn lemma_fed_fits(
    q: QPlan,
    outs: Seq<RowOutput>,
    at: int,
    budget: Budget,
    cap: nat,
    after: QPlan,
)
    requires
        q.wf(),
        fed(q, outs, at, budget, cap, after),
        !after.answered(),
    ensures
        pipeline::longest(after.parts@, after.batches().last()) <= cap || cut_down(
            after.parts@,
            after.batches().last(),
        ),
{
    let last = q.batches().last();
    let logits = logits_from(outs, at, last.len());
    let k: usize = q.parts.opts.len();
    assert(k == q.parts@.opts.len());
    assert(q.batches()[q.rounds@.len() - 1] == last);
    assert(after.results().len() == after.logits@.len());
    assert(after.batches().len() == after.rounds@.len());
    assert(q.results().len() == q.logits@.len());
    assert(q.batches().len() == q.rounds@.len());
    let next = tournament::next_batches(q.parts@, last, logits, budget, cap);
    lemma_next_round(q.parts@, last, logits, budget, cap);
    lemma_countable(q.parts@, next);
    pipeline::lemma_fitting(q.parts@, next, cap);
    assert(after.batches().last() == next);
}

/// What was cut before and what is cut now.
fn add_cuts(t: Truncation, now: Truncation) -> (r: Truncation)
    requires
        t.instructions + now.instructions <= usize::MAX,
        t.options + now.options <= usize::MAX,
    ensures
        r.instructions == t.instructions + now.instructions,
        r.options == t.options + now.options,
        t.instructions + t.options == 0 && now.instructions + now.options > 0
            ==> r.question_tokens == now.question_tokens && r.limit == now.limit,
        !(t.instructions + t.options == 0 && now.instructions + now.options > 0)
            ==> r.question_tokens == t.question_tokens && r.limit == t.limit,
{
    let first = !t.any() && now.any();
    Truncation {
        instructions: t.instructions + now.instructions,
        options: t.options + now.options,
        question_tokens: if first {
            now.question_tokens
        } else {
            t.question_tokens
        },
        limit: if first {
            now.limit
        } else {
            t.limit
        },
    }
}

/// Takes the outputs of a question's last round, the first of them the `at`-th, and returns how
/// many it took.
fn take_outputs(
    q: &mut QPlan,
    outs: &Vec<RowOutput>,
    at: usize,
    budget: &Budget,
    cap: usize,
) -> (m: usize)
    requires
        old(q).wf(),
        !old(q).answered() ==> {
            let last = old(q).batches().last();
            &&& at + last.len() <= outs@.len()
            &&& forall|b: int|
                0 <= b < last.len() ==> (#[trigger] outs@[at + b]).logits@.len() == last[b].len()
        },
    ensures
        fed(*old(q), outs@, at as int, *budget, cap as nat, *final(q)),
        final(q).wf(),
        m == if old(q).answered() {
            0
        } else {
            old(q).batches().last().len()
        },
{
    let ghost was = *q;
    let ran: usize = q.logits.len();
    let count: usize = q.rounds.len();
    if ran >= count {
        return 0;
    }
    let total: usize = outs.len();
    let m: usize = q.rounds[count - 1].len();
    let ghost last = was.batches().last();
    let ghost new = logits_from(outs@, at as int, m as nat);
    proof {
        assert(was.batches()[count - 1] == last);
        assert(good_round(was.parts@.opts.len(), was.batches()[count - 1]));
        assert(last.len() == m);
    }
    let mut round: Vec<Vec<u32>> = Vec::new();
    let mut b: usize = 0;
    proof {
        assert(sequence::runs(round@) =~= new.take(0));
    }
    while b < m
        invariant
            b <= m,
            total == outs@.len(),
            at + m <= total,
            new == logits_from(outs@, at as int, m as nat),
            sequence::runs(round@) == new.take(b as int),
        decreases m - b,
    {
        let l = copy_ids(&outs[at + b].logits);
        let ghost now = sequence::runs(round@);
        let ghost value = l@;
        round.push(l);
        proof {
            assert(sequence::runs(round@) =~= now.push(value));
            assert(new.take(b + 1) =~= new.take(b as int).push(new[b as int]));
        }
        b += 1;
    }
    proof {
        assert(new.take(m as int) =~= new);
        assert forall|i: int| 0 <= i < m implies (#[trigger] new[i]).len() == last[i].len() by {
            assert(outs@[at + i].logits@.len() == last[i].len());
        }
        assert(tournament::matches_round(last, new));
    }
    let act = copy_ids(&outs[at].act_probs);
    let ghost next = tournament::next_batches(was.parts@, last, new, *budget, cap as nat);
    if m != 1 {
        let bs = next_round(&q.parts, &q.rounds[count - 1], &round, budget, cap);
        proof {
            let k: usize = q.parts.opts.len();
            assert(k == was.parts@.opts.len());
            lemma_next_round(was.parts@, last, new, *budget, cap as nat);
            lemma_countable(was.parts@, next);
            lemma_cut_again(was.trunc, was.parts@, next, cap as nat);
        }
        let t = fit_question(&mut q.parts, bs.as_slice(), cap);
        q.trunc = add_cuts(q.trunc, t);
        q.rounds.push(bs);
    }
    q.logits.push(round);
    q.act = act;
    proof {
        assert(q.results() =~= was.results().push(new));
        if m == 1 {
            assert(q.batches() =~= was.batches());
        } else {
            assert(q.batches() =~= was.batches().push(next));
        }
        assert(fed(was, outs@, at as int, *budget, cap as nat, *q));
        lemma_fed_wf(was, outs@, at as int, *budget, cap as nat, *q);
    }
    m
}

impl Plan {
    /// Which of the outputs for the rows handed out last belong to each pending batch, one per
    /// state chunk. The error is how many outputs there should be.
    pub fn outputs_of(&self, outs: usize) -> (r: Result<Vec<Vec<usize>>, usize>)
        requires
            self.wf(),
        ensures
            match r {
                Ok(g) => {
                    &&& outs == self.pending@.len() * self.chunks@.len()
                    &&& g@.len() == self.pending@.len()
                    &&& forall|b: int|
                        0 <= b < g@.len() ==> (#[trigger] g@[b])@.len() == self.chunks@.len()
                    &&& forall|b: int, c: int|
                        0 <= b < g@.len() && 0 <= c < self.chunks@.len() ==> #[trigger] g@[b]@[c]
                            == c * self.pending@.len() + b
                },
                Err(n) => n == self.pending@.len() * self.chunks@.len() && outs != n,
            },
    {
        let n: usize = self.pending.len();
        let k: usize = self.chunks.len();
        let expected: usize = n * k;
        if outs != expected {
            return Err(expected);
        }
        let mut g: Vec<Vec<usize>> = Vec::new();
        let mut b: usize = 0;
        while b < n
            invariant
                b <= n,
                n * k <= usize::MAX,
                g@.len() == b,
                forall|i: int| 0 <= i < b ==> (#[trigger] g@[i])@.len() == k,
                forall|i: int, c: int|
                    0 <= i < b && 0 <= c < k ==> #[trigger] g@[i]@[c] == c * n + i,
            decreases n - b,
        {
            let mut v: Vec<usize> = Vec::new();
            let mut c: usize = 0;
            while c < k
                invariant
                    c <= k,
                    b < n,
                    n * k <= usize::MAX,
                    v@.len() == c,
                    forall|i: int| 0 <= i < c ==> #[trigger] v@[i] == i * n + b,
                decreases k - c,
            {
                proof {
                    assert(c * n + b < n * k) by (nonlinear_arith)
                        requires
                            c + 1 <= k,
                            b < n,
                    ;
                    assert(0 <= c * n) by (nonlinear_arith)
                        requires
                            c >= 0,
                            n >= 0,
                    ;
                }
                v.push(c * n + b);
                c += 1;
            }
            g.push(v);
            b += 1;
        }
        Ok(g)
    }

    /// The most tokens a question part may have beside the longest chunk of the state.
    fn find_room(&self) -> (n: usize)
        ensures
            n == self.question_room(),
    {
        let ghost all = sequence::runs(self.chunks@);
        let mut longest: usize = 0;
        let mut c: usize = 0;
        proof {
            assert(all.take(0) =~= Seq::empty());
        }
        while c < self.chunks.len()
            invariant
                c <= self.chunks@.len(),
                all == sequence::runs(self.chunks@),
                longest == longest_chunk(all.take(c as int)),
            decreases self.chunks@.len() - c,
        {
            proof {
                assert(all.take(c + 1).drop_last() =~= all.take(c as int));
            }
            if self.chunks[c].len() >= longest {
                longest = self.chunks[c].len();
            }
            c += 1;
        }
        proof {
            assert(all.take(c as int) =~= all);
        }
        let beside: usize = match self.layout {
            Layout::Laya => 1,
            Layout::Prefix => 0,
        };
        self.budget.max_window.saturating_sub(beside).saturating_sub(longest)
    }

    /// Takes the outputs of the pending batches, each combined over the state chunks, and sets up
    /// the next round for any choice still in its batches. A question that is too long for the
    /// encoder in its next round is cut, and says so.
    pub fn feed(&mut self, outs: &Vec<RowOutput>)
        requires
            old(self).wf(),
            old(self).pending@.len() == unfinished(old(self).qs@).len(),
            answers(old(self).qs@, outs@),
        ensures
            final(self).wf(),
            final(self).qs@.len() == old(self).qs@.len(),
            forall|i: int|
                0 <= i < final(self).qs@.len() ==> fed(
                    old(self).qs@[i],
                    outs@,
                    offset(old(self).qs@, i),
                    old(self).budget,
                    old(self).question_room(),
                    #[trigger] final(self).qs@[i],
                ),
            final(self).fits(),
            final(self).pending@.len() == 0,
            *final(self) == (Plan {
                qs: final(self).qs,
                pending: final(self).pending,
                ..*old(self)
            }),
    {
        let ghost was = self.qs@;
        let ghost which = unfinished(was);
        let ghost whole = *self;
        let cap: usize = self.find_room();
        let mut at: usize = 0;
        let mut i: usize = 0;
        let total: usize = outs.len();
        proof {
            assert(was.take(0) =~= Seq::empty());
        }
        while i < self.qs.len()
            invariant
                i <= self.qs@.len(),
                self.qs@.len() == was.len(),
                total == outs@.len(),
                whole.wf(),
                whole.qs@ == was,
                cap == whole.question_room(),
                *self == (Plan { qs: self.qs, ..whole }),
                which == unfinished(was),
                answers(was, outs@),
                at == offset(was, i as int),
                forall|j: int| i <= j < was.len() ==> #[trigger] self.qs@[j] == was[j],
                forall|j: int|
                    0 <= j < i ==> fed(
                        was[j],
                        outs@,
                        offset(was, j),
                        whole.budget,
                        cap as nat,
                        #[trigger] self.qs@[j],
                    ) && self.qs@[j].wf(),
            decreases was.len() - i,
        {
            let ghost q = was[i as int];
            proof {
                lemma_offset_step(was, i as int);
                assert(q.wf());
                assert(self.qs@[i as int] == q);
                assert(was.take(was.len() as int) =~= was);
                if !q.answered() {
                    lemma_offset(was, i as int, was.len() as int);
                    assert forall|b: int| 0 <= b < q.batches().last().len() implies (
                    #[trigger] outs@[at + b]).logits@.len() == q.batches().last()[b].len() by {
                        assert(which[at + b] == (i as int, b));
                    }
                }
            }
            let m: usize = take_outputs(&mut self.qs[i], outs, at, &self.budget, cap);
            at += m;
            i += 1;
        }
        self.pending = Vec::new();
        proof {
            assert(self.pending@.len() * self.chunks@.len() == 0) by (nonlinear_arith)
                requires
                    self.pending@.len() == 0,
            ;
            assert forall|j: int| 0 <= j < self.qs@.len() && !(
            #[trigger] self.qs@[j]).answered() implies {
                let bs = self.qs@[j].batches().last();
                let p = self.qs@[j].parts@;
                pipeline::longest(p, bs) <= self.question_room() || cut_down(p, bs)
            } by {
                assert(was[j].wf());
                lemma_fed_fits(was[j], outs@, offset(was, j), whole.budget, cap as nat, self.qs@[j]);
            }
        }
    }
}

// ---------------------------------------------------------------------------------------------
// The end

/// One question's outcome: where each option ends up, and the act probabilities.
#[derive(Debug, PartialEq, Eq)]
pub struct Verdict {
    pub q: Question,
    /// How each option's logit comes about; a leader's placement comes before those relative to
    /// it.
    pub places: Vec<Placement>,
    pub act: Vec<u32>,
}

/// A question that has run all its rounds can be merged.
proof fn lemma_mergeable(q: QPlan)
    requires
        q.wf(),
        q.answered(),
    ensures
        tournament::mergeable(q.parts@.opts.len(), q.batches(), q.results()),
        pipeline::concat(q.batches().last()).no_duplicates(),
{
    let k = q.parts@.opts.len();
    let rounds = q.batches();
    let n: usize = q.parts.opts.len();
    assert(n == k);
    assert forall|r: int| 0 <= r < rounds.len() implies tournament::sound_round(
        k,
        #[trigger] rounds[r],
    ) && tournament::matches_round(rounds[r], q.results()[r]) by {
        assert(good_round(k, q.batches()[r]));
        assert(tournament::matches_round(q.batches()[r], q.results()[r]));
    }
    assert forall|r: int, i: int|
        0 <= r < rounds.len() - 1 && 0 <= i < rounds[r].len() implies tournament::sends_one(
        #[trigger] rounds[r][i],
        rounds[r + 1],
    ) by {
        assert(tournament::sends_one(rounds[r][i], rounds[r + 1]));
    }
    let last = rounds.len() - 1;
    assert(good_round(k, q.batches()[last]));
    let c = pipeline::concat(rounds.last());
    assert(ascending(c));
    assert forall|a: int, b: int| 0 <= a < c.len() && 0 <= b < c.len() && a != b implies c[a]
        != c[b] by {
        if a < b {
            assert(c[a] < c[b]);
        } else {
            assert(c[b] < c[a]);
        }
    }
}

impl Plan {
    /// Whether every question has run all its rounds.
    pub open spec fn done(self) -> bool {
        forall|i: int| 0 <= i < self.qs@.len() ==> (#[trigger] self.qs@[i]).answered()
    }

    /// Whether every question has run all its rounds.
    pub fn is_done(&self) -> (r: bool)
        requires
            self.wf(),
        ensures
            r == self.done(),
    {
        let mut i: usize = 0;
        while i < self.qs.len()
            invariant
                i <= self.qs@.len(),
                self.wf(),
                forall|j: int| 0 <= j < i ==> (#[trigger] self.qs@[j]).answered(),
            decreases self.qs@.len() - i,
        {
            proof {
                assert(self.qs@[i as int].wf());
            }
            if self.qs[i].logits.len() < self.qs[i].rounds.len() {
                proof {
                    assert(!self.qs@[i as int].answered());
                }
                return false;
            }
            i += 1;
        }
        true
    }

    /// One outcome per question, in request order, with a place for every option.
    pub fn finish(self) -> (r: Vec<Verdict>)
        requires
            self.wf(),
            self.done(),
        ensures
            r@.len() == self.qs@.len(),
            forall|i: int|
                0 <= i < r@.len() ==> {
                    let v = #[trigger] r@[i];
                    let q = self.qs@[i];
                    &&& v.q@ == q.q@
                    &&& v.act@ == q.act@
                    &&& v.places@ == tournament::merged(q.batches(), q.results(), 0)
                    &&& tournament::orderly(v.places@)
                    &&& forall|o: usize|
                        o < q.parts@.opts.len() <==> #[trigger] tournament::placed(v.places@, o)
                },
    {
        let ghost qs = self.qs@;
        let mut r: Vec<Verdict> = Vec::new();
        for q in it: self.qs
            invariant
                it.seq() == qs,
                forall|i: int| 0 <= i < qs.len() ==> (#[trigger] qs[i]).wf(),
                forall|i: int| 0 <= i < qs.len() ==> (#[trigger] qs[i]).answered(),
                r@.len() == it.index(),
                forall|i: int|
                    0 <= i < it.index() ==> {
                        let v = #[trigger] r@[i];
                        let q = qs[i];
                        &&& v.q@ == q.q@
                        &&& v.act@ == q.act@
                        &&& v.places@ == tournament::merged(q.batches(), q.results(), 0)
                        &&& tournament::orderly(v.places@)
                        &&& forall|o: usize|
                            o < q.parts@.opts.len() <==> #[trigger] tournament::placed(
                                v.places@,
                                o,
                            )
                    },
        {
            let k: usize = q.parts.opts.len();
            proof {
                assert(q == qs[it.index() as int]);
                assert(k == q.parts@.opts.len());
                lemma_mergeable(q);
                tournament::lemma_every_option_is_placed(
                    q.parts@.opts.len(),
                    q.batches(),
                    q.results(),
                );
            }
            let places = merge_rounds(k, &q.rounds, &q.logits);
            r.push(Verdict { q: q.q, places, act: q.act });
        }
        r
    }
}

// ---------------------------------------------------------------------------------------------
// Tokens of the next round

impl Plan {
    /// The tokens of the question parts of several pending batches.
    pub open spec fn question_total(self, which: Seq<(int, int)>) -> nat
        decreases which.len(),
    {
        if which.len() == 0 {
            0
        } else {
            let w = which.last();
            let q = self.qs@[w.0];
            self.question_total(which.drop_last()) + q.parts@.tokens(q.batches().last()[w.1])
        }
    }

    /// The tokens that the rows of the next round have for one chunk of the state.
    pub open spec fn chunk_total(self, chunk: Seq<u32>) -> nat {
        let which = unfinished(self.qs@);
        if which.len() == 0 {
            0
        } else {
            match self.layout {
                Layout::Laya => self.question_total(which) + (chunk.len() + 1) * which.len(),
                Layout::Prefix => self.question_total(which) + chunk.len(),
            }
        }
    }

    /// The tokens that the rows of the next round have for several chunks of the state.
    pub open spec fn next_total(self, chunks: Seq<Seq<u32>>) -> nat
        decreases chunks.len(),
    {
        if chunks.len() == 0 {
            0
        } else {
            self.next_total(chunks.drop_last()) + self.chunk_total(chunks.last())
        }
    }

    /// Tokens the next rows would have, without building them, as far as a length can count.
    pub fn next_tokens(&self) -> (n: usize)
        requires
            self.wf(),
        ensures
            n == counted(self.next_total(sequence::runs(self.chunks@))),
    {
        let pending = self.find_unfinished();
        let ghost which = unfinished(self.qs@);
        let mut per: usize = 0;
        let mut j: usize = 0;
        proof {
            lemma_unfinished(self.qs@);
            assert(int_pairs_of(pending@).len() == which.len());
            assert(which.take(0) =~= Seq::empty());
        }
        while j < pending.len()
            invariant
                j <= pending@.len(),
                self.wf(),
                which == unfinished(self.qs@),
                int_pairs_of(pending@) == which,
                forall|j: int|
                    0 <= j < which.len() ==> {
                        let w = #[trigger] which[j];
                        &&& 0 <= w.0 < self.qs@.len()
                        &&& 0 <= w.1 < self.qs@[w.0].batches().last().len()
                    },
                per == counted(self.question_total(which.take(j as int))),
            decreases pending@.len() - j,
        {
            let i: usize = pending[j].0;
            let b: usize = pending[j].1;
            let ghost q = self.qs@[i as int];
            proof {
                assert(int_pairs_of(pending@)[j as int] == which[j as int]);
                assert(which.take(j + 1).drop_last() =~= which.take(j as int));
                assert(q.wf());
                let last = q.rounds@.len() - 1;
                assert(q.batches()[last] == q.batches().last());
                lemma_countable(q.parts@, q.batches()[last]);
                assert(sequence::names_options(q.parts@.opts, q.batches().last()[b as int]));
                assert(q.parts@.tokens(q.batches().last()[b as int]) <= usize::MAX);
            }
            let last: usize = self.qs[i].rounds.len() - 1;
            let n: usize = self.qs[i].parts.len(self.qs[i].rounds[last][b].as_slice());
            per = per.saturating_add(n);
            j += 1;
        }
        proof {
            assert(which.take(j as int) =~= which);
        }
        if pending.len() == 0 {
            proof {
                self.lemma_nothing_next(sequence::runs(self.chunks@));
            }
            return 0;
        }
        let ghost chunks = sequence::runs(self.chunks@);
        let count: usize = pending.len();
        let mut total: usize = 0;
        let mut c: usize = 0;
        proof {
            assert(chunks.take(0) =~= Seq::empty());
        }
        while c < self.chunks.len()
            invariant
                c <= self.chunks@.len(),
                chunks == sequence::runs(self.chunks@),
                which == unfinished(self.qs@),
                count == which.len(),
                count >= 1,
                per == counted(self.question_total(which)),
                total == counted(self.next_total(chunks.take(c as int))),
            decreases self.chunks@.len() - c,
        {
            proof {
                assert(chunks.take(c + 1).drop_last() =~= chunks.take(c as int));
            }
            let len: usize = self.chunks[c].len();
            let state: usize = match self.layout {
                Layout::Laya => {
                    proof {
                        assert(0 <= (len + 1) * count <= u128::MAX) by (nonlinear_arith)
                            requires
                                0 <= len <= u64::MAX,
                                0 <= count <= u64::MAX,
                        ;
                    }
                    let product: u128 = (len as u128 + 1) * (count as u128);
                    if product <= usize::MAX as u128 {
                        product as usize
                    } else {
                        usize::MAX
                    }
                },
                Layout::Prefix => len,
            };
            let here: usize = per.saturating_add(state);
            total = total.saturating_add(here);
            c += 1;
        }
        proof {
            assert(chunks.take(c as int) =~= chunks);
        }
        total
    }

    proof fn lemma_nothing_next(self, chunks: Seq<Seq<u32>>)
        requires
            unfinished(self.qs@).len() == 0,
        ensures
            self.next_total(chunks) == 0,
        decreases chunks.len(),
    {
        if chunks.len() > 0 {
            self.lemma_nothing_next(chunks.drop_last());
        }
    }
}

// ---------------------------------------------------------------------------------------------
// What a plan promises

/// A row has the tokens of its question part, its chunk of the state, and the separator that
/// closes the state when it comes last.
proof fn lemma_row_len(
    cls: u32,
    sep: u32,
    layout: Layout,
    t: QType,
    p: PartsV,
    batch: Seq<usize>,
    chunk: Seq<u32>,
)
    ensures
        ({
            let r = row_of(cls, sep, layout, t, p, batch, chunk);
            &&& layout == Layout::Laya ==> r.ids.len() == p.tokens(batch) + chunk.len() + 1
                && r.prefix == 0
            &&& layout == Layout::Prefix ==> r.ids.len() == p.tokens(batch) + chunk.len()
                && r.prefix == chunk.len() && prefix_of(r) == chunk
        }),
{
    sequence::lemma_chosen_tokens(p.opts, batch);
    let r = row_of(cls, sep, layout, t, p, batch, chunk);
    if layout == Layout::Prefix {
        assert(prefix_of(r) =~= chunk);
    }
}

/// The rows of one chunk, for the first `n` of what is pending.
spec fn rows_here(plan: Plan, chunk: Seq<u32>, which: Seq<(int, int)>) -> Seq<RowV> {
    Seq::new(which.len(), |j: int| plan.row(which[j], chunk))
}

proof fn lemma_chunk_rows_total(plan: Plan, before: Seq<RowV>, chunk: Seq<u32>, which: Seq<(int, int)>)
    ensures
        ({
            let rows = before + rows_here(plan, chunk, which);
            let n = which.len();
            &&& plan.layout == Layout::Laya ==> rows_total(rows) == rows_total(before)
                + plan.question_total(which) + (chunk.len() + 1) * n
            &&& plan.layout == Layout::Prefix ==> {
                &&& rows_total(rows) == rows_total(before) + plan.question_total(which) + if n > 0
                    && chunk.len() > 0 && last_prefix(before) != Some(chunk) {
                    chunk.len()
                } else {
                    0
                }
                &&& n > 0 && chunk.len() > 0 ==> last_prefix(rows) == Some(chunk)
                &&& n == 0 ==> rows == before
            }
        }),
    decreases which.len(),
{
    let here = rows_here(plan, chunk, which);
    let rows = before + here;
    if which.len() == 0 {
        assert(rows =~= before);
        assert((chunk.len() + 1) * 0 == 0);
    } else {
        let less = which.drop_last();
        lemma_chunk_rows_total(plan, before, chunk, less);
        assert(rows.drop_last() =~= before + rows_here(plan, chunk, less));
        let w = which.last();
        let q = plan.qs@[w.0];
        lemma_row_len(
            plan.specials.cls,
            plan.specials.sep,
            plan.layout,
            q.q.t,
            q.parts@,
            q.batches().last()[w.1],
            chunk,
        );
        assert(rows.last() == plan.row(w, chunk));
        assert((chunk.len() + 1) * which.len() == (chunk.len() + 1) * less.len() + (chunk.len() + 1))
            by (nonlinear_arith)
            requires
                which.len() == less.len() + 1,
        ;
    }
}

/// The tokens of rows.
pub open spec fn ids_total(rows: Seq<RowV>) -> nat
    decreases rows.len(),
{
    if rows.len() == 0 {
        0
    } else {
        ids_total(rows.drop_last()) + rows.last().ids.len()
    }
}

/// Rows that share no state are read whole.
proof fn lemma_rows_read_whole(rows: Seq<RowV>)
    requires
        forall|j: int| 0 <= j < rows.len() ==> (#[trigger] rows[j]).prefix == 0,
    ensures
        rows_total(rows) == ids_total(rows),
    decreases rows.len(),
{
    if rows.len() > 0 {
        let less = rows.drop_last();
        assert forall|j: int| 0 <= j < less.len() implies (#[trigger] less[j]).prefix == 0 by {
            assert(less[j] == rows[j]);
        }
        lemma_rows_read_whole(less);
        assert(rows[rows.len() - 1].prefix == 0);
    }
}

/// With the question first, no row shares its state.
proof fn lemma_no_row_shares(plan: Plan, chunks: Seq<Seq<u32>>)
    requires
        plan.layout == Layout::Laya,
    ensures
        forall|j: int|
            0 <= j < plan.round_rows(chunks).len() ==> (#[trigger] plan.round_rows(
                chunks,
            )[j]).prefix == 0,
    decreases chunks.len(),
{
    if chunks.len() > 0 {
        lemma_no_row_shares(plan, chunks.drop_last());
    }
}

/// Something pending costs at least one token for every chunk.
proof fn lemma_next_total_grows(plan: Plan, chunks: Seq<Seq<u32>>)
    ensures
        unfinished(plan.qs@).len() == 0 ==> plan.next_total(chunks) == 0,
        unfinished(plan.qs@).len() > 0 ==> plan.next_total(chunks) >= chunks.len(),
    decreases chunks.len(),
{
    if chunks.len() > 0 {
        lemma_next_total_grows(plan, chunks.drop_last());
        let which = unfinished(plan.qs@);
        if which.len() > 0 {
            assert(plan.question_total(which) >= 3);
            assert((chunks.last().len() + 1) * which.len() >= 0) by (nonlinear_arith);
        }
    }
}

/// What the next rows will cost is known before they are built: it is what handing them out adds
/// to the tokens read, it is nothing exactly when there are no rows, and with the question first
/// it is all their tokens. A state that comes first and has the same chunk twice in a row is left
/// out (it is then read once).
pub proof fn lemma_next_tokens_are_the_rows_tokens(plan: Plan)
    requires
        plan.wf(),
        plan.layout == Layout::Prefix ==> forall|i: int, j: int|
            0 <= i && j == i + 1 && j < plan.chunks@.len() ==> (#[trigger] plan.chunks@[i])@ != (
            #[trigger] plan.chunks@[j])@,
    ensures
        ({
            let chunks = sequence::runs(plan.chunks@);
            let rows = plan.round_rows(chunks);
            &&& rows_total(rows) == plan.next_total(chunks)
            &&& plan.next_total(chunks) == 0 <==> rows.len() == 0
            &&& plan.layout == Layout::Laya ==> plan.next_total(chunks) == ids_total(rows)
        }),
{
    let chunks = sequence::runs(plan.chunks@);
    let rows = plan.round_rows(chunks);
    if plan.layout == Layout::Prefix {
        assert forall|i: int| 0 <= i < chunks.len() implies (#[trigger] chunks[i]).len() > 0 by {
            assert(plan.chunks@[i]@.len() > 0);
        }
        assert forall|i: int, j: int| 0 <= i && j == i + 1 && j < chunks.len() implies (
        #[trigger] chunks[i]) != #[trigger] chunks[j] by {
            assert(plan.chunks@[i]@ != plan.chunks@[j]@);
        }
    } else {
        lemma_no_row_shares(plan, chunks);
        lemma_rows_read_whole(rows);
    }
    lemma_next_total(plan, chunks);
    lemma_next_total_grows(plan, chunks);
    lemma_round_rows_len(plan, chunks);
    let n = unfinished(plan.qs@).len();
    assert(chunks.len() * n == 0 <==> n == 0) by (nonlinear_arith)
        requires
            chunks.len() >= 1,
            n >= 0,
    ;
}

proof fn lemma_next_total(plan: Plan, chunks: Seq<Seq<u32>>)
    requires
        plan.layout == Layout::Prefix ==> {
            &&& forall|i: int| 0 <= i < chunks.len() ==> (#[trigger] chunks[i]).len() > 0
            &&& forall|i: int, j: int|
                0 <= i && j == i + 1 && j < chunks.len() ==> #[trigger] chunks[i]
                    != #[trigger] chunks[j]
        },
    ensures
        rows_total(plan.round_rows(chunks)) == plan.next_total(chunks),
        plan.layout == Layout::Prefix && chunks.len() > 0 && unfinished(plan.qs@).len() > 0
            ==> last_prefix(plan.round_rows(chunks)) == Some(chunks.last()),
    decreases chunks.len(),
{
    if chunks.len() > 0 {
        let less = chunks.drop_last();
        let which = unfinished(plan.qs@);
        if plan.layout == Layout::Prefix {
            assert forall|i: int| 0 <= i < less.len() implies (#[trigger] less[i]).len() > 0 by {
                assert(chunks[i].len() > 0);
            }
            assert forall|i: int, j: int| 0 <= i && j == i + 1 && j < less.len() implies (
            #[trigger] less[i]) != #[trigger] less[j] by {
                assert(chunks[i] != chunks[j]);
            }
            assert(chunks[chunks.len() - 1].len() > 0);
            if less.len() > 0 {
                assert(chunks[chunks.len() - 2] != chunks[chunks.len() - 1]);
            }
        }
        lemma_next_total(plan, less);
        let before = plan.round_rows(less);
        lemma_chunk_rows_total(plan, before, chunks.last(), which);
        assert(plan.round_rows(chunks) =~= before + rows_here(plan, chunks.last(), which));
        if which.len() == 0 {
            assert((chunks.last().len() + 1) * 0 == 0);
        }
        if less.len() == 0 {
            assert(before =~= Seq::empty());
            assert(last_prefix(before) is None);
        }
    }
}

/// The output at `c * n + b` is for the `b`-th of `n` pending batches and the `c`-th chunk.
pub proof fn lemma_rows_stand_by_chunk(plan: Plan, chunks: Seq<Seq<u32>>, c: int, b: int)
    requires
        0 <= c < chunks.len(),
        0 <= b < unfinished(plan.qs@).len(),
    ensures
        plan.round_rows(chunks).len() == chunks.len() * unfinished(plan.qs@).len(),
        0 <= c * unfinished(plan.qs@).len() + b < plan.round_rows(chunks).len(),
        plan.round_rows(chunks)[c * unfinished(plan.qs@).len() + b] == plan.row(
            unfinished(plan.qs@)[b],
            chunks[c],
        ),
    decreases chunks.len(),
{
    let n = unfinished(plan.qs@).len();
    let less = chunks.drop_last();
    let before = plan.round_rows(less);
    lemma_round_rows_len(plan, less);
    assert(chunks.len() * n == less.len() * n + n) by (nonlinear_arith)
        requires
            chunks.len() == less.len() + 1,
    ;
    if c < less.len() {
        lemma_rows_stand_by_chunk(plan, less, c, b);
    } else {
        assert(c * n + b - before.len() == b) by (nonlinear_arith)
            requires
                before.len() == less.len() * n,
                c == less.len(),
        ;
    }
}

proof fn lemma_round_rows_len(plan: Plan, chunks: Seq<Seq<u32>>)
    ensures
        plan.round_rows(chunks).len() == chunks.len() * unfinished(plan.qs@).len(),
    decreases chunks.len(),
{
    let n = unfinished(plan.qs@).len();
    if chunks.len() > 0 {
        lemma_round_rows_len(plan, chunks.drop_last());
        assert(chunks.len() * n == (chunks.len() - 1) * n + n) by (nonlinear_arith);
    } else {
        assert(0 * n == 0);
    }
}

/// Runs that are nowhere longer have the same tokens together only when they are the same.
proof fn lemma_flat_strict(a: Seq<Seq<u32>>, b: Seq<Seq<u32>>)
    requires
        a.len() == b.len(),
        forall|i: int| 0 <= i < a.len() ==> (#[trigger] b[i]).len() <= a[i].len(),
        sequence::flat(a).len() == sequence::flat(b).len(),
    ensures
        forall|i: int| 0 <= i < a.len() ==> (#[trigger] b[i]).len() == a[i].len(),
    decreases a.len(),
{
    if a.len() > 0 {
        let c = a.drop_last();
        let d = b.drop_last();
        assert forall|i: int| 0 <= i < c.len() implies (#[trigger] d[i]).len() <= c[i].len() by {
            assert(b[i].len() <= a[i].len());
        }
        lemma_shrunk(
            PartsV { head: Seq::empty(), opts: c },
            PartsV { head: Seq::empty(), opts: d },
        );
        assert(b[b.len() - 1].len() <= a[a.len() - 1].len());
        lemma_flat_strict(c, d);
        assert forall|i: int| 0 <= i < a.len() implies (#[trigger] b[i]).len() == a[i].len() by {
            if i < c.len() {
                assert(d[i].len() == c[i].len());
            }
        }
    }
}

/// A question that was cut by nothing is the same.
proof fn lemma_same_when_uncut(p: PartsV, r: PartsV)
    requires
        r.opts.len() == p.opts.len(),
        forall|i: int|
            0 <= i < p.opts.len() ==> (#[trigger] r.opts[i]).len() <= p.opts[i].len() && r.opts[i]
                == p.opts[i].take(r.opts[i].len() as int),
        r.head.len() == p.head.len() ==> r.head == p.head,
    ensures
        r.head.len() == p.head.len() && sequence::flat(r.opts).len() == sequence::flat(p.opts).len()
            ==> r == p,
{
    if r.head.len() == p.head.len() && sequence::flat(r.opts).len() == sequence::flat(
        p.opts,
    ).len() {
        lemma_flat_strict(p.opts, r.opts);
        assert forall|i: int| 0 <= i < p.opts.len() implies #[trigger] r.opts[i] == p.opts[i] by {
            assert(r.opts[i].len() == p.opts[i].len());
            assert(p.opts[i].take(p.opts[i].len() as int) =~= p.opts[i]);
        }
        assert(r.opts =~= p.opts);
        assert(r =~= p);
    }
}

/// Truncation is reported: a question says that it was cut exactly when it was.
pub proof fn lemma_truncation_is_reported(
    q: QPlan,
    question: QuestionV,
    p: PartsV,
    layout: Layout,
    budget: Budget,
    state: nat,
)
    requires
        starts(q, question, p, layout, budget, state),
        measured(p),
    ensures
        q.trunc.instructions + q.trunc.options > 0 <==> q.parts@ != p,
        q.parts@ != p ==> q.trunc.question_tokens > q.trunc.limit,
{
    let first = pipeline::first_batches(question.t, p, budget);
    let cap = question_cap(layout, budget, state) as nat;
    let k: usize = q.parts.opts.len();
    assert(k == q.parts@.opts.len());
    pipeline::lemma_fitted_len(p, first, cap);
    lemma_first_round(question.t, p, budget);
    lemma_countable(p, first);
    pipeline::lemma_fitting(p, first, cap);
    let r = q.parts@;
    lemma_shrunk(p, r);
    lemma_same_when_uncut(p, r);
}

/// No question part of round one is longer than the longest.
proof fn lemma_longest_question(
    ts: Seq<QType>,
    ps: Seq<PartsV>,
    layout: Layout,
    budget: Budget,
    state: nat,
    i: int,
)
    requires
        0 <= i < ps.len(),
    ensures
        pipeline::longest(
            asked_parts(ts[i], ps[i], layout, budget, state),
            pipeline::first_batches(ts[i], ps[i], budget),
        ) <= longest_question(ts, ps, layout, budget, state),
    decreases ps.len(),
{
    if i < ps.len() - 1 {
        lemma_longest_question(ts, ps.drop_last(), layout, budget, state, i);
    }
}

/// The longest chunk is one of the chunks, and no chunk is longer.
proof fn lemma_longest_chunk(chunks: Seq<Seq<u32>>)
    ensures
        forall|c: int|
            0 <= c < chunks.len() ==> (#[trigger] chunks[c]).len() <= longest_chunk(chunks),
        chunks.len() > 0 ==> exists|c: int|
            0 <= c < chunks.len() && (#[trigger] chunks[c]).len() == longest_chunk(chunks),
    decreases chunks.len(),
{
    if chunks.len() > 0 {
        let less = chunks.drop_last();
        lemma_longest_chunk(less);
        assert forall|c: int| 0 <= c < chunks.len() implies (#[trigger] chunks[c]).len()
            <= longest_chunk(chunks) by {
            if c < less.len() {
                assert(less[c] == chunks[c]);
            }
        }
        if chunks.last().len() >= longest_chunk(less) {
            assert(chunks[chunks.len() - 1].len() == longest_chunk(chunks));
        } else {
            assert(less.len() > 0);
            let c = choose|c: int|
                0 <= c < less.len() && (#[trigger] less[c]).len() == longest_chunk(less);
            assert(chunks[c].len() == longest_chunk(chunks));
        }
    }
}

/// Every question of a plan that begins leaves room for every chunk of the state, as far as it
/// may be cut, when the window holds a row of the trained length and every row keeps some of the
/// state.
pub proof fn lemma_plans_begin_fitting(
    plan: Plan,
    cls: u32,
    sep: u32,
    layout: Layout,
    budget: Budget,
    state: Seq<u32>,
    questions: Seq<QuestionV>,
    ps: Seq<PartsV>,
)
    requires
        plan.begins(cls, sep, layout, budget, state, questions, ps),
        forall|i: int| 0 <= i < ps.len() ==> measured(#[trigger] ps[i]),
        budget.max_len <= budget.max_window,
        budget.min_state >= 1,
    ensures
        plan.fits(),
{
    let n = state.len();
    let ts = types(questions);
    let longest = longest_question(ts, ps, layout, budget, n);
    let room = chunk_room(layout, budget, n, longest) as nat;
    let spans = pipeline::spans(n, room, budget.overlap as nat);
    let cap = question_cap(layout, budget, n) as nat;
    let chunks = sequence::runs(plan.chunks@);
    pipeline::lemma_chunks_cover_the_state(n, room, budget.overlap as nat);
    lemma_longest_chunk(chunks);
    let c = choose|c: int|
        0 <= c < chunks.len() && (#[trigger] chunks[c]).len() == longest_chunk(chunks);
    assert(chunks[c] == chunk_tokens(cls, sep, layout, state, spans[c]));
    assert(0 <= spans[c].0 <= spans[c].1 <= n);
    assert(spans[c].1 - spans[c].0 <= room);
    assert forall|i: int| 0 <= i < plan.qs@.len() && !(#[trigger] plan.qs@[i]).answered() implies {
        let bs = plan.qs@[i].batches().last();
        let p = plan.qs@[i].parts@;
        pipeline::longest(p, bs) <= plan.question_room() || cut_down(p, bs)
    } by {
        let q = plan.qs@[i];
        assert(starts(q, questions[i], ps[i], layout, budget, n));
        let first = pipeline::first_batches(questions[i].t, ps[i], budget);
        assert(q.batches().last() == first);
        let k: usize = q.parts.opts.len();
        assert(measured(ps[i]));
        assert(q.parts@ == pipeline::fitted(ps[i], first, cap));
        assert(ps[i].opts.len() == k) by {
            pipeline::lemma_fitted_len(ps[i], first, cap);
        }
        lemma_first_round(questions[i].t, ps[i], budget);
        lemma_countable(ps[i], first);
        pipeline::lemma_fitting(ps[i], first, cap);
        lemma_longest_question(ts, ps, layout, budget, n, i);
        pipeline::lemma_longest(q.parts@, first);
    }
}

/// Rows stay within the encoder's positions, in every round: no row is longer than the window,
/// unless its question is already cut as far as it may be. A plan fits when it begins, and when
/// outputs are fed to it.
pub proof fn lemma_rows_fit_the_window(plan: Plan, i: int, b: int, c: int)
    requires
        plan.fits(),
        0 <= i < plan.qs@.len(),
        !plan.qs@[i].answered(),
        0 <= b < plan.qs@[i].batches().last().len(),
        0 <= c < plan.chunks@.len(),
    ensures
        plan.row((i, b), plan.chunks@[c]@).ids.len() <= plan.budget.max_window || cut_down(
            plan.qs@[i].parts@,
            plan.qs@[i].batches().last(),
        ),
{
    let q = plan.qs@[i];
    let bs = q.batches().last();
    let chunk = plan.chunks@[c]@;
    lemma_longest_chunk(sequence::runs(plan.chunks@));
    assert(sequence::runs(plan.chunks@)[c] == chunk);
    pipeline::lemma_longest(q.parts@, bs);
    assert(q.parts@.tokens(bs[b]) <= pipeline::longest(q.parts@, bs));
    lemma_row_len(
        plan.specials.cls,
        plan.specials.sep,
        plan.layout,
        q.q.t,
        q.parts@,
        bs[b],
        chunk,
    );
}

/// What is cut in a later round is reported with what was cut before: the instructions and the
/// options a question is asked with and those it has lost stay the same together, and a question
/// that is cut says so.
pub proof fn lemma_later_cuts_are_reported(
    q: QPlan,
    outs: Seq<RowOutput>,
    at: int,
    budget: Budget,
    cap: nat,
    after: QPlan,
)
    requires
        q.wf(),
        fed(q, outs, at, budget, cap, after),
        cap <= usize::MAX,
    ensures
        after.trunc.instructions + after.parts@.head.len() == q.trunc.instructions
            + q.parts@.head.len(),
        after.trunc.options + sequence::flat(after.parts@.opts).len() == q.trunc.options
            + sequence::flat(q.parts@.opts).len(),
        after.parts@ != q.parts@ ==> after.trunc.instructions + after.trunc.options > 0,
        after.parts@ != q.parts@ && q.trunc.instructions + q.trunc.options == 0
            ==> after.trunc.question_tokens > after.trunc.limit,
{
    if !q.answered() && q.batches().last().len() != 1 {
        let last = q.batches().last();
        let k: usize = q.parts.opts.len();
        assert(k == q.parts@.opts.len());
        assert(q.batches()[q.rounds@.len() - 1] == last);
        let logits = logits_from(outs, at, last.len());
        let next = tournament::next_batches(q.parts@, last, logits, budget, cap);
        lemma_next_round(q.parts@, last, logits, budget, cap);
        lemma_cut_again(q.trunc, q.parts@, next, cap);
        lemma_countable(q.parts@, next);
        pipeline::lemma_fitting(q.parts@, next, cap);
        pipeline::lemma_longest(q.parts@, next);
        lemma_shrunk(q.parts@, after.parts@);
        lemma_same_when_uncut(q.parts@, after.parts@);
        assert(q.parts@.tokens(next[pipeline::longest_at(q.parts@, next)]) <= usize::MAX);
    }
}

// ---------------------------------------------------------------------------------------------
// Outputs for the rows of a round

/// Every row has a marker for each option of its batch, and there is a row for each pending batch
/// and chunk: outputs for all rows are accepted, and with as many logits as each row has markers
/// they can be fed.
pub proof fn lemma_outputs_can_be_fed(plan: Plan, outs: Seq<RowOutput>)
    requires
        plan.wf(),
        int_pairs_of(plan.pending@) == unfinished(plan.qs@),
    ensures
        plan.round_rows(sequence::runs(plan.chunks@)).len() == plan.pending@.len()
            * plan.chunks@.len(),
        forall|b: int, c: int|
            0 <= b < plan.pending@.len() && 0 <= c < plan.chunks@.len()
                ==> #[trigger] plan.round_rows(sequence::runs(plan.chunks@))[c
                * plan.pending@.len() + b].markers.len() == plan.qs@[unfinished(
                plan.qs@,
            )[b].0].batches().last()[unfinished(plan.qs@)[b].1].len(),
        outs.len() == plan.pending@.len() && (forall|b: int|
            0 <= b < outs.len() ==> (#[trigger] outs[b]).logits@.len() == plan.round_rows(
                sequence::runs(plan.chunks@),
            )[b].markers.len()) ==> answers(plan.qs@, outs),
{
    let chunks = sequence::runs(plan.chunks@);
    let which = unfinished(plan.qs@);
    let n = plan.pending@.len();
    let rows = plan.round_rows(chunks);
    assert(int_pairs_of(plan.pending@).len() == n);
    lemma_round_rows_len(plan, chunks);
    assert(n * plan.chunks@.len() == plan.chunks@.len() * n) by (nonlinear_arith);
    assert forall|b: int, c: int| 0 <= b < n && 0 <= c < plan.chunks@.len() implies #[trigger] rows[
    c * n + b].markers.len() == plan.qs@[which[b].0].batches().last()[which[b].1].len() by {
        lemma_rows_stand_by_chunk(plan, chunks, c, b);
    }
    if outs.len() == n && (forall|b: int|
        0 <= b < outs.len() ==> (#[trigger] outs[b]).logits@.len() == rows[b].markers.len()) {
        assert forall|j: int| 0 <= j < which.len() implies (#[trigger] outs[j]).logits@.len()
            == plan.qs@[which[j].0].batches().last()[which[j].1].len() by {
            lemma_rows_stand_by_chunk(plan, chunks, 0, j);
            assert(0 * n + j == j);
        }
    }
}

// ---------------------------------------------------------------------------------------------
// Requests that fit

/// Whether a question about a state of `state` tokens is asked whole, in one row of the trained
/// length.
pub open spec fn asked_whole(
    t: QType,
    p: PartsV,
    layout: Layout,
    budget: Budget,
    head_max_len: usize,
    state: nat,
) -> bool {
    let all = pipeline::indices(p.opts.len());
    &&& measured(p)
    &&& sequence::budgeted(p, head_max_len) == p
    &&& pipeline::first_batches(t, p, budget) == seq![all]
    &&& p.tokens(all) + overhead(layout) + state <= budget.max_len
}

proof fn lemma_short_questions(
    ts: Seq<QType>,
    ps: Seq<PartsV>,
    layout: Layout,
    budget: Budget,
    head_max_len: usize,
    state: nat,
)
    requires
        ts.len() >= ps.len(),
        budget.max_len <= budget.max_window,
        forall|i: int|
            0 <= i < ps.len() ==> asked_whole(
                ts[i],
                #[trigger] ps[i],
                layout,
                budget,
                head_max_len,
                state,
            ) && ps[i].opts.len() <= usize::MAX,
    ensures
        ps.len() > 0 ==> longest_question(ts, ps, layout, budget, state) + overhead(layout) + state
            <= budget.max_len,
        forall|i: int|
            0 <= i < ps.len() ==> asked_parts(ts[i], #[trigger] ps[i], layout, budget, state)
                == ps[i],
    decreases ps.len(),
{
    if ps.len() > 0 {
        let less = ps.drop_last();
        assert forall|i: int| 0 <= i < less.len() implies asked_whole(
            ts[i],
            #[trigger] less[i],
            layout,
            budget,
            head_max_len,
            state,
        ) && less[i].opts.len() <= usize::MAX by {
            assert(less[i] == ps[i]);
        }
        lemma_short_questions(ts, less, layout, budget, head_max_len, state);
        let k = ps.len() - 1;
        let p = ps[k];
        assert(asked_whole(ts[k], p, layout, budget, head_max_len, state));
        let first = pipeline::first_batches(ts[k], p, budget);
        let cap = question_cap(layout, budget, state) as nat;
        lemma_first_round(ts[k], p, budget);
        lemma_countable(p, first);
        pipeline::lemma_fitting(p, first, cap);
        pipeline::lemma_longest(p, first);
        assert(first[pipeline::longest_at(p, first)] == pipeline::indices(p.opts.len()));
        assert forall|i: int| 0 <= i < ps.len() implies asked_parts(
            ts[i],
            #[trigger] ps[i],
            layout,
            budget,
            state,
        ) == ps[i] by {
            if i < less.len() {
                assert(less[i] == ps[i]);
            }
        }
        if less.len() == 0 {
            assert(longest_question(ts, less, layout, budget, state) == 0);
        }
    }
}

/// Questions asked in one row each are pending with their only batch.
proof fn lemma_one_batch_each(qs: Seq<QPlan>)
    requires
        forall|i: int|
            0 <= i < qs.len() ==> !(#[trigger] qs[i]).answered() && qs[i].batches().last().len()
                == 1,
    ensures
        unfinished(qs) == Seq::new(qs.len(), |i: int| (i, 0int)),
    decreases qs.len(),
{
    if qs.len() > 0 {
        let less = qs.drop_last();
        assert forall|i: int| 0 <= i < less.len() implies !(#[trigger] less[i]).answered()
            && less[i].batches().last().len() == 1 by {
            assert(less[i] == qs[i]);
        }
        lemma_one_batch_each(less);
        assert(!qs[qs.len() - 1].answered());
        assert(unfinished(qs) =~= Seq::new(qs.len(), |i: int| (i, 0int)));
    } else {
        assert(unfinished(qs) =~= Seq::new(qs.len(), |i: int| (i, 0int)));
    }
}

/// The row of a question that is asked whole is the row that asks it without a plan.
proof fn lemma_short_row(
    sp: Specials,
    layout: Layout,
    budget: Budget,
    t: QType,
    p: PartsV,
    head_max_len: usize,
    state: Seq<u32>,
    left: bool,
)
    requires
        asked_whole(t, p, layout, budget, head_max_len, state.len()),
        p.opts.len() <= usize::MAX,
        layout == Layout::Prefix ==> state.len() <= sequence::larger(
            budget.max_len - head_max_len - 5,
            0,
        ),
    ensures
        ({
            let all = pipeline::indices(p.opts.len());
            let chunk = chunk_tokens(sp.cls, sp.sep, layout, state, (0, state.len() as int));
            let r = row_of(sp.cls, sp.sep, layout, t, p, all, chunk);
            let start = sequence::state_prefix(
                sp.cls,
                sp.sep,
                state,
                budget.max_len as nat,
                head_max_len as nat,
                left,
            );
            match layout {
                Layout::Laya => {
                    &&& sequence::options_fit(p, budget.max_len)
                    &&& r.prefix == 0
                    &&& r.ids == sequence::fixed_row(
                        sp.cls,
                        sp.sep,
                        p,
                        state,
                        budget.max_len,
                        left,
                    )
                    &&& r.markers == sequence::marker_places(0, p.head.len(), p.opts)
                },
                Layout::Prefix => {
                    &&& r.prefix == start.len()
                    &&& r.ids == start + sequence::question_ids(sp.cls, sp.sep, p.head, p.opts)
                    &&& r.markers == sequence::marker_places(start.len(), p.head.len(), p.opts)
                },
            }
        }),
{
    let all = pipeline::indices(p.opts.len());
    assert(state.subrange(0, state.len() as int) =~= state);
    assert(sequence::chosen(p.opts, all) =~= p.opts);
    sequence::lemma_chosen_tokens(p.opts, all);
    let question = sequence::question_ids(sp.cls, sp.sep, p.head, p.opts);
    assert(question.len() == p.tokens(all));
    if layout == Layout::Laya {
        let places = sequence::marker_places(0, p.head.len(), p.opts);
        assert forall|i: int| 0 <= i < p.opts.len() implies #[trigger] places[i]
            < budget.max_len by {
            sequence::lemma_flat_take(p.opts, i);
        }
        assert(sequence::kept_state(
            state,
            sequence::state_room(budget.max_len as nat, question.len()),
            left,
        ) == state);
    }
}

/// A request that fits is asked as it would be without a plan: when every question is asked
/// whole, in one row of the trained length, and the state fits beside it, the rows of the plan
/// are those that ask each question of the whole state.
pub proof fn lemma_requests_that_fit_are_asked_whole(
    plan: Plan,
    tok: tokenizers::Tokenizer,
    sp: Specials,
    cfg: AgentConfig,
    budget: Budget,
    state: Seq<u32>,
    questions: Seq<Question>,
    ps: Seq<PartsV>,
    left: bool,
    rows: Seq<Encoded>,
)
    requires
        plan.begins(
            sp.cls,
            sp.sep,
            cfg.layout,
            budget,
            state,
            Seq::new(questions.len(), |i: int| questions[i]@),
            ps,
        ),
        row_values(rows) == plan.round_rows(sequence::runs(plan.chunks@)),
        budget.max_len == cfg.max_len,
        budget.max_len <= budget.max_window,
        forall|i: int|
            0 <= i < ps.len() ==> sequence::tokens_of(
                tok,
                sp.mask,
                sp.mask_token@,
                questions[i]@,
                #[trigger] ps[i],
            ) && asked_whole(
                questions[i]@.t,
                ps[i],
                cfg.layout,
                budget,
                cfg.head_max_len,
                state.len(),
            ),
        cfg.layout == Layout::Prefix ==> state.len() <= sequence::larger(
            cfg.max_len - cfg.head_max_len - 5,
            0,
        ),
    ensures
        agent::are_rows(tok, sp, cfg, questions, state, left, rows),
{
    let qv = Seq::new(questions.len(), |i: int| questions[i]@);
    let ts = types(qv);
    let n = state.len();
    let chunks = sequence::runs(plan.chunks@);
    let layout = cfg.layout;
    assert forall|i: int| 0 <= i < ps.len() implies asked_whole(
        ts[i],
        #[trigger] ps[i],
        layout,
        budget,
        cfg.head_max_len,
        n,
    ) && ps[i].opts.len() <= usize::MAX by {
        let q = plan.qs@[i];
        assert(starts(q, qv[i], ps[i], layout, budget, n));
        let k: usize = q.parts.opts.len();
        assert(k == q.parts@.opts.len());
        pipeline::lemma_fitted_len(
            ps[i],
            pipeline::first_batches(qv[i].t, ps[i], budget),
            question_cap(layout, budget, n) as nat,
        );
    }
    lemma_short_questions(ts, ps, layout, budget, cfg.head_max_len, n);
    assert forall|i: int| 0 <= i < plan.qs@.len() implies !(#[trigger] plan.qs@[i]).answered()
        && plan.qs@[i].batches().last().len() == 1 && plan.qs@[i].parts@ == ps[i] by {
        assert(starts(plan.qs@[i], qv[i], ps[i], layout, budget, n));
        assert(asked_whole(ts[i], ps[i], layout, budget, cfg.head_max_len, n));
        assert(asked_parts(ts[i], ps[i], layout, budget, n) == ps[i]);
        assert(plan.qs@[i].batches().len() == plan.qs@[i].rounds@.len());
    }
    lemma_one_batch_each(plan.qs@);
    lemma_round_rows_len(plan, chunks);
    assert(row_values(rows).len() == rows.len());
    if questions.len() == 0 {
        assert(chunks.len() * 0 == 0);
    } else {
        let longest = longest_question(ts, ps, layout, budget, n);
        let room = chunk_room(layout, budget, n, longest) as nat;
        let spans = pipeline::spans(n, room, budget.overlap as nat);
        assert(spans == seq![(0int, n as int)]);
        assert(chunks.len() == 1);
        let chunk = chunk_tokens(sp.cls, sp.sep, layout, state, (0, n as int));
        assert(chunks[0] == chunk);
        assert(1 * questions.len() == questions.len());
        assert(chunks.len() * unfinished(plan.qs@).len() == questions.len());
        assert forall|i: int| 0 <= i < rows.len() implies agent::is_row(
            tok,
            sp,
            cfg,
            questions[i]@,
            state,
            left,
            #[trigger] rows[i],
        ) by {
            let q = plan.qs@[i];
            let p = ps[i];
            assert(starts(q, qv[i], p, layout, budget, n));
            assert(q.parts@ == p);
            assert(asked_whole(ts[i], p, layout, budget, cfg.head_max_len, n));
            lemma_rows_stand_by_chunk(plan, chunks, 0, i);
            assert(0 * unfinished(plan.qs@).len() + i == i);
            assert(row_values(rows)[i] == row_value(rows[i]));
            assert(row_value(rows[i]) == plan.row((i, 0), chunk));
            assert(q.batches().last() == seq![pipeline::indices(p.opts.len())]);
            lemma_short_row(sp, layout, budget, ts[i], p, cfg.head_max_len, state, left);
            assert(sequence::tokens_of(tok, sp.mask, sp.mask_token@, questions[i]@, p));
        }
    }
}

/// A chunk is its part of the state, in order; where the state comes first it stands between its
/// own marks.
pub proof fn lemma_chunks_hold_their_part_of_the_state(
    cls: u32,
    sep: u32,
    state: Seq<u32>,
    span: (int, int),
    i: int,
)
    requires
        0 <= span.0 <= i < span.1 <= state.len(),
    ensures
        ({
            let a = chunk_tokens(cls, sep, Layout::Laya, state, span);
            let b = chunk_tokens(cls, sep, Layout::Prefix, state, span);
            &&& a.len() == span.1 - span.0
            &&& a[i - span.0] == state[i]
            &&& b.len() == span.1 - span.0 + 2
            &&& b[0] == cls
            &&& b[i - span.0 + 1] == state[i]
            &&& b.last() == sep
        }),
{
}

/// A count is exact as far as it can be written.
pub proof fn lemma_counts_are_exact(n: nat)
    ensures
        n <= usize::MAX ==> counted(n) == n,
        n > usize::MAX ==> counted(n) == usize::MAX,
{
}

/// Chunks have the room that the question leaves in a row, and at least the least that a state is to
/// have; questions have what that leaves of the window.
pub proof fn lemma_rows_share_their_room(
    layout: Layout,
    budget: Budget,
    state: nat,
    question: nat,
)
    ensures
        ({
            let marks: int = if layout == Layout::Laya {
                1
            } else {
                2
            };
            let least: int = if budget.min_state <= state {
                budget.min_state as int
            } else {
                state as int
            };
            let room = chunk_room(layout, budget, state, question);
            let cap = question_cap(layout, budget, state);
            &&& room >= 1
            &&& room >= least
            &&& budget.max_len - question - marks >= least && budget.max_len - question - marks >= 1
                ==> question + room + marks == budget.max_len
            &&& budget.max_window >= marks + least ==> cap + marks + least == budget.max_window
            &&& budget.max_window < marks + least ==> cap == 0
        }),
{
}

} // verus!
