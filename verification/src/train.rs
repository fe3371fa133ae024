//! What training decides: where a run starts from, in which order it sees its data, and when it
//! logs, measures, saves and forgets.

use vstd::prelude::*;
use vstd::string::*;

use crate::json::{self, add_member, natural, put, string, Json, JsonV, NumV};
use crate::model::{self, Layout};
use crate::pipeline::{self, all_indices};
use crate::random::{self, Rng};
use crate::sequence;
use crate::text::{self, comes_before, decimal, holds, parse_nat, same, strip_prefix, texts_push};

verus! {

broadcast use crate::json::lemma_tree;

/// Which layout a run trains.
#[derive(Clone, Copy, PartialEq, Eq, Structural, Debug)]
pub enum LayoutArg {
    Prefix,
    Laya,
}

/// The layout that a run trains.
pub open spec fn layout_of(l: LayoutArg) -> Layout {
    match l {
        LayoutArg::Prefix => Layout::Prefix,
        LayoutArg::Laya => Layout::Laya,
    }
}

impl From<LayoutArg> for Layout {
    fn from(l: LayoutArg) -> (r: Layout) {
        match l {
            LayoutArg::Prefix => Layout::Prefix,
            LayoutArg::Laya => Layout::Laya,
        }
    }
}

impl vstd::std_specs::convert::FromSpecImpl<LayoutArg> for Layout {
    open spec fn obeys_from_spec() -> bool {
        true
    }

    open spec fn from_spec(l: LayoutArg) -> Layout {
        layout_of(l)
    }
}

// ---------------------------------------------------------------------------------------------
// Where a run starts from

/// Where the encoder's configuration comes from.
#[derive(Clone, Copy, PartialEq, Eq, Structural, Debug)]
pub enum EncoderSource {
    /// A file of its own.
    Config,
    /// The checkpoint that is resumed.
    Resume,
    /// The model directory that training starts from.
    Init,
    /// The encoder directory that training starts from.
    InitEncoder,
}

/// Where the tokenizer comes from.
#[derive(Clone, Copy, PartialEq, Eq, Structural, Debug)]
pub enum TokenizerSource {
    /// A directory of its own.
    Given,
    /// The `tokenizer` directory of the checkpoint that is resumed.
    Resume,
    /// The `tokenizer` directory of the model directory.
    Init,
    /// The encoder directory itself.
    InitEncoder,
}

/// What a run lacks.
#[derive(Clone, Copy, PartialEq, Eq, Structural, Debug)]
pub enum SourceError {
    NoEncoder,
    NoTokenizer,
}

impl SourceError {
    /// The error in words.
    pub open spec fn words(self) -> Seq<char> {
        match self {
            SourceError::NoEncoder => "give --init, --init-encoder, --resume or --encoder-config"@,
            SourceError::NoTokenizer => "give --tokenizer (a directory with tokenizer.json)"@,
        }
    }

    /// The error in words.
    pub fn message(self) -> (r: &'static str)
        ensures
            r@ == self.words(),
    {
        match self {
            SourceError::NoEncoder => "give --init, --init-encoder, --resume or --encoder-config",
            SourceError::NoTokenizer => "give --tokenizer (a directory with tokenizer.json)",
        }
    }
}

/// Where the encoder comes from.
pub open spec fn encoder_from(
    config: bool,
    resume: bool,
    init: bool,
    init_encoder: bool,
) -> Result<EncoderSource, SourceError> {
    if config {
        Ok(EncoderSource::Config)
    } else if resume {
        Ok(EncoderSource::Resume)
    } else if init {
        Ok(EncoderSource::Init)
    } else if init_encoder {
        Ok(EncoderSource::InitEncoder)
    } else {
        Err(SourceError::NoEncoder)
    }
}

/// Where the tokenizer comes from.
pub open spec fn tokenizer_from(given: bool, encoder: EncoderSource) -> Result<
    TokenizerSource,
    SourceError,
> {
    if given {
        Ok(TokenizerSource::Given)
    } else {
        match encoder {
            EncoderSource::Config => Err(SourceError::NoTokenizer),
            EncoderSource::Resume => Ok(TokenizerSource::Resume),
            EncoderSource::Init => Ok(TokenizerSource::Init),
            EncoderSource::InitEncoder => Ok(TokenizerSource::InitEncoder),
        }
    }
}

/// Encoder and tokenizer come from what was given, and from one place unless the tokenizer was given
/// by itself; a source that was not given is not used, and a configuration brings no tokenizer.
pub proof fn lemma_sources_are_those_given(
    config: bool,
    resume: bool,
    init: bool,
    init_encoder: bool,
)
    ensures
        ({
            let r = encoder_from(config, resume, init, init_encoder);
            &&& r is Err <==> !config && !resume && !init && !init_encoder
            &&& r == Ok::<EncoderSource, SourceError>(EncoderSource::Config) <==> config
            &&& r == Ok::<EncoderSource, SourceError>(EncoderSource::Resume) <==> resume && !config
            &&& r == Ok::<EncoderSource, SourceError>(EncoderSource::Init) ==> init && !resume
            &&& r == Ok::<EncoderSource, SourceError>(EncoderSource::InitEncoder) ==> init_encoder
                && !init && !resume
            &&& r matches Ok(e) ==> {
                &&& tokenizer_from(true, e) == Ok::<TokenizerSource, SourceError>(
                    TokenizerSource::Given,
                )
                &&& tokenizer_from(false, e) is Err <==> config
                &&& tokenizer_from(false, e) == Ok::<TokenizerSource, SourceError>(
                    TokenizerSource::Resume,
                ) <==> resume && !config
                &&& tokenizer_from(false, e) == Ok::<TokenizerSource, SourceError>(
                    TokenizerSource::Init,
                ) ==> init
                &&& tokenizer_from(false, e) == Ok::<TokenizerSource, SourceError>(
                    TokenizerSource::InitEncoder,
                ) ==> init_encoder
            }
        }),
{
}

/// Where the encoder's configuration comes from, of what is given: a file of its own, else a
/// checkpoint to resume, else a model directory, else an encoder directory.
pub fn encoder_source(config: bool, resume: bool, init: bool, init_encoder: bool) -> (r: Result<
    EncoderSource,
    SourceError,
>)
    ensures
        r == (if config {
            Ok(EncoderSource::Config)
        } else if resume {
            Ok(EncoderSource::Resume)
        } else if init {
            Ok(EncoderSource::Init)
        } else if init_encoder {
            Ok(EncoderSource::InitEncoder)
        } else {
            Err(SourceError::NoEncoder)
        }),
        r == encoder_from(config, resume, init, init_encoder),
{
    if config {
        Ok(EncoderSource::Config)
    } else if resume {
        Ok(EncoderSource::Resume)
    } else if init {
        Ok(EncoderSource::Init)
    } else if init_encoder {
        Ok(EncoderSource::InitEncoder)
    } else {
        Err(SourceError::NoEncoder)
    }
}

/// Where the tokenizer comes from: a directory of its own when given, else from where the
/// encoder's configuration comes.
pub fn tokenizer_source(given: bool, encoder: EncoderSource) -> (r: Result<
    TokenizerSource,
    SourceError,
>)
    ensures
        r == (if given {
            Ok(TokenizerSource::Given)
        } else {
            match encoder {
                EncoderSource::Config => Err(SourceError::NoTokenizer),
                EncoderSource::Resume => Ok(TokenizerSource::Resume),
                EncoderSource::Init => Ok(TokenizerSource::Init),
                EncoderSource::InitEncoder => Ok(TokenizerSource::InitEncoder),
            }
        }),
        r == tokenizer_from(given, encoder),
{
    if given {
        return Ok(TokenizerSource::Given);
    }
    match encoder {
        EncoderSource::Config => Err(SourceError::NoTokenizer),
        EncoderSource::Resume => Ok(TokenizerSource::Resume),
        EncoderSource::Init => Ok(TokenizerSource::Init),
        EncoderSource::InitEncoder => Ok(TokenizerSource::InitEncoder),
    }
}

/// What is said when rows are longer than the encoder has positions; `None` when they are not.
pub fn check_length(max_len: usize, positions: usize) -> (r: Option<String>)
    ensures
        match r {
            None => max_len <= positions,
            Some(m) => max_len > positions && m@ == "max_len "@ + text::dec(max_len as nat)
                + " exceeds the encoder's "@ + text::dec(positions as nat) + " positions"@,
        },
{
    if max_len <= positions {
        return None;
    }
    let mut m = "max_len ".to_owned();
    m.append(decimal(max_len as u64).as_str());
    m.append(" exceeds the encoder's ");
    m.append(decimal(positions as u64).as_str());
    m.append(" positions");
    Some(m)
}

/// What is said when the optimizer and the run that is resumed are at different steps; `None` when
/// they agree.
pub fn check_step(optimizer: usize, trainer: usize) -> (r: Option<String>)
    ensures
        match r {
            None => optimizer == trainer,
            Some(m) => optimizer != trainer && m@ == "optimizer step "@ + text::dec(
                optimizer as nat,
            ) + " != trainer step "@ + text::dec(trainer as nat),
        },
{
    if optimizer == trainer {
        return None;
    }
    let mut m = "optimizer step ".to_owned();
    m.append(decimal(optimizer as u64).as_str());
    m.append(" != trainer step ");
    m.append(decimal(trainer as u64).as_str());
    Some(m)
}

/// How far a resumed run goes: as far as it is told now, or else as it was told.
pub fn resumed_steps(now: Option<usize>, then: Option<usize>) -> (r: Option<usize>)
    ensures
        r == (if now is Some {
            now
        } else {
            then
        }),
{
    match now {
        Some(n) => Some(n),
        None => then,
    }
}

// ---------------------------------------------------------------------------------------------
// Parameters

/// The names under which a checkpoint of an encoder may hold a tensor of the model: none for
/// anything but the encoder's.
pub open spec fn encoder_names(name: Seq<char>) -> Seq<Seq<char>> {
    if text::begins(name, "encoder."@) {
        let rest = name.skip("encoder."@.len() as int);
        seq!["model."@ + rest, rest]
    } else {
        Seq::empty()
    }
}

/// The names under which a checkpoint may hold a tensor of the model.
pub open spec fn candidate_names(name: Seq<char>, encoder_only: bool) -> Seq<Seq<char>> {
    if encoder_only {
        encoder_names(name)
    } else {
        seq![name]
    }
}

fn list_candidates(name: &str, encoder_only: bool) -> (r: Vec<String>)
    ensures
        text::texts(r@) == candidate_names(name@, encoder_only),
{
    let mut r: Vec<String> = Vec::new();
    if encoder_only {
        match strip_prefix(name, "encoder.") {
            Some(rest) => {
                let mut m = "model.".to_owned();
                m.append(rest.as_str());
                texts_push(&mut r, m);
                texts_push(&mut r, rest);
            },
            None => {},
        }
    } else {
        texts_push(&mut r, name.to_owned());
    }
    proof {
        assert(text::texts(r@) =~= candidate_names(name@, encoder_only));
    }
    r
}

/// The first of several names that a checkpoint has.
pub open spec fn first_known(cands: Seq<Seq<char>>, known: Seq<Seq<char>>) -> Option<Seq<char>>
    decreases cands.len(),
{
    if cands.len() == 0 {
        None
    } else if known.contains(cands[0]) {
        Some(cands[0])
    } else {
        first_known(cands.skip(1), known)
    }
}

/// The name under which a checkpoint with the tensors `known` holds a tensor of the model.
pub fn source_name(name: &str, known: &Vec<String>, encoder_only: bool) -> (r: Option<String>)
    ensures
        match r {
            Some(s) => first_known(candidate_names(name@, encoder_only), text::texts(known@))
                == Some(s@),
            None => first_known(
                candidate_names(name@, encoder_only),
                text::texts(known@),
            ) is None,
        },
{
    let cands = list_candidates(name, encoder_only);
    let ghost all = text::texts(cands@);
    let ghost have = text::texts(known@);
    let mut i: usize = 0;
    proof {
        assert(all.skip(0) =~= all);
    }
    while i < cands.len()
        invariant
            i <= cands@.len(),
            all == text::texts(cands@),
            all == candidate_names(name@, encoder_only),
            have == text::texts(known@),
            first_known(all, have) == first_known(all.skip(i as int), have),
        decreases cands@.len() - i,
    {
        proof {
            assert(all.skip(i as int)[0] == cands@[i as int]@);
            assert(all.skip(i as int).skip(1) =~= all.skip(i + 1));
        }
        if holds(known, cands[i].as_str()) {
            return Some(cands[i].clone());
        }
        i += 1;
    }
    None
}

/// The tensors of a model that a checkpoint lacks. One with an encoder only need not have the
/// others.
pub open spec fn lacking(
    names: Seq<Seq<char>>,
    known: Seq<Seq<char>>,
    encoder_only: bool,
) -> Seq<Seq<char>>
    decreases names.len(),
{
    if names.len() == 0 {
        Seq::empty()
    } else {
        let rest = lacking(names.drop_last(), known, encoder_only);
        let name = names.last();
        if (encoder_only && !text::begins(name, "encoder."@)) || first_known(
            candidate_names(name, encoder_only),
            known,
        ) is Some {
            rest
        } else {
            rest.push(name)
        }
    }
}

/// The tensors `names` of a model that a checkpoint with the tensors `known` lacks.
pub fn missing_tensors(names: &Vec<String>, known: &Vec<String>, encoder_only: bool) -> (r: Vec<
    String,
>)
    ensures
        text::texts(r@) == lacking(text::texts(names@), text::texts(known@), encoder_only),
{
    let ghost all = text::texts(names@);
    let mut r: Vec<String> = Vec::new();
    let mut i: usize = 0;
    proof {
        assert(all.take(0) =~= Seq::empty());
        assert(text::texts(r@) =~= Seq::empty());
    }
    while i < names.len()
        invariant
            i <= names@.len(),
            all == text::texts(names@),
            text::texts(r@) == lacking(all.take(i as int), text::texts(known@), encoder_only),
        decreases names@.len() - i,
    {
        proof {
            assert(all.take(i + 1).drop_last() =~= all.take(i as int));
            assert(all.take(i + 1).last() == names@[i as int]@);
        }
        let spared = encoder_only && strip_prefix(names[i].as_str(), "encoder.").is_none();
        if !spared && source_name(names[i].as_str(), known, encoder_only).is_none() {
            texts_push(&mut r, names[i].clone());
        }
        i += 1;
    }
    proof {
        assert(all.take(i as int) =~= all);
    }
    r
}

/// How a tensor is trained: with the encoder's learning rate or the head's, and with weight decay
/// when it is a matrix. Stored temperatures are not trained.
pub open spec fn trained_as(name: Seq<char>, rank: nat) -> Option<(nat, bool)> {
    if name == "temperature"@ {
        None
    } else if text::begins(name, "encoder."@) {
        Some((0, rank >= 2))
    } else {
        Some((1, rank >= 2))
    }
}

/// How a tensor is trained: its group, and whether its weights decay.
pub fn param_group(name: &str, rank: usize) -> (r: Option<(usize, bool)>)
    ensures
        match r {
            None => trained_as(name@, rank as nat) is None,
            Some((g, decay)) => trained_as(name@, rank as nat) == Some((g as nat, decay)),
        },
{
    if same(name, "temperature") {
        return None;
    }
    match strip_prefix(name, "encoder.") {
        Some(_) => Some((0, rank >= 2)),
        None => Some((1, rank >= 2)),
    }
}

// ---------------------------------------------------------------------------------------------
// Steps

/// How many optimizer steps an epoch of so many examples takes.
pub open spec fn steps_per_epoch(examples: int, batch: int, accum: int) -> int {
    pipeline::ceil_div(pipeline::ceil_div(examples, batch), accum)
}

/// How many optimizer steps a run takes: as many as it is told, or else as its epochs have, but at
/// least one.
pub open spec fn total_steps(per_epoch: int, epochs: int, max_steps: Option<usize>) -> int {
    let n = match max_steps {
        Some(n) => n as int,
        None => per_epoch * epochs,
    };
    if n >= 1 {
        n
    } else {
        1
    }
}

/// How many optimizer steps an epoch takes.
pub fn count_steps(examples: usize, batch: usize, accum: usize) -> (n: usize)
    requires
        batch > 0,
        accum > 0,
    ensures
        n == steps_per_epoch(examples as int, batch as int, accum as int),
{
    let b: usize = pipeline::div_up(examples, batch);
    pipeline::div_up(b, accum)
}

/// How many optimizer steps a run takes.
pub fn count_total(per_epoch: usize, epochs: usize, max_steps: Option<usize>) -> (n: usize)
    requires
        max_steps is None ==> per_epoch * epochs <= usize::MAX,
    ensures
        n == total_steps(per_epoch as int, epochs as int, max_steps),
{
    let n: usize = match max_steps {
        Some(n) => n,
        None => per_epoch * epochs,
    };
    if n >= 1 {
        n
    } else {
        1
    }
}

/// Where a step stands in the learning rate's schedule, as a fraction: of the warm-up, or of what
/// follows it.
#[derive(Clone, Copy, PartialEq, Eq, Structural, Debug)]
pub enum Phase {
    /// So far into the warm-up, the step included.
    Warmup(usize, usize),
    /// So far from the peak to the end; past the end it stays there.
    Decay(usize, usize),
}

/// Where a step stands in the learning rate's schedule.
pub open spec fn phase_of(step: int, warmup: int, total: int) -> (bool, int, int) {
    if step < warmup {
        (true, step + 1, warmup)
    } else {
        let span = if total > warmup {
            total - warmup
        } else {
            1
        };
        (
            false,
            if step - warmup < span {
                step - warmup
            } else {
                span
            },
            span,
        )
    }
}

impl Phase {
    /// Whether it is the warm-up, how far it is, and how long it lasts.
    pub open spec fn parts(self) -> (bool, int, int) {
        match self {
            Phase::Warmup(done, all) => (true, done as int, all as int),
            Phase::Decay(done, all) => (false, done as int, all as int),
        }
    }
}

/// The learning rate rises by equal steps until it is full after the warm-up, falls from there by
/// equal steps until nothing is left at the end, and stays there; no step is skipped.
pub proof fn lemma_rates_rise_and_fall_by_equal_steps(step: int, warmup: int, total: int)
    requires
        0 <= step,
        0 <= warmup,
        0 <= total,
    ensures
        ({
            let (rising, done, all) = phase_of(step, warmup, total);
            let (next_rising, next_done, next_all) = phase_of(step + 1, warmup, total);
            &&& 0 <= done <= all
            &&& all >= 1
            &&& rising <==> step < warmup
            &&& rising && next_rising ==> next_done == done + 1 && next_all == all
            &&& rising && !next_rising ==> done == all && next_done == 0
            &&& !rising ==> !next_rising && next_all == all && (next_done == done + 1 || next_done
                == done && done == all)
            &&& warmup < total && step >= total ==> done == all
            &&& warmup <= step < total ==> done < all
        }),
        warmup > 0 ==> phase_of(0, warmup, total) == (true, 1int, warmup),
        phase_of(warmup, warmup, total).1 == 0,
{
}

/// Where a step stands in the learning rate's schedule.
pub fn schedule_phase(step: usize, warmup: usize, total: usize) -> (r: Phase)
    requires
        step < usize::MAX,
    ensures
        r == (if step < warmup {
            Phase::Warmup((step + 1) as usize, warmup)
        } else {
            let span = if total > warmup {
                total - warmup
            } else {
                1
            };
            Phase::Decay(
                (if step - warmup < span {
                    step - warmup
                } else {
                    span
                }) as usize,
                span as usize,
            )
        }),
        r.parts() == phase_of(step as int, warmup as int, total as int),
{
    if step < warmup {
        return Phase::Warmup(step + 1, warmup);
    }
    let span: usize = if total > warmup {
        total - warmup
    } else {
        1
    };
    let done: usize = step - warmup;
    Phase::Decay(
        if done < span {
            done
        } else {
            span
        },
        span,
    )
}

/// What is done after a step.
#[derive(Clone, Copy, PartialEq, Eq, Structural, Debug)]
pub struct Due {
    pub log: bool,
    pub eval: bool,
    pub save: bool,
}

/// Whether a step is one of every `n`; none is when `n` is 0.
pub open spec fn every(step: int, n: int) -> bool {
    n > 0 && step % n == 0
}

/// What is done after a step (counted from one): it is logged every so many steps and at the end,
/// and the run is measured and saved every so many steps but not at the end.
pub fn due_after(
    step: usize,
    total: usize,
    log_every: usize,
    eval_every: usize,
    save_every: usize,
    can_eval: bool,
) -> (r: Due)
    requires
        step >= 1,
    ensures
        r.log == (every(step as int, log_every as int) || step == total),
        r.eval == (every(step as int, eval_every as int) && step < total && can_eval),
        r.save == (every(step as int, save_every as int) && step < total),
{
    Due {
        log: (log_every > 0 && step % log_every == 0) || step == total,
        eval: eval_every > 0 && step % eval_every == 0 && step < total && can_eval,
        save: save_every > 0 && step % save_every == 0 && step < total,
    }
}

// ---------------------------------------------------------------------------------------------
// Data order

/// Where a run stands in its data.
#[derive(Clone, Copy, PartialEq, Eq, Structural, Debug)]
pub struct Cursor {
    pub epoch: usize,
    /// The next micro-batch of the epoch.
    pub batch: usize,
}

impl Cursor {
    /// The epoch and the micro-batch.
    pub open spec fn place(self) -> (int, int) {
        (self.epoch as int, self.batch as int)
    }
}

/// The micro-batch that is run next: the first of a new epoch when this one is over.
pub open spec fn turned(c: (int, int), batches: int) -> (int, int) {
    if c.1 >= batches {
        (c.0 + 1, 0)
    } else {
        c
    }
}

/// Where a run stands after `n` more micro-batches.
pub open spec fn reached(c: (int, int), batches: int, n: nat) -> (int, int)
    decreases n,
{
    if n == 0 {
        c
    } else {
        let t = turned(reached(c, batches, (n - 1) as nat), batches);
        (t.0, t.1 + 1)
    }
}

/// The next `n` micro-batches.
pub open spec fn upcoming(c: (int, int), batches: int, n: nat) -> Seq<(int, int)> {
    Seq::new(n, |i: int| turned(reached(c, batches, i as nat), batches))
}

/// A run that stops after `j` micro-batches and goes on from there for `k` more runs the very
/// micro-batches that it would have run without stopping, and ends where it would have ended.
pub proof fn lemma_resuming_changes_nothing(c: (int, int), batches: int, j: nat, k: nat)
    ensures
        reached(c, batches, j + k) == reached(reached(c, batches, j), batches, k),
        upcoming(c, batches, j + k) == upcoming(c, batches, j) + upcoming(
            reached(c, batches, j),
            batches,
            k,
        ),
    decreases k,
{
    let whole = upcoming(c, batches, j + k);
    let parts = upcoming(c, batches, j) + upcoming(reached(c, batches, j), batches, k);
    if k > 0 {
        let l = (k - 1) as nat;
        lemma_resuming_changes_nothing(c, batches, j, l);
        let shorter = upcoming(c, batches, j) + upcoming(reached(c, batches, j), batches, l);
        assert forall|i: int| 0 <= i < j + k implies whole[i] == parts[i] by {
            if i < j + l {
                assert(upcoming(c, batches, j + l)[i] == shorter[i]);
                assert(whole[i] == upcoming(c, batches, j + l)[i]);
                assert(parts[i] == shorter[i]);
            } else {
                assert(parts[i] == upcoming(reached(c, batches, j), batches, k)[l as int]);
            }
        }
    }
    assert(whole =~= parts);
}

proof fn lemma_reached(batches: int, n: nat)
    requires
        batches > 0,
    ensures
        ({
            let c = reached((0, 0), batches, n);
            &&& 0 <= c.0
            &&& 0 <= c.1 <= batches
            &&& c.0 * batches + c.1 == n
        }),
    decreases n,
{
    if n > 0 {
        let m = (n - 1) as nat;
        lemma_reached(batches, m);
        let c = reached((0, 0), batches, m);
        let d = reached((0, 0), batches, n);
        let (e, b) = c;
        if b >= batches {
            assert(d == (e + 1, 1int));
            assert((e + 1) * batches + 1 == e * batches + b + 1) by (nonlinear_arith)
                requires
                    b == batches,
            ;
            assert(d.0 * batches + d.1 == n);
        } else {
            assert(d == (e, b + 1));
            assert(d.0 * batches == e * batches);
            assert(d.0 * batches + d.1 == n);
        }
    } else {
        assert(reached((0, 0), batches, 0) == (0int, 0int));
        assert(0 * batches == 0) by (nonlinear_arith);
    }
}

/// From the start, the micro-batches are those of one epoch after the other, each epoch's in
/// order.
pub proof fn lemma_epochs_follow_each_other(batches: int, n: nat)
    requires
        batches > 0,
    ensures
        forall|i: int|
            0 <= i < n ==> #[trigger] upcoming((0, 0), batches, n)[i] == (i / batches, i % batches),
{
    assert forall|i: int| 0 <= i < n implies #[trigger] upcoming((0, 0), batches, n)[i] == (
        i / batches,
        i % batches,
    ) by {
        lemma_reached(batches, i as nat);
        let c = reached((0, 0), batches, i as nat);
        let t = turned(c, batches);
        let (e, b) = c;
        if b >= batches {
            assert((e + 1) * batches == e * batches + b) by (nonlinear_arith)
                requires
                    b == batches,
            ;
            assert(t == (e + 1, 0int));
        }
        assert(t.0 * batches + t.1 == i);
        vstd::arithmetic::div_mod::lemma_fundamental_div_mod_converse(i, batches, t.0, t.1);
    }
}

/// How a run goes: how many steps it takes, how many micro-batches a step, and how many an epoch
/// has.
#[derive(Clone, Copy, PartialEq, Eq, Structural, Debug)]
pub struct Course {
    pub total: usize,
    pub accum: usize,
    pub batches: usize,
}

/// What a run does next.
#[derive(Clone, Copy, PartialEq, Eq, Structural, Debug)]
pub enum Action {
    /// Runs a micro-batch and adds up its gradients. Its epoch may be new.
    Pass(Cursor, bool),
    /// Takes a step along the gradients.
    Update,
    /// The run is over.
    Finish,
}

/// Where a run stands.
#[derive(Clone, Copy, PartialEq, Eq, Structural, Debug)]
pub struct Progress {
    /// Steps taken.
    pub step: usize,
    pub cursor: Cursor,
    /// Micro-batches run for the step at hand.
    pub passes: usize,
}

impl Progress {
    /// Whether a run that began with its data at `start` stands here: it has run as many
    /// micro-batches as its steps took and the step at hand has.
    pub open spec fn follows(self, course: Course, start: (int, int)) -> bool {
        &&& self.passes <= course.accum
        &&& self.cursor.place() == reached(
            start,
            course.batches as int,
            (self.step * course.accum + self.passes) as nat,
        )
    }

    /// Moves on, and returns what to do.
    pub fn next(&mut self, course: &Course) -> (r: Action)
        requires
            course.batches > 0,
            old(self).cursor.epoch < usize::MAX,
        ensures
            if old(self).step >= course.total {
                r == Action::Finish && *final(self) == *old(self)
            } else if old(self).passes < course.accum {
                &&& r matches Action::Pass(at, fresh)
                &&& at.place() == turned(old(self).cursor.place(), course.batches as int)
                &&& at.batch < course.batches
                &&& fresh == (old(self).cursor.batch >= course.batches)
                &&& final(self).cursor.place() == (at.epoch as int, at.batch + 1)
                &&& final(self).step == old(self).step
                &&& final(self).passes == old(self).passes + 1
            } else {
                &&& r == Action::Update
                &&& final(self).cursor == old(self).cursor
                &&& final(self).step == old(self).step + 1
                &&& final(self).passes == 0
            },
            forall|start: (int, int)|
                old(self).follows(*course, start) ==> #[trigger] final(self).follows(
                    *course,
                    start,
                ),
    {
        if self.step >= course.total {
            return Action::Finish;
        }
        let ghost before = *self;
        let ghost n = course.batches as int;
        let ghost s = before.step as int;
        let ghost a = course.accum as int;
        if self.passes >= course.accum {
            self.step += 1;
            self.passes = 0;
            proof {
                assert((s + 1) * a == s * a + a) by (nonlinear_arith);
            }
            return Action::Update;
        }
        let fresh = self.cursor.batch >= course.batches;
        if fresh {
            self.cursor.epoch += 1;
            self.cursor.batch = 0;
        }
        let at = self.cursor;
        self.cursor.batch += 1;
        self.passes += 1;
        proof {
            assert(s * a >= 0) by (nonlinear_arith)
                requires
                    s >= 0,
                    a >= 0,
            ;
            assert forall|start: (int, int)| before.follows(*course, start) implies #[trigger] self.follows(
                *course,
                start,
            ) by {
                let k = (s * a + before.passes) as nat;
                assert(reached(start, n, k + 1) == ({
                    let t = turned(reached(start, n, k), n);
                    (t.0, t.1 + 1)
                }));
            }
        }
        Action::Pass(at, fresh)
    }
}

/// Where a micro-batch begins and ends among an epoch's examples.
pub open spec fn micro_span(batch: int, size: int, examples: int) -> (int, int) {
    (
        batch * size,
        if batch * size + size < examples {
            batch * size + size
        } else {
            examples
        },
    )
}

/// The micro-batches of an epoch follow each other without a gap, from its first example to its
/// last, none larger than the others' size and only the last smaller.
pub proof fn lemma_micro_batches_follow_each_other(batch: int, size: int, examples: int)
    requires
        batch >= 0,
        size >= 1,
        batch * size <= examples,
    ensures
        ({
            let (a, b) = micro_span(batch, size, examples);
            &&& micro_span(0, size, examples).0 == 0
            &&& 0 <= a <= b <= examples
            &&& b - a <= size
            &&& b < examples ==> b - a == size && micro_span(batch + 1, size, examples).0 == b
            &&& batch == pipeline::ceil_div(examples, size) - 1 ==> b == examples
        }),
{
    assert(batch * size >= 0) by (nonlinear_arith)
        requires
            batch >= 0,
            size >= 1,
    ;
    assert((batch + 1) * size == batch * size + size) by (nonlinear_arith);
    assert(0 * size == 0) by (nonlinear_arith);
    pipeline::lemma_ceil_div(examples, size);
}

/// The examples of a micro-batch: where it begins and ends in the epoch's order.
pub fn micro_batch(batch: usize, size: usize, examples: usize) -> (r: (usize, usize))
    requires
        batch * size <= examples,
    ensures
        r.0 == batch * size,
        r.1 == (if batch * size + size < examples {
            batch * size + size
        } else {
            examples as int
        }),
        (r.0 as int, r.1 as int) == micro_span(batch as int, size as int, examples as int),
{
    let a: usize = batch * size;
    let b: usize = if size < examples - a {
        a + size
    } else {
        examples
    };
    (a, b)
}

/// The seed of an epoch's order.
pub open spec fn epoch_seed(seed: u64, epoch: nat) -> u64 {
    seed ^ random::word(epoch as int * 0xA24B_AED4_963E_E407)
}

/// The seed of the augmentation of an example in an epoch.
pub open spec fn example_seed(seed: u64, epoch: u64, example: nat) -> u64 {
    seed ^ (epoch << 40u64) ^ random::word(example as int * 0x9E37_79B9)
}

/// The generator for the augmentation of an example in an epoch.
pub fn example_rng(seed: u64, epoch: usize, example: usize) -> (r: Rng)
    ensures
        r.0 == example_seed(seed, epoch as u64, example as nat),
{
    Rng(seed ^ ((epoch as u64) << 40) ^ (example as u64).wrapping_mul(0x9E37_79B9))
}

/// A list in order of length, with one more put behind all that are no longer than it.
pub open spec fn settled(lens: Seq<usize>, s: Seq<usize>, x: usize) -> Seq<usize>
    decreases s.len(),
{
    if s.len() == 0 || lens[s.last() as int] <= lens[x as int] {
        s.push(x)
    } else {
        settled(lens, s.drop_last(), x).push(s.last())
    }
}

/// A list in order of length; equal lengths keep their order.
pub open spec fn by_length(lens: Seq<usize>, s: Seq<usize>) -> Seq<usize>
    decreases s.len(),
{
    if s.len() == 0 {
        s
    } else {
        settled(lens, by_length(lens, s.drop_last()), s.last())
    }
}

/// A list, sorted by length inside windows.
pub open spec fn windowed(lens: Seq<usize>, s: Seq<usize>, window: nat) -> Seq<usize>
    decreases s.len(),
{
    if s.len() <= window || window == 0 {
        by_length(lens, s)
    } else {
        by_length(lens, s.take(window as int)) + windowed(lens, s.skip(window as int), window)
    }
}

/// A list in pieces of one size; the last may be shorter.
pub open spec fn pieces(s: Seq<usize>, size: nat) -> Seq<Seq<usize>>
    decreases s.len(),
{
    if s.len() == 0 || size == 0 {
        Seq::empty()
    } else if s.len() <= size {
        seq![s]
    } else {
        seq![s.take(size as int)] + pieces(s.skip(size as int), size)
    }
}

/// The order in which an epoch sees its examples: shuffled, then sorted by length inside windows
/// of fifty batches so that batches carry little padding, and the batches shuffled.
pub open spec fn epoch_order_of(lens: Seq<usize>, seed: u64, epoch: nat, batch: nat) -> Seq<usize> {
    let n = lens.len();
    let (s, idx) = random::shuffled(epoch_seed(seed, epoch), pipeline::indices(n), n - 1);
    let cut = pieces(windowed(lens, idx, batch * 50), batch);
    pipeline::concat(random::shuffled(s, cut, cut.len() - 1).1)
}

/// Whether every index of a list names an example.
pub open spec fn names_examples(lens: Seq<usize>, s: Seq<usize>) -> bool {
    forall|i: int| 0 <= i < s.len() ==> (#[trigger] s[i]) < lens.len()
}

proof fn lemma_settled(lens: Seq<usize>, s: Seq<usize>, x: usize)
    requires
        names_examples(lens, s),
        x < lens.len(),
    ensures
        settled(lens, s, x).len() == s.len() + 1,
        names_examples(lens, settled(lens, s, x)),
        settled(lens, s, x).to_multiset() == s.to_multiset().insert(x),
    decreases s.len(),
{
    broadcast use vstd::seq_lib::group_to_multiset_ensures;

    if s.len() > 0 && lens[s.last() as int] > lens[x as int] {
        let front = s.drop_last();
        lemma_settled(lens, front, x);
        assert(front.push(s.last()) =~= s);
        assert(settled(lens, s, x).to_multiset() =~= s.to_multiset().insert(x));
    }
}

/// Puts `x` behind all that are no longer than it.
fn settle(lens: &Vec<usize>, v: &mut Vec<usize>, x: usize)
    requires
        names_examples(lens@, old(v)@),
        x < lens@.len(),
    ensures
        final(v)@ == settled(lens@, old(v)@, x),
        names_examples(lens@, final(v)@),
{
    let ghost s = v@;
    v.push(x);
    let mut i: usize = v.len() - 1;
    proof {
        assert(s.take(i as int) =~= s);
        assert(settled(lens@, s, x) =~= settled(lens@, s.take(i as int), x) + s.skip(i as int));
        assert(v@ =~= s.take(i as int).push(v@[i as int]) + s.skip(i as int));
        lemma_settled(lens@, s, x);
    }
    while i > 0 && lens[v[i - 1]] > lens[x]
        invariant
            i <= s.len(),
            x < lens@.len(),
            names_examples(lens@, s),
            v@.len() == s.len() + 1,
            v@ == s.take(i as int).push(v@[i as int]) + s.skip(i as int),
            i > 0 ==> v@[i - 1] == s[i - 1] && s[i - 1] < lens@.len(),
            settled(lens@, s, x) == settled(lens@, s.take(i as int), x) + s.skip(i as int),
        decreases i,
    {
        let y: usize = v[i - 1];
        v.set(i, y);
        proof {
            let t = s.take(i as int);
            assert(t.last() == s[i - 1]);
            assert(t.drop_last() =~= s.take(i - 1));
            assert(settled(lens@, t, x) == settled(lens@, s.take(i - 1), x).push(s[i - 1]));
            assert(settled(lens@, s, x) =~= settled(lens@, s.take(i - 1), x) + s.skip(i - 1));
            assert(v@ =~= s.take(i - 1).push(v@[i - 1]) + s.skip(i - 1));
            if i - 1 > 0 {
                assert(v@[i - 2] == s[i - 2]);
            }
        }
        i -= 1;
    }
    v.set(i, x);
    proof {
        let t = s.take(i as int);
        if i > 0 {
            assert(t.last() == s[i - 1]);
        }
        assert(settled(lens@, t, x) == t.push(x));
        assert(v@ =~= t.push(x) + s.skip(i as int));
    }
}

proof fn lemma_by_length(lens: Seq<usize>, s: Seq<usize>)
    requires
        names_examples(lens, s),
    ensures
        by_length(lens, s).len() == s.len(),
        names_examples(lens, by_length(lens, s)),
        by_length(lens, s).to_multiset() == s.to_multiset(),
    decreases s.len(),
{
    broadcast use vstd::seq_lib::group_to_multiset_ensures;

    if s.len() > 0 {
        let front = s.drop_last();
        lemma_by_length(lens, front);
        lemma_settled(lens, by_length(lens, front), s.last());
        assert(front.push(s.last()) =~= s);
        assert(by_length(lens, s).to_multiset() =~= s.to_multiset());
    }
}

/// Sorting by length leaves no longer example before a shorter one.
pub proof fn lemma_sorted_by_length(lens: Seq<usize>, s: Seq<usize>, i: int, j: int)
    requires
        names_examples(lens, s),
        0 <= i < j < s.len(),
    ensures
        by_length(lens, s).len() == s.len(),
        lens[by_length(lens, s)[i] as int] <= lens[by_length(lens, s)[j] as int],
{
    lemma_all_sorted(lens, s);
    lemma_by_length(lens, s);
}

spec fn in_order(lens: Seq<usize>, s: Seq<usize>) -> bool {
    forall|i: int, j: int|
        0 <= i < j < s.len() ==> lens[#[trigger] s[i] as int] <= lens[#[trigger] s[j] as int]
}

proof fn lemma_settled_in_order(lens: Seq<usize>, s: Seq<usize>, x: usize)
    requires
        names_examples(lens, s),
        x < lens.len(),
        in_order(lens, s),
    ensures
        in_order(lens, settled(lens, s, x)),
        forall|y: usize|
            y < lens.len() && lens[y as int] >= lens[x as int] && (s.len() > 0 ==> lens[y as int]
                >= lens[s.last() as int]) ==> forall|i: int|
                0 <= i < settled(lens, s, x).len() ==> lens[#[trigger] settled(
                    lens,
                    s,
                    x,
                )[i] as int] <= #[trigger] lens[y as int],
    decreases s.len(),
{
    let r = settled(lens, s, x);
    lemma_settled(lens, s, x);
    if s.len() > 0 && lens[s.last() as int] > lens[x as int] {
        let front = s.drop_last();
        lemma_settled_in_order(lens, front, x);
        lemma_settled(lens, front, x);
        let t = settled(lens, front, x);
        let last = s.last();
        assert(front.len() > 0 ==> lens[last as int] >= lens[front.last() as int]);
        assert forall|i: int| 0 <= i < t.len() implies lens[#[trigger] t[i] as int]
            <= lens[last as int] by {
            assert(lens[settled(lens, front, x)[i] as int] <= lens[last as int]);
        }
        assert forall|i: int, j: int| 0 <= i < j < r.len() implies lens[#[trigger] r[i] as int]
            <= lens[#[trigger] r[j] as int] by {
            if j < t.len() {
                assert(t[i] == r[i] && t[j] == r[j]);
            } else {
                assert(t[i] == r[i]);
            }
        }
        assert forall|y: usize|
            y < lens.len() && lens[y as int] >= lens[x as int] && (s.len() > 0 ==> lens[y as int]
                >= lens[s.last() as int]) implies forall|i: int|
            0 <= i < r.len() ==> lens[#[trigger] r[i] as int] <= #[trigger] lens[y as int] by {
            assert forall|i: int| 0 <= i < r.len() implies lens[#[trigger] r[i] as int]
                <= lens[y as int] by {
                if i < t.len() {
                    assert(t[i] == r[i]);
                }
            }
        }
    } else {
        assert forall|i: int, j: int| 0 <= i < j < r.len() implies lens[#[trigger] r[i] as int]
            <= lens[#[trigger] r[j] as int] by {
            if j == s.len() && i < s.len() - 1 {
                assert(lens[s[i] as int] <= lens[s[s.len() - 1] as int]);
            }
        }
        assert forall|y: usize|
            y < lens.len() && lens[y as int] >= lens[x as int] && (s.len() > 0 ==> lens[y as int]
                >= lens[s.last() as int]) implies forall|i: int|
            0 <= i < r.len() ==> lens[#[trigger] r[i] as int] <= #[trigger] lens[y as int] by {
            assert forall|i: int| 0 <= i < r.len() implies lens[#[trigger] r[i] as int]
                <= lens[y as int] by {
                if i < s.len() - 1 {
                    assert(lens[s[i] as int] <= lens[s[s.len() - 1] as int]);
                }
            }
        }
    }
}

proof fn lemma_all_sorted(lens: Seq<usize>, s: Seq<usize>)
    requires
        names_examples(lens, s),
    ensures
        in_order(lens, by_length(lens, s)),
    decreases s.len(),
{
    if s.len() > 0 {
        let front = s.drop_last();
        lemma_all_sorted(lens, front);
        lemma_by_length(lens, front);
        lemma_settled_in_order(lens, by_length(lens, front), s.last());
    }
}

fn sort_window(lens: &Vec<usize>, s: &[usize]) -> (r: Vec<usize>)
    requires
        names_examples(lens@, s@),
    ensures
        r@ == by_length(lens@, s@),
        r@.len() == s@.len(),
{
    let mut r: Vec<usize> = Vec::new();
    let mut i: usize = 0;
    proof {
        assert(s@.take(0) =~= r@);
    }
    while i < s.len()
        invariant
            i <= s@.len(),
            names_examples(lens@, s@),
            names_examples(lens@, r@),
            r@ == by_length(lens@, s@.take(i as int)),
        decreases s@.len() - i,
    {
        proof {
            assert(s@.take(i + 1).drop_last() =~= s@.take(i as int));
            assert(s@[i as int] < lens@.len());
        }
        settle(lens, &mut r, s[i]);
        i += 1;
    }
    proof {
        assert(s@.take(i as int) =~= s@);
        lemma_by_length(lens@, s@);
    }
    r
}

proof fn lemma_windowed(lens: Seq<usize>, s: Seq<usize>, window: nat)
    requires
        names_examples(lens, s),
    ensures
        windowed(lens, s, window).len() == s.len(),
        windowed(lens, s, window).to_multiset() == s.to_multiset(),
    decreases s.len(),
{
    if s.len() <= window || window == 0 {
        lemma_by_length(lens, s);
    } else {
        let a = s.take(window as int);
        let b = s.skip(window as int);
        lemma_by_length(lens, a);
        lemma_windowed(lens, b, window);
        assert(a + b =~= s);
        vstd::seq_lib::lemma_multiset_commutative(a, b);
        vstd::seq_lib::lemma_multiset_commutative(by_length(lens, a), windowed(lens, b, window));
    }
}

fn sort_windows(lens: &Vec<usize>, s: &Vec<usize>, window: usize) -> (r: Vec<usize>)
    requires
        names_examples(lens@, s@),
        window > 0,
    ensures
        r@ == windowed(lens@, s@, window as nat),
        r@.len() == s@.len(),
{
    let n: usize = s.len();
    let mut r: Vec<usize> = Vec::new();
    let mut a: usize = 0;
    proof {
        assert(s@.skip(0) =~= s@);
        assert(r@ + windowed(lens@, s@.skip(0), window as nat) =~= windowed(
            lens@,
            s@,
            window as nat,
        ));
    }
    while n - a > window
        invariant
            a <= n,
            n == s@.len(),
            window > 0,
            names_examples(lens@, s@),
            r@ + windowed(lens@, s@.skip(a as int), window as nat) == windowed(
                lens@,
                s@,
                window as nat,
            ),
        decreases n - a,
    {
        let part = &s.as_slice()[a..a + window];
        proof {
            assert(part@ =~= s@.skip(a as int).take(window as int));
            assert forall|i: int| 0 <= i < part@.len() implies (#[trigger] part@[i]) < lens@.len() by {
                assert(part@[i] == s@[a + i]);
            }
            assert(s@.skip(a as int).skip(window as int) =~= s@.skip(a + window));
        }
        let done = sort_window(lens, part);
        let ghost before = r@;
        r.extend_from_slice(done.as_slice());
        proof {
            assert(r@ + windowed(lens@, s@.skip(a + window), window as nat) =~= before + windowed(
                lens@,
                s@.skip(a as int),
                window as nat,
            ));
        }
        a += window;
    }
    let part = &s.as_slice()[a..n];
    proof {
        assert(part@ =~= s@.skip(a as int));
        assert forall|i: int| 0 <= i < part@.len() implies (#[trigger] part@[i]) < lens@.len() by {
            assert(part@[i] == s@[a + i]);
        }
        lemma_windowed(lens@, s@, window as nat);
    }
    let done = sort_window(lens, part);
    r.extend_from_slice(done.as_slice());
    r
}

/// The `b`th piece of a list.
pub open spec fn piece(s: Seq<usize>, size: int, b: int) -> Seq<usize> {
    s.subrange(
        b * size,
        if b * size + size < s.len() {
            b * size + size
        } else {
            s.len() as int
        },
    )
}

/// Pieces make up the list, and there are as many as it takes.
proof fn lemma_pieces(s: Seq<usize>, size: nat)
    requires
        size > 0,
    ensures
        pieces(s, size).len() == pipeline::ceil_div(s.len() as int, size as int),
        pipeline::concat(pieces(s, size)) == s,
    decreases s.len(),
{
    let p = pieces(s, size);
    let n = s.len() as int;
    let k = size as int;
    assert(pipeline::concat(Seq::<Seq<usize>>::empty()) =~= Seq::empty());
    if n == 0 {
        assert(p =~= Seq::empty());
        assert(0 * k == 0 && (0 - 1) * k < 0) by (nonlinear_arith)
            requires
                k > 0,
        ;
        pipeline::lemma_ceil_div_is(0, k, 0);
        assert(pipeline::concat(p) =~= s);
    } else if n <= k {
        assert(1 * k == k && (1 - 1) * k == 0) by (nonlinear_arith);
        pipeline::lemma_ceil_div_is(n, k, 1);
        assert(p =~= seq![s]);
        assert(p.drop_last() =~= Seq::empty());
        assert(pipeline::concat(p) =~= s);
    } else {
        let rest = s.skip(k);
        lemma_pieces(rest, size);
        let q = pieces(rest, size);
        let m = pipeline::ceil_div(n - k, k);
        pipeline::lemma_ceil_div(n - k, k);
        assert((m + 1) * k == m * k + k && (m + 1 - 1) * k == m * k && (m - 1) * k == m * k - k)
            by (nonlinear_arith);
        pipeline::lemma_ceil_div_is(n, k, m + 1);
        assert(p =~= seq![s.take(k)] + q);
        lemma_concat_front(s.take(k), q);
        assert(s.take(k) + rest =~= s);
    }
}

/// Pieces stand at multiples of their size.
proof fn lemma_piece(s: Seq<usize>, size: nat, b: int)
    requires
        size > 0,
        0 <= b < pieces(s, size).len(),
    ensures
        0 <= b * size < s.len(),
        pieces(s, size)[b] == piece(s, size as int, b),
    decreases s.len(),
{
    let p = pieces(s, size);
    let n = s.len() as int;
    let k = size as int;
    if n <= k {
        assert(0 * k == 0) by (nonlinear_arith);
        assert(s.subrange(0, n) =~= s);
    } else {
        let rest = s.skip(k);
        let q = pieces(rest, size);
        assert(p =~= seq![s.take(k)] + q);
        if b == 0 {
            assert(0 * k == 0) by (nonlinear_arith);
            assert(s.subrange(0, k) =~= s.take(k));
        } else {
            lemma_piece(rest, size, b - 1);
            assert((b - 1) * k == b * k - k) by (nonlinear_arith);
            assert(p[b] == q[b - 1]);
            assert(piece(rest, k, b - 1) =~= piece(s, k, b));
        }
    }
}

proof fn lemma_concat_front(a: Seq<usize>, q: Seq<Seq<usize>>)
    ensures
        pipeline::concat(seq![a] + q) == a + pipeline::concat(q),
    decreases q.len(),
{
    let all = seq![a] + q;
    assert(pipeline::concat(Seq::<Seq<usize>>::empty()) =~= Seq::empty());
    if q.len() == 0 {
        assert(all =~= seq![a]);
        assert(all.drop_last() =~= Seq::empty());
        assert(pipeline::concat(all) =~= a + pipeline::concat(q));
    } else {
        assert(all.drop_last() =~= seq![a] + q.drop_last());
        lemma_concat_front(a, q.drop_last());
        assert(pipeline::concat(all) =~= a + pipeline::concat(q));
    }
}

/// Shuffling what stands for things shuffles the things.
proof fn lemma_shuffled_map<A, B>(s: u64, v: Seq<A>, w: Seq<B>, f: spec_fn(A) -> B, i: int)
    requires
        i < v.len(),
        v.len() == w.len(),
        forall|j: int| 0 <= j < v.len() ==> w[j] == f(#[trigger] v[j]),
    ensures
        random::shuffled(s, w, i).0 == random::shuffled(s, v, i).0,
        random::shuffled(s, w, i).1.len() == v.len(),
        random::shuffled(s, v, i).1.len() == v.len(),
        forall|j: int|
            0 <= j < v.len() ==> random::shuffled(s, w, i).1[j] == f(
                #[trigger] random::shuffled(s, v, i).1[j],
            ),
    decreases i,
{
    if i >= 1 {
        let k = random::drawn_below(s, (i + 1) as nat) as int;
        assert(0 <= (random::drawn(s) as int) % (i + 1) && (random::drawn(s) as int) % (i + 1) < i + 1)
            by (nonlinear_arith)
            requires
                i >= 1,
        ;
        let v2 = random::exchanged(v, i, k);
        let w2 = random::exchanged(w, i, k);
        assert forall|j: int| 0 <= j < v2.len() implies w2[j] == f(#[trigger] v2[j]) by {
            assert(w[i] == f(v[i]));
            assert(w[k] == f(v[k]));
            if j != i && j != k {
                assert(w[j] == f(v[j]));
            }
        }
        lemma_shuffled_map(random::stepped(s), v2, w2, f, i - 1);
    }
}

/// The order in which an epoch sees its examples.
pub fn epoch_order(lens: &Vec<usize>, seed: u64, epoch: usize, batch: usize) -> (r: Vec<usize>)
    requires
        batch > 0,
    ensures
        r@ == epoch_order_of(lens@, seed, epoch as nat, batch as nat),
{
    let n: usize = lens.len();
    let mut rng = Rng(seed ^ (epoch as u64).wrapping_mul(0xA24B_AED4_963E_E407));
    let ghost start = rng.0;
    let mut idx = all_indices(n);
    rng.shuffle(&mut idx);
    let ghost between = rng.0;
    proof {
        assert(start == epoch_seed(seed, epoch as nat));
        lemma_shuffled_indices(start, n as nat);
    }
    // A window that no length can count holds all examples.
    let window: usize = match batch.checked_mul(50) {
        Some(w) => w,
        None => usize::MAX,
    };
    let sorted = sort_windows(lens, &idx, window);
    proof {
        assert(windowed(lens@, idx@, window as nat) == windowed(lens@, idx@, (batch * 50) as nat));
    }
    let ghost cut = pieces(sorted@, batch as nat);
    proof {
        lemma_pieces(sorted@, batch as nat);
    }
    let count: usize = pipeline::div_up(n, batch);
    let mut which = all_indices(count);
    rng.shuffle(&mut which);
    let ghost f = |b: usize| cut[b as int];
    let ghost mixed = random::shuffled(between, cut, cut.len() - 1).1;
    proof {
        if count > 0 {
            lemma_shuffled_map(
                between,
                pipeline::indices(count as nat),
                cut,
                f,
                count - 1,
            );
            lemma_shuffled_indices(between, count as nat);
        } else {
            assert(mixed =~= Seq::empty());
        }
    }
    let mut r: Vec<usize> = Vec::new();
    let mut i: usize = 0;
    proof {
        assert(mixed.take(0) =~= Seq::empty());
        assert(r@ =~= pipeline::concat(mixed.take(0)));
    }
    while i < which.len()
        invariant
            i <= which@.len(),
            which@.len() == count,
            mixed.len() == count,
            cut.len() == count,
            n == sorted@.len(),
            batch > 0,
            cut == pieces(sorted@, batch as nat),
            forall|j: int| 0 <= j < count ==> (#[trigger] which@[j]) < count,
            forall|j: int| 0 <= j < count ==> mixed[j] == cut[#[trigger] which@[j] as int],
            r@ == pipeline::concat(mixed.take(i as int)),
        decreases which@.len() - i,
    {
        let b: usize = which[i];
        proof {
            assert(b < count);
            lemma_piece(sorted@, batch as nat, b as int);
        }
        let (from, to) = micro_batch(b, batch, n);
        let part = &sorted.as_slice()[from..to];
        let ghost before = r@;
        r.extend_from_slice(part);
        proof {
            assert(mixed.take(i + 1).drop_last() =~= mixed.take(i as int));
            assert(part@ == mixed[i as int]);
            assert(r@ =~= pipeline::concat(mixed.take(i + 1)));
        }
        i += 1;
    }
    proof {
        assert(mixed.take(i as int) =~= mixed);
    }
    r
}

/// Shuffled indices are still those indices.
proof fn lemma_shuffled_indices(s: u64, n: nat)
    requires
        n <= usize::MAX,
    ensures
        ({
            let r = random::shuffled(s, pipeline::indices(n), n - 1).1;
            &&& r.len() == n
            &&& forall|i: int| 0 <= i < n ==> (#[trigger] r[i]) < n
        }),
{
    let start = pipeline::indices(n);
    let r = random::shuffled(s, start, n - 1).1;
    if n > 0 {
        random::lemma_shuffling_keeps_all(s, start, n - 1);
        r.to_multiset_ensures();
        start.to_multiset_ensures();
        assert forall|i: int| 0 <= i < n implies (#[trigger] r[i]) < n by {
            assert(r.contains(r[i]));
            assert(r.to_multiset().count(r[i]) > 0);
            assert(start.to_multiset().count(r[i]) > 0);
            assert(start.contains(r[i]));
        }
    }
}

spec fn count_in(v: Seq<Seq<usize>>, x: usize) -> int
    decreases v.len(),
{
    if v.len() == 0 {
        0
    } else {
        count_in(v.drop_last(), x) + v.last().to_multiset().count(x)
    }
}

proof fn lemma_count_in(v: Seq<Seq<usize>>, x: usize)
    ensures
        pipeline::concat(v).to_multiset().count(x) == count_in(v, x),
    decreases v.len(),
{
    if v.len() == 0 {
        pipeline::concat(v).to_multiset_ensures();
        assert(!pipeline::concat(v).contains(x));
    } else {
        lemma_count_in(v.drop_last(), x);
        vstd::seq_lib::lemma_multiset_commutative(pipeline::concat(v.drop_last()), v.last());
    }
}

proof fn lemma_count_update(v: Seq<Seq<usize>>, i: int, a: Seq<usize>, x: usize)
    requires
        0 <= i < v.len(),
    ensures
        count_in(v.update(i, a), x) == count_in(v, x) - v[i].to_multiset().count(x)
            + a.to_multiset().count(x),
    decreases v.len(),
{
    let u = v.update(i, a);
    if i == v.len() - 1 {
        assert(u.drop_last() =~= v.drop_last());
    } else {
        assert(u.drop_last() =~= v.drop_last().update(i, a));
        assert(u.last() == v.last());
        lemma_count_update(v.drop_last(), i, a, x);
    }
}

proof fn lemma_count_shuffled(s: u64, v: Seq<Seq<usize>>, i: int, x: usize)
    requires
        i < v.len(),
    ensures
        count_in(random::shuffled(s, v, i).1, x) == count_in(v, x),
    decreases i,
{
    if i >= 1 {
        let k = random::drawn_below(s, (i + 1) as nat) as int;
        assert(0 <= (random::drawn(s) as int) % (i + 1) && (random::drawn(s) as int) % (i + 1) < i + 1)
            by (nonlinear_arith)
            requires
                i >= 1,
        ;
        lemma_count_update(v, i, v[k], x);
        lemma_count_update(v.update(i, v[k]), k, v[i], x);
        lemma_count_shuffled(random::stepped(s), random::exchanged(v, i, k), i - 1, x);
    }
}

/// Every epoch sees every example once: its order is that of all examples, rearranged.
pub proof fn lemma_an_epoch_sees_every_example_once(
    lens: Seq<usize>,
    seed: u64,
    epoch: nat,
    batch: nat,
)
    requires
        batch > 0,
        lens.len() <= usize::MAX,
    ensures
        epoch_order_of(lens, seed, epoch, batch).to_multiset() == pipeline::indices(
            lens.len(),
        ).to_multiset(),
{
    let n = lens.len();
    let (s, idx) = random::shuffled(epoch_seed(seed, epoch), pipeline::indices(n), n - 1);
    lemma_shuffled_indices(epoch_seed(seed, epoch), n);
    random::lemma_shuffling_keeps_all(epoch_seed(seed, epoch), pipeline::indices(n), n - 1);
    let sorted = windowed(lens, idx, batch * 50);
    lemma_windowed(lens, idx, batch * 50);
    let cut = pieces(sorted, batch);
    lemma_pieces(sorted, batch);
    let order = epoch_order_of(lens, seed, epoch, batch);
    assert forall|x: usize| order.to_multiset().count(x) == pipeline::indices(
        n,
    ).to_multiset().count(x) by {
        lemma_count_in(random::shuffled(s, cut, cut.len() - 1).1, x);
        lemma_count_in(cut, x);
        lemma_count_shuffled(s, cut, cut.len() - 1, x);
    }
    assert(order.to_multiset() =~= pipeline::indices(n).to_multiset());
}

/// Held-out examples split in half, after shuffling and keeping at most `max` of them (all, when
/// it is 0): those that fit temperatures, and those that are reported.
pub open spec fn split_of(n: nat, max: nat, seed: u64) -> (Seq<usize>, Seq<usize>) {
    let all = random::shuffled(seed ^ 0x5EED, pipeline::indices(n), n - 1).1;
    let kept = if max > 0 && max < n {
        all.take(max as int)
    } else {
        all
    };
    let half = kept.len() as int / 2;
    (kept.take(half), kept.skip(half))
}

/// Held-out examples split in half.
pub fn split_eval(n: usize, max: usize, seed: u64) -> (r: (Vec<usize>, Vec<usize>))
    ensures
        (r.0@, r.1@) == split_of(n as nat, max as nat, seed),
{
    let mut all = all_indices(n);
    let mut rng = Rng(seed ^ 0x5EED);
    let ghost start = all@;
    rng.shuffle(&mut all);
    proof {
        lemma_shuffled_indices(seed ^ 0x5EED, n as nat);
    }
    if max > 0 && max < all.len() {
        all.truncate(max);
    }
    let half: usize = all.len() / 2;
    let ghost kept = all@;
    let report = all.split_off(half);
    proof {
        assert(all@ =~= kept.take(half as int));
        assert(report@ =~= kept.skip(half as int));
    }
    (all, report)
}

/// No held-out example is both fitted on and reported, and none is used twice.
pub proof fn lemma_halves_are_apart(n: nat, max: nat, seed: u64)
    requires
        n <= usize::MAX,
    ensures
        ({
            let (a, b) = split_of(n, max, seed);
            let all = a + b;
            forall|i: int, j: int| 0 <= i < j < all.len() ==> all[i] != all[j]
        }),
{
    let start = pipeline::indices(n);
    let s = seed ^ 0x5EED;
    let whole = random::shuffled(s, start, n - 1).1;
    let (a, b) = split_of(n, max, seed);
    lemma_shuffled_indices(s, n);
    random::lemma_shuffling_keeps_all(s, start, n - 1);
    assert(start.no_duplicates());
    start.lemma_multiset_has_no_duplicates();
    whole.lemma_multiset_has_no_duplicates_conv();
    assert(whole.no_duplicates());
    let all = a + b;
    assert forall|i: int, j: int| 0 <= i < j < all.len() implies all[i] != all[j] by {
        assert(all[i] == whole[i]);
        assert(all[j] == whole[j]);
    }
}

// ---------------------------------------------------------------------------------------------
// Targets

/// The tables of a batch of targets.
#[derive(Debug, PartialEq, Eq)]
pub struct TargetTables {
    /// Each target as the bits of 32-bit floats, padded with zeros.
    pub dist: Vec<u32>,
    /// 1 for an option, 0 for padding.
    pub mask: Vec<u32>,
    /// 1 for a score.
    pub is_score: Vec<u32>,
    /// One less than the options, but at least one.
    pub steps: Vec<usize>,
}

/// One less than so many options, but at least one.
pub open spec fn steps_between(k: int) -> int {
    if k >= 2 {
        k - 1
    } else {
        1
    }
}

/// The targets of a batch, padded to `options`.
pub open spec fn dist_rows(rows: Seq<(Vec<u32>, bool)>, options: int) -> Seq<Seq<u32>> {
    Seq::new(rows.len(), |i: int| model::padded(rows[i].0@, options, 0))
}

/// Which places of a batch of targets hold options.
pub open spec fn mask_rows(rows: Seq<(Vec<u32>, bool)>, options: int) -> Seq<Seq<u32>> {
    Seq::new(
        rows.len(),
        |i: int| model::padded(model::repeated(1, rows[i].0@.len() as int), options, 0),
    )
}

/// Which targets of a batch are those of scores.
pub open spec fn score_flags(rows: Seq<(Vec<u32>, bool)>) -> Seq<u32> {
    Seq::new(
        rows.len(),
        |i: int|
            if rows[i].1 {
                1u32
            } else {
                0u32
            },
    )
}

/// The steps between the options of each target of a batch.
pub open spec fn step_counts(rows: Seq<(Vec<u32>, bool)>) -> Seq<int> {
    Seq::new(rows.len(), |i: int| steps_between(rows[i].0@.len() as int))
}

impl TargetTables {
    /// Whether these are the tables of targets padded to `options`.
    pub open spec fn hold(self, rows: Seq<(Vec<u32>, bool)>, options: int) -> bool {
        &&& self.dist@ == sequence::flat(dist_rows(rows, options))
        &&& self.mask@ == sequence::flat(mask_rows(rows, options))
        &&& self.is_score@ == score_flags(rows)
        &&& sequence::ints(self.steps@) == step_counts(rows)
    }
}

/// The tables of a batch of targets, each with whether it is that of a score.
pub fn target_tables(rows: &Vec<(Vec<u32>, bool)>, options: usize) -> (r: TargetTables)
    requires
        forall|i: int| 0 <= i < rows@.len() ==> (#[trigger] rows@[i]).0@.len() <= options,
    ensures
        r.hold(rows@, options as int),
{
    let ghost k = options as int;
    let ghost dist_all = dist_rows(rows@, k);
    let ghost mask_all = mask_rows(rows@, k);
    let ghost flags = score_flags(rows@);
    let ghost counts = step_counts(rows@);
    let mut t = TargetTables {
        dist: Vec::new(),
        mask: Vec::new(),
        is_score: Vec::new(),
        steps: Vec::new(),
    };
    let mut i: usize = 0;
    proof {
        assert(dist_all.take(0) =~= Seq::empty());
        assert(mask_all.take(0) =~= Seq::empty());
        assert(t.is_score@ =~= flags.take(0));
        assert(sequence::ints(t.steps@) =~= counts.take(0));
    }
    while i < rows.len()
        invariant
            i <= rows@.len(),
            k == options as int,
            flags == score_flags(rows@),
            counts == step_counts(rows@),
            forall|i: int| 0 <= i < rows@.len() ==> (#[trigger] rows@[i]).0@.len() <= options,
            dist_all == dist_rows(rows@, k),
            mask_all == mask_rows(rows@, k),
            t.dist@ == sequence::flat(dist_all.take(i as int)),
            t.mask@ == sequence::flat(mask_all.take(i as int)),
            t.is_score@ == flags.take(i as int),
            sequence::ints(t.steps@) == counts.take(i as int),
        decreases rows@.len() - i,
    {
        let m: usize = rows[i].0.len();
        proof {
            assert(rows@[i as int].0@.len() <= options);
            model::lemma_flat_step(dist_all, i as int);
            model::lemma_flat_step(mask_all, i as int);
        }
        model::push_padded(&mut t.dist, rows[i].0.as_slice(), options, 0);
        model::push_flags(&mut t.mask, 1, m, 0, options);
        t.is_score.push(if rows[i].1 {
            1
        } else {
            0
        });
        let step: usize = if m >= 2 {
            m - 1
        } else {
            1
        };
        let ghost before = sequence::ints(t.steps@);
        t.steps.push(step);
        proof {
            assert(t.is_score@ =~= flags.take(i + 1));
            assert(sequence::ints(t.steps@) =~= before.push(step as int));
            assert(counts.take(i + 1) =~= counts.take(i as int).push(counts[i as int]));
        }
        i += 1;
    }
    proof {
        assert(dist_all.take(i as int) =~= dist_all);
        assert(mask_all.take(i as int) =~= mask_all);
        assert(flags.take(i as int) =~= flags);
        assert(counts.take(i as int) =~= counts);
    }
    t
}

// ---------------------------------------------------------------------------------------------
// Checkpoints

/// The step that a checkpoint's directory is named after.
pub open spec fn step_of(name: Seq<char>) -> Option<nat> {
    if text::begins(name, "step-"@) {
        text::read_nat(name.skip("step-"@.len() as int), usize::MAX as nat)
    } else {
        None
    }
}

/// Whether the checkpoint of one directory is newer than that of another: by step, then by name,
/// then by place.
pub open spec fn newer(names: Seq<Seq<char>>, i: int, j: int) -> bool {
    match (step_of(names[i]), step_of(names[j])) {
        (Some(a), Some(b)) => a > b || (a == b && (text::precedes(names[j], names[i]) || (
        !text::precedes(names[i], names[j]) && i > j))),
        _ => false,
    }
}

/// How many of the first `n` directories hold newer checkpoints.
pub open spec fn newer_count(names: Seq<Seq<char>>, j: int, n: int) -> nat
    decreases n,
{
    if n <= 0 {
        0
    } else if newer(names, n - 1, j) {
        newer_count(names, j, n - 1) + 1
    } else {
        newer_count(names, j, n - 1)
    }
}

/// Whether a directory is removed: when it is a checkpoint's and there are enough newer ones to
/// keep.
pub open spec fn outdated(names: Seq<Seq<char>>, keep: nat, j: int) -> bool {
    step_of(names[j]) is Some && newer_count(names, j, names.len() as int) >= keep
}

/// Being newer is an order of the checkpoints.
proof fn lemma_newer(names: Seq<Seq<char>>, i: int, j: int, k: int)
    requires
        step_of(names[i]) is Some,
        step_of(names[j]) is Some,
        step_of(names[k]) is Some,
    ensures
        !newer(names, i, i),
        i != j ==> newer(names, i, j) || newer(names, j, i),
        newer(names, i, j) && newer(names, j, k) ==> newer(names, i, k),
        newer(names, i, j) ==> !newer(names, j, i),
{
    text::lemma_precedes(names[i], names[j], names[k]);
    text::lemma_precedes(names[k], names[j], names[i]);
    text::lemma_precedes(names[i], names[k], names[j]);
    text::lemma_precedes(names[j], names[i], names[k]);
    text::lemma_precedes(names[j], names[k], names[i]);
    text::lemma_precedes(names[k], names[i], names[j]);
}

/// A newer checkpoint has fewer that are newer still.
proof fn lemma_newer_count(names: Seq<Seq<char>>, i: int, j: int, n: int)
    requires
        newer(names, j, i),
        0 <= n,
    ensures
        newer_count(names, i, n) >= newer_count(names, j, n) + if 0 <= j < n {
            1int
        } else {
            0
        },
    decreases n,
{
    if n > 0 {
        lemma_newer_count(names, i, j, n - 1);
        if newer(names, n - 1, j) {
            lemma_newer(names, n - 1, j, i);
        }
        if n - 1 == j {
            lemma_newer(names, j, j, j);
        }
    }
}

/// What is removed is older than what is kept.
pub proof fn lemma_the_newest_are_kept(names: Seq<Seq<char>>, keep: nat, i: int, j: int)
    requires
        0 <= i < names.len(),
        0 <= j < names.len(),
        step_of(names[j]) is Some,
        outdated(names, keep, i),
        !outdated(names, keep, j),
    ensures
        newer(names, j, i),
{
    lemma_newer(names, i, j, j);
    if newer(names, i, j) {
        lemma_newer_count(names, j, i, names.len() as int);
    }
}

/// How many checkpoints of the first `n` directories are kept.
pub open spec fn kept_count(names: Seq<Seq<char>>, keep: nat, n: int) -> nat
    decreases n,
{
    if n <= 0 {
        0
    } else if step_of(names[n - 1]) is Some && !outdated(names, keep, n - 1) {
        kept_count(names, keep, n - 1) + 1
    } else {
        kept_count(names, keep, n - 1)
    }
}

/// Whether `m` is the oldest that is kept of the first `n`.
spec fn oldest_kept(names: Seq<Seq<char>>, keep: nat, n: int, m: int) -> bool {
    &&& 0 <= m < n
    &&& step_of(names[m]) is Some
    &&& !outdated(names, keep, m)
    &&& forall|i: int|
        0 <= i < n && i != m && step_of(names[i]) is Some && !(#[trigger] outdated(names, keep, i))
            ==> newer(names, i, m)
}

proof fn lemma_oldest_kept(names: Seq<Seq<char>>, keep: nat, n: int) -> (m: int)
    requires
        0 <= n <= names.len(),
        kept_count(names, keep, n) > 0,
    ensures
        oldest_kept(names, keep, n, m),
    decreases n,
{
    let last = step_of(names[n - 1]) is Some && !outdated(names, keep, n - 1);
    if last && kept_count(names, keep, n - 1) == 0 {
        lemma_none_kept(names, keep, n - 1);
        n - 1
    } else {
        let m = lemma_oldest_kept(names, keep, n - 1);
        if last && newer(names, m, n - 1) {
            assert forall|i: int|
                0 <= i < n && i != n - 1 && step_of(names[i]) is Some && !(#[trigger] outdated(
                    names,
                    keep,
                    i,
                )) implies newer(names, i, n - 1) by {
                if i != m {
                    lemma_newer(names, i, m, n - 1);
                }
            }
            n - 1
        } else {
            if last {
                lemma_newer(names, m, n - 1, m);
            }
            m
        }
    }
}

proof fn lemma_none_kept(names: Seq<Seq<char>>, keep: nat, n: int)
    requires
        kept_count(names, keep, n) == 0,
    ensures
        forall|i: int|
            0 <= i < n && step_of(names[i]) is Some ==> #[trigger] outdated(names, keep, i),
    decreases n,
{
    if n > 0 {
        lemma_none_kept(names, keep, n - 1);
    }
}

proof fn lemma_kept_are_newer(names: Seq<Seq<char>>, keep: nat, m: int, n: int)
    requires
        0 <= n <= names.len(),
        oldest_kept(names, keep, names.len() as int, m),
    ensures
        newer_count(names, m, n) + (if m < n {
            1int
        } else {
            0
        }) >= kept_count(names, keep, n),
    decreases n,
{
    if n > 0 {
        lemma_kept_are_newer(names, keep, m, n - 1);
        if step_of(names[n - 1]) is Some && !outdated(names, keep, n - 1) && n - 1 != m {
            assert(newer(names, n - 1, m));
        }
    }
}

/// No more checkpoints stay than are to be kept.
pub proof fn lemma_no_more_are_kept(names: Seq<Seq<char>>, keep: nat)
    ensures
        kept_count(names, keep, names.len() as int) <= keep,
{
    let n = names.len() as int;
    if kept_count(names, keep, n) > 0 {
        let m = lemma_oldest_kept(names, keep, n);
        lemma_kept_are_newer(names, keep, m, n);
    }
}

fn read_step(name: &str) -> (r: Option<usize>)
    ensures
        match r {
            Some(n) => step_of(name@) == Some(n as nat),
            None => step_of(name@) is None,
        },
{
    match strip_prefix(name, "step-") {
        Some(rest) => match parse_nat(rest.as_str(), usize::MAX as u64) {
            Some(n) => Some(n as usize),
            None => None,
        },
        None => None,
    }
}

fn is_newer(names: &Vec<String>, i: usize, j: usize) -> (r: bool)
    requires
        i < names@.len(),
        j < names@.len(),
    ensures
        r == newer(text::texts(names@), i as int, j as int),
{
    let a = names[i].as_str();
    let b = names[j].as_str();
    match (read_step(a), read_step(b)) {
        (Some(x), Some(y)) => x > y || (x == y && (comes_before(b, a) || (!comes_before(a, b) && i
            > j))),
        _ => false,
    }
}

/// The directories to remove, so that at most `keep` checkpoints stay, the newest.
pub fn prune(names: &Vec<String>, keep: usize) -> (r: Vec<usize>)
    ensures
        forall|k: int| 0 <= k < r@.len() ==> (#[trigger] r@[k]) < names@.len(),
        forall|k: int, l: int| 0 <= k < l < r@.len() ==> r@[k] < r@[l],
        forall|j: usize|
            j < names@.len() ==> (#[trigger] r@.contains(j) <==> outdated(
                text::texts(names@),
                keep as nat,
                j as int,
            )),
{
    let ghost all = text::texts(names@);
    let mut r: Vec<usize> = Vec::new();
    let mut j: usize = 0;
    while j < names.len()
        invariant
            j <= names@.len(),
            all == text::texts(names@),
            forall|k: int| 0 <= k < r@.len() ==> (#[trigger] r@[k]) < j,
            forall|k: int, l: int| 0 <= k < l < r@.len() ==> r@[k] < r@[l],
            forall|i: usize|
                i < j ==> (#[trigger] r@.contains(i) <==> outdated(all, keep as nat, i as int)),
        decreases names@.len() - j,
    {
        let mut count: usize = 0;
        let mut i: usize = 0;
        while i < names.len()
            invariant
                i <= names@.len(),
                j < names@.len(),
                all == text::texts(names@),
                count <= i,
                count == newer_count(all, j as int, i as int),
            decreases names@.len() - i,
        {
            if is_newer(names, i, j) {
                count += 1;
            }
            i += 1;
        }
        let step = read_step(names[j].as_str());
        let ghost before = r@;
        if step.is_some() && count >= keep {
            r.push(j);
            proof {
                assert(r@[before.len() as int] == j);
            }
        }
        proof {
            assert(all.len() == names@.len());
            assert(all[j as int] == names@[j as int]@);
            assert forall|i: usize| i < j + 1 implies (#[trigger] r@.contains(i) <==> outdated(
                all,
                keep as nat,
                i as int,
            )) by {
                if i < j {
                    assert(before.contains(i) <==> outdated(all, keep as nat, i as int));
                    if before.contains(i) {
                        let k = choose|k: int| 0 <= k < before.len() && before[k] == i;
                        assert(r@[k] == i);
                    }
                    if r@.contains(i) {
                        let k = choose|k: int| 0 <= k < r@.len() && r@[k] == i;
                        assert(before[k] == i);
                    }
                } else {
                    if r@.contains(i) {
                        let k = choose|k: int| 0 <= k < r@.len() && r@[k] == i;
                        assert(k == before.len());
                    }
                }
            }
        }
        j += 1;
    }
    r
}

/// What a checkpoint's configuration says of its training.
pub open spec fn training_of(steps: nat, epochs: nat, loss: JsonV, layout: LayoutArg) -> JsonV {
    JsonV::Object(
        seq![
            ("updates"@, JsonV::Number(NumV::Nat(steps))),
            ("epochs_started"@, JsonV::Number(NumV::Nat(epochs))),
            ("loss"@, loss),
            (
                "layout"@,
                JsonV::String(
                    match layout {
                        LayoutArg::Prefix => "prefix"@,
                        LayoutArg::Laya => "laya"@,
                    },
                ),
            ),
            (
                "note"@,
                JsonV::String("trained by candle-rlcd with the direct proper-scoring loss"@),
            ),
        ],
    )
}

/// Fitted temperatures, per type and per bucket, as a configuration holds them.
pub struct FittedJson {
    pub by_type: Json,
    pub by_options: Json,
}

/// A checkpoint's configuration: the agent's, with fitted temperatures (marked as such) and what
/// is said of its training.
pub open spec fn checkpoint_of(
    agent: Seq<(Seq<char>, JsonV)>,
    temps: Option<FittedJson>,
    training: JsonV,
) -> Seq<(Seq<char>, JsonV)> {
    let fitted = match temps {
        Some(t) => json::with_member(
            json::with_member(
                json::with_member(agent, "temperature"@, t.by_type@),
                "temperature_by_options"@,
                t.by_options@,
            ),
            "calibration"@,
            JsonV::Object(seq![("by"@, JsonV::String("candle-rlcd train"@))]),
        ),
        None => agent,
    };
    json::with_member(fitted, "training"@, training)
}

/// Makes an agent's configuration that of a checkpoint.
pub fn checkpoint_config(
    agent: &mut Vec<(String, Json)>,
    temps: Option<FittedJson>,
    steps: usize,
    epoch: usize,
    loss: Json,
    layout: LayoutArg,
)
    requires
        epoch < usize::MAX,
    ensures
        json::members(final(agent)@) == checkpoint_of(
            json::members(old(agent)@),
            temps,
            training_of(steps as nat, (epoch + 1) as nat, loss@, layout),
        ),
{
    match temps {
        Some(t) => {
            put(agent, "temperature", t.by_type);
            put(agent, "temperature_by_options", t.by_options);
            let mut c: Vec<(String, Json)> = Vec::new();
            add_member(&mut c, "by", string("candle-rlcd train"));
            proof {
                assert(json::members(c@) =~= seq![("by"@, JsonV::String("candle-rlcd train"@))]);
            }
            put(agent, "calibration", Json::Object(c));
        },
        None => {},
    }
    let mut o: Vec<(String, Json)> = Vec::new();
    add_member(&mut o, "updates", natural(steps as u64));
    add_member(&mut o, "epochs_started", natural((epoch + 1) as u64));
    add_member(&mut o, "loss", loss);
    let name = match layout {
        LayoutArg::Prefix => "prefix",
        LayoutArg::Laya => "laya",
    };
    add_member(&mut o, "layout", string(name));
    add_member(
        &mut o,
        "note",
        string("trained by candle-rlcd with the direct proper-scoring loss"),
    );
    proof {
        assert(json::members(o@) =~= training_of(
            steps as nat,
            (epoch + 1) as nat,
            loss@,
            layout,
        )->Object_0);
    }
    put(agent, "training", Json::Object(o));
}

// ---------------------------------------------------------------------------------------------
// What a run keeps to

/// A tensor of the model is taken from a checkpoint under its own name; from an encoder under its
/// name there, with `model.` before it or without, whichever the encoder has, that with it first.
pub proof fn lemma_tensors_are_found_under_their_names(rest: Seq<char>, known: Seq<Seq<char>>)
    ensures
        first_known(candidate_names("encoder."@ + rest, true), known) == if known.contains(
            "model."@ + rest,
        ) {
            Some("model."@ + rest)
        } else if known.contains(rest) {
            Some(rest)
        } else {
            None
        },
        first_known(candidate_names(rest, false), known) == if known.contains(rest) {
            Some(rest)
        } else {
            None
        },
        !text::begins(rest, "encoder."@) ==> first_known(candidate_names(rest, true), known) is None,
{
    let name = "encoder."@ + rest;
    let e = "encoder."@;
    assert(name.take(e.len() as int) =~= e);
    assert(text::begins(name, e));
    assert(name.skip(e.len() as int) =~= rest);
    let two = seq!["model."@ + rest, rest];
    assert(candidate_names(name, true) == two);
    assert(two.skip(1) =~= seq![rest]);
    assert(seq![rest].skip(1) =~= Seq::empty());
    reveal_with_fuel(first_known, 3);
}

/// A tensor is missing exactly when nothing can be taken for it; from an encoder only the tensors of
/// the encoder can be.
pub proof fn lemma_missing_tensors_cannot_be_found(
    names: Seq<Seq<char>>,
    known: Seq<Seq<char>>,
    encoder_only: bool,
    name: Seq<char>,
)
    ensures
        lacking(names, known, encoder_only).contains(name) <==> {
            &&& names.contains(name)
            &&& encoder_only ==> text::begins(name, "encoder."@)
            &&& first_known(candidate_names(name, encoder_only), known) is None
        },
    decreases names.len(),
{
    if names.len() > 0 {
        let less = names.drop_last();
        lemma_missing_tensors_cannot_be_found(less, known, encoder_only, name);
        let rest = lacking(less, known, encoder_only);
        let all = lacking(names, known, encoder_only);
        if names.contains(name) {
            let k = choose|k: int| 0 <= k < names.len() && names[k] == name;
            if k < less.len() {
                assert(less[k] == name);
            }
        }
        if less.contains(name) {
            let k = choose|k: int| 0 <= k < less.len() && less[k] == name;
            assert(names[k] == name);
        }
        assert(names[names.len() - 1] == names.last());
        if all.len() > rest.len() {
            assert(all[rest.len() as int] == names.last());
            if rest.contains(name) {
                let k = choose|k: int| 0 <= k < rest.len() && rest[k] == name;
                assert(all[k] == name);
            }
            if all.contains(name) {
                let k = choose|k: int| 0 <= k < all.len() && all[k] == name;
                if k < rest.len() {
                    assert(rest[k] == name);
                }
            }
        }
    }
}

/// The encoder learns in the first group and everything else in the second, matrices with decay and
/// vectors without; the temperature does not learn.
pub proof fn lemma_parameters_learn_in_their_group(rest: Seq<char>, rank: nat)
    ensures
        trained_as("encoder."@ + rest, rank) == Some((0nat, rank >= 2)),
        trained_as("head."@ + rest, rank) == Some((1nat, rank >= 2)),
        trained_as("temperature"@, rank) is None,
        rest != "temperature"@ ==> trained_as(rest, rank) is Some,
{
    let e = "encoder."@;
    reveal_strlit("encoder.");
    reveal_strlit("head.");
    reveal_strlit("temperature");
    assert("encoder."@.len() == 8);
    assert("head."@.len() == 5);
    assert("temperature"@.len() == 11);
    let name = e + rest;
    assert(name.take(e.len() as int) =~= e);
    assert(text::begins(name, e));
    assert(name[0] == 'e');
    assert("temperature"@[0] == 't');
    let head = "head."@ + rest;
    assert(head[0] == 'h');
    assert("head."@[0] == 'h');
    assert(e[0] == 'e');
    if text::begins(head, e) {
        assert(head.take(e.len() as int)[0] == 'h');
    }
}

/// An epoch has as many steps as its examples need and no more, and a run at least one: as many as
/// were asked for, else those of its epochs.
pub proof fn lemma_runs_have_the_steps_they_need(
    examples: int,
    batch: int,
    accum: int,
    epochs: int,
    max_steps: Option<usize>,
)
    requires
        examples >= 0,
        batch >= 1,
        accum >= 1,
        epochs >= 0,
    ensures
        ({
            let n = steps_per_epoch(examples, batch, accum);
            let all = total_steps(n, epochs, max_steps);
            &&& n * accum * batch >= examples
            &&& n > 0 ==> (n - 1) * accum * batch < examples
            &&& all >= 1
            &&& max_steps matches Some(m) ==> all == m || m == 0 && all == 1
            &&& max_steps is None ==> all == n * epochs || n * epochs == 0 && all == 1
        }),
{
    let batches = pipeline::ceil_div(examples, batch);
    pipeline::lemma_ceil_div(examples, batch);
    let n = steps_per_epoch(examples, batch, accum);
    assert(batches >= 0) by (nonlinear_arith)
        requires
            batches * batch >= examples,
            examples >= 0,
            batch >= 1,
    ;
    pipeline::lemma_ceil_div(batches, accum);
    assert(n >= 0) by (nonlinear_arith)
        requires
            n * accum >= batches,
            batches >= 0,
            accum >= 1,
    ;
    assert(n * accum * batch >= examples) by (nonlinear_arith)
        requires
            n * accum >= batches,
            batches * batch >= examples,
            batch >= 1,
    ;
    if n > 0 {
        assert((n - 1) * accum * batch < examples) by (nonlinear_arith)
            requires
                (n - 1) * accum <= batches - 1,
                (batches - 1) * batch < examples,
                batch >= 1,
        ;
    }
    assert(n * epochs >= 0) by (nonlinear_arith)
        requires
            n >= 0,
            epochs >= 0,
    ;
}

/// Something that is done every so many steps is done at each multiple and at no other step.
pub proof fn lemma_every_means_each_multiple(k: int, n: int, r: int)
    requires
        n > 0,
        k >= 0,
        0 < r < n,
    ensures
        every(k * n, n),
        !every(k * n + r, n),
        !every(k, 0),
{
    vstd::arithmetic::div_mod::lemma_mod_multiples_basic(k, n);
    vstd::arithmetic::div_mod::lemma_fundamental_div_mod_converse(k * n + r, n, k, r);
}

/// The held-out examples that fit temperatures and those that are reported are as many as are to be
/// kept together, and the second at most one more than the first.
pub proof fn lemma_halves_hold_what_is_kept(n: nat, max: nat, seed: u64)
    requires
        n <= usize::MAX,
    ensures
        ({
            let (a, b) = split_of(n, max, seed);
            &&& a.len() + b.len() == if max > 0 && max < n {
                max
            } else {
                n
            }
            &&& a.len() <= b.len() <= a.len() + 1
        }),
{
    lemma_shuffled_indices(seed ^ 0x5EED, n);
}

/// A batch of targets keeps each target where it stands, marks its options and nothing else, and
/// says whether it is that of a score and how many steps lie between its options.
pub proof fn lemma_target_tables_keep_their_targets(
    t: TargetTables,
    rows: Seq<(Vec<u32>, bool)>,
    options: int,
    i: int,
    k: int,
)
    requires
        t.hold(rows, options),
        forall|m: int| 0 <= m < rows.len() ==> (#[trigger] rows[m]).0@.len() <= options,
        0 <= i < rows.len(),
        0 <= k < options,
    ensures
        ({
            let own = rows[i].0@;
            let at = i * options + k;
            &&& k < own.len() ==> t.dist@[at] == own[k] && t.mask@[at] == 1
            &&& k >= own.len() ==> t.dist@[at] == 0 && t.mask@[at] == 0
            &&& rows[i].1 ==> t.is_score@[i] == 1
            &&& !rows[i].1 ==> t.is_score@[i] == 0
            &&& t.steps@.len() == rows.len()
            &&& own.len() >= 2 ==> t.steps@[i] == own.len() - 1
            &&& own.len() < 2 ==> t.steps@[i] == 1
        }),
{
    let a = dist_rows(rows, options);
    let b = mask_rows(rows, options);
    assert forall|m: int| 0 <= m < rows.len() implies (#[trigger] a[m]).len() == options by {
        assert(rows[m].0@.len() <= options);
    }
    assert forall|m: int| 0 <= m < rows.len() implies (#[trigger] b[m]).len() == options by {
        assert(rows[m].0@.len() <= options);
    }
    model::lemma_table_cell(a, options, i, k);
    model::lemma_table_cell(b, options, i, k);
    assert(sequence::ints(t.steps@).len() == t.steps@.len());
    assert(sequence::ints(t.steps@)[i] == t.steps@[i]);
    assert(step_counts(rows)[i] == steps_between(rows[i].0@.len() as int));
}

/// A checkpoint's settings say how it was trained, under its names, hold the temperatures that were
/// fitted, and keep whatever else the settings held.
pub proof fn lemma_checkpoints_say_how_they_were_trained(
    agent: Seq<(Seq<char>, JsonV)>,
    temps: Option<FittedJson>,
    steps: nat,
    epochs: nat,
    loss: JsonV,
    layout: LayoutArg,
    other: Seq<char>,
)
    ensures
        ({
            let training = training_of(steps, epochs, loss, layout);
            let o = checkpoint_of(agent, temps, training);
            &&& json::member(o, "training"@) == Some(training)
            &&& training matches JsonV::Object(m) && {
                &&& json::member(m, "updates"@) == Some(JsonV::Number(NumV::Nat(steps)))
                &&& json::member(m, "epochs_started"@) == Some(JsonV::Number(NumV::Nat(epochs)))
                &&& json::member(m, "loss"@) == Some(loss)
                &&& json::member(m, "layout"@) == Some(
                    JsonV::String(
                        if layout_of(layout) == Layout::Prefix {
                            "prefix"@
                        } else {
                            "laya"@
                        },
                    ),
                )
            }
            &&& temps matches Some(f) ==> {
                &&& json::member(o, "temperature"@) == Some(f.by_type@)
                &&& json::member(o, "temperature_by_options"@) == Some(f.by_options@)
                &&& json::member(o, "calibration"@) is Some
            }
            &&& other != "training"@ && (temps is None || (other != "temperature"@ && other
                != "temperature_by_options"@ && other != "calibration"@)) ==> json::member(o, other)
                == json::member(agent, other)
        }),
{
    reveal_strlit("updates");
    reveal_strlit("epochs_started");
    reveal_strlit("loss");
    reveal_strlit("layout");
    reveal_strlit("note");
    reveal_strlit("training");
    reveal_strlit("temperature");
    reveal_strlit("temperature_by_options");
    reveal_strlit("calibration");
    assert("updates"@.len() == 7);
    assert("epochs_started"@.len() == 14);
    assert("loss"@.len() == 4);
    assert("layout"@.len() == 6);
    assert("note"@.len() == 4);
    assert("training"@.len() == 8);
    assert("temperature"@.len() == 11);
    assert("temperature_by_options"@.len() == 22);
    assert("calibration"@.len() == 11);
    assert("loss"@[0] == 'l');
    assert("note"@[0] == 'n');
    assert("calibration"@[0] == 'c');
    assert("temperature"@[0] == 't');
    let training = training_of(steps, epochs, loss, layout);
    if let JsonV::Object(m) = training {
        json::lemma_member_is(m, 0);
        json::lemma_member_is(m, 1);
        json::lemma_member_is(m, 2);
        json::lemma_member_is(m, 3);
    }
    match temps {
        Some(f) => {
            let a = json::with_member(agent, "temperature"@, f.by_type@);
            let b = json::with_member(a, "temperature_by_options"@, f.by_options@);
            let said = JsonV::Object(seq![("by"@, JsonV::String("candle-rlcd train"@))]);
            let c = json::with_member(b, "calibration"@, said);
            json::lemma_with_member(agent, "temperature"@, f.by_type@, other);
            json::lemma_with_member(a, "temperature_by_options"@, f.by_options@, other);
            json::lemma_with_member(a, "temperature_by_options"@, f.by_options@, "temperature"@);
            json::lemma_with_member(b, "calibration"@, said, other);
            json::lemma_with_member(b, "calibration"@, said, "temperature"@);
            json::lemma_with_member(b, "calibration"@, said, "temperature_by_options"@);
            json::lemma_with_member(c, "training"@, training, other);
            json::lemma_with_member(c, "training"@, training, "temperature"@);
            json::lemma_with_member(c, "training"@, training, "temperature_by_options"@);
            json::lemma_with_member(c, "training"@, training, "calibration"@);
        },
        None => {
            json::lemma_with_member(agent, "training"@, training, other);
        },
    }
}

/// A checkpoint's directory is named by its step, and of two checkpoints the one of the later step is
/// the newer; no checkpoint is newer than itself.
pub proof fn lemma_checkpoints_are_named_by_step(names: Seq<Seq<char>>, i: int, j: int, a: nat, b: nat)
    requires
        0 <= i < names.len(),
        0 <= j < names.len(),
        a <= usize::MAX,
        b <= usize::MAX,
    ensures
        step_of("step-"@ + text::dec(a)) == Some(a),
        !text::begins(names[i], "step-"@) ==> step_of(names[i]) is None,
        names[i] == "step-"@ + text::dec(a) && names[j] == "step-"@ + text::dec(b) && a > b
            ==> newer(names, i, j) && !newer(names, j, i),
        step_of(names[i]) is None ==> !newer(names, i, j) && !newer(names, j, i),
        step_of(names[i]) is None ==> !outdated(names, 0, i),
        step_of(names[i]) is Some ==> outdated(names, 0, i),
{
    lemma_step_of(a);
    lemma_step_of(b);
}

proof fn lemma_step_of(n: nat)
    requires
        n <= usize::MAX,
    ensures
        step_of("step-"@ + text::dec(n)) == Some(n),
{
    let s = "step-"@ + text::dec(n);
    assert(s.take("step-"@.len() as int) =~= "step-"@);
    assert(s.skip("step-"@.len() as int) =~= text::dec(n));
    text::lemma_numbers_read_back(n, usize::MAX as nat);
}

} // verus!
