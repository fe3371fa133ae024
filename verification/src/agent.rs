//! What the model is asked, and the answers made of what it says.

use vstd::prelude::*;
use vstd::string::*;

use crate::config::AgentConfig;
use crate::float::{self, argmax};
use crate::json::{self, add_member, put, string, Json, JsonV};
use crate::model::Layout;
use crate::pipeline;
use crate::sequence::{
    self, build_prefix_sequence, build_sequence, build_state_prefix, encode_state, Criteria,
    CriteriaV, Encoded, PartsV, QType, Question, QuestionError, QuestionErrorV, QuestionV,
    SequenceError, Specials,
};
use crate::text::{self, decimal};

verus! {

broadcast use crate::json::lemma_tree;

/// The model's outputs for one row, as the bits of 32-bit floats.
#[derive(Debug, PartialEq, Eq)]
pub struct RowOutput {
    /// Uncalibrated logits, one per option.
    pub logits: Vec<u32>,
    /// Probabilities to act and to escalate.
    pub act_probs: Vec<u32>,
}

// ---------------------------------------------------------------------------------------------
// Rows

/// Whether a state loses its start when it is too long: a conversation, which is a list, keeps its
/// newest turns.
pub open spec fn loses_start(state: JsonV) -> bool {
    state is Array
}

/// A conversation keeps its newest turn: when a list of turns is too long for a row, the row of its
/// question ends with the state's last token and a separator, and any other state's row goes on
/// behind the question with the state's first token.
pub proof fn lemma_conversations_keep_their_newest_turn(
    cls: u32,
    sep: u32,
    p: PartsV,
    state: JsonV,
    ids: Seq<u32>,
    max_len: usize,
)
    requires
        sequence::question_ids(cls, sep, p.head, p.opts).len() + 1 < max_len,
        sequence::question_ids(cls, sep, p.head, p.opts).len() + ids.len() + 1 > max_len,
    ensures
        ({
            let row = sequence::fixed_row(cls, sep, p, ids, max_len, loses_start(state));
            let n = sequence::question_ids(cls, sep, p.head, p.opts).len() as int;
            &&& row.len() == max_len
            &&& state is Array ==> row[row.len() - 2] == ids.last()
            &&& !(state is Array) ==> row[n] == ids[0]
        }),
{
    sequence::lemma_rows_keep_one_end_of_the_state(cls, sep, p, ids, max_len, loses_start(state));
}

/// Whether `e` is a row that asks `q` of a state with the tokens `ids`.
pub open spec fn is_row(
    tok: tokenizers::Tokenizer,
    sp: Specials,
    cfg: AgentConfig,
    q: QuestionV,
    ids: Seq<u32>,
    left: bool,
    e: Encoded,
) -> bool {
    match cfg.layout {
        Layout::Prefix => sequence::is_prefix_row(
            tok,
            sp,
            q,
            sequence::state_prefix(
                sp.cls,
                sp.sep,
                ids,
                cfg.max_len as nat,
                cfg.head_max_len as nat,
                left,
            ),
            cfg.head_max_len,
            e,
        ),
        Layout::Laya => sequence::is_fixed_row(
            tok,
            sp,
            q,
            ids,
            cfg.max_len,
            cfg.head_max_len,
            left,
            e,
        ),
    }
}

/// Whether `rows` ask the questions `qs`, one each, of a state with the tokens `ids`.
pub open spec fn are_rows(
    tok: tokenizers::Tokenizer,
    sp: Specials,
    cfg: AgentConfig,
    qs: Seq<Question>,
    ids: Seq<u32>,
    left: bool,
    rows: Seq<Encoded>,
) -> bool {
    &&& rows.len() == qs.len()
    &&& forall|i: int|
        0 <= i < rows.len() ==> is_row(tok, sp, cfg, qs[i]@, ids, left, #[trigger] rows[i])
}

/// Whether a question has tokens whose options would start outside a row.
pub open spec fn too_many_options(
    tok: tokenizers::Tokenizer,
    sp: Specials,
    cfg: AgentConfig,
    q: QuestionV,
) -> bool {
    exists|whole: PartsV| #[trigger]
        sequence::tokens_of(tok, sp.mask, sp.mask_token@, q, whole) && !sequence::options_fit(
            sequence::budgeted(whole, cfg.head_max_len),
            cfg.max_len,
        )
}

/// Whether a question has tokens that make a row.
pub open spec fn has_row(
    tok: tokenizers::Tokenizer,
    sp: Specials,
    cfg: AgentConfig,
    q: QuestionV,
) -> bool {
    exists|whole: PartsV| #[trigger]
        sequence::tokens_of(tok, sp.mask, sp.mask_token@, q, whole) && (cfg.layout == Layout::Laya
            ==> sequence::options_fit(
            sequence::budgeted(whole, cfg.head_max_len),
            cfg.max_len,
        ))
}

/// Whether the `i`-th question is the first without a row, and `e` says why.
pub open spec fn lacks_row(
    tok: tokenizers::Tokenizer,
    sp: Specials,
    cfg: AgentConfig,
    qs: Seq<QuestionV>,
    i: int,
    e: SequenceError,
) -> bool {
    &&& 0 <= i < qs.len()
    &&& forall|j: int| 0 <= j < i ==> has_row(tok, sp, cfg, #[trigger] qs[j])
    &&& match e {
        SequenceError::Tokenizer(m) => sequence::refuses_question(tok, sp.mask_token@, qs[i], m@),
        SequenceError::OptionsTooLong(n) => {
            &&& cfg.layout == Layout::Laya
            &&& n == cfg.head_max_len
            &&& too_many_options(tok, sp, cfg, qs[i])
        },
    }
}

/// Whether `e` says why a request has no rows: the state has no tokens, or it has and a question
/// has no row, the first that has none.
pub open spec fn lacks_rows(
    tok: tokenizers::Tokenizer,
    sp: Specials,
    cfg: AgentConfig,
    state: JsonV,
    qs: Seq<QuestionV>,
    e: SequenceError,
) -> bool {
    let text = sequence::state_text(state, sp.mask_token@);
    ||| e matches SequenceError::Tokenizer(m) && sequence::refuses(tok, text, m@)
    ||| sequence::can_encode(tok, text) && exists|i: int| #[trigger]
        lacks_row(tok, sp, cfg, qs, i, e)
}

/// One row per question about a state, which is tokenized once and shared.
pub fn encode(
    tok: &tokenizers::Tokenizer,
    sp: &Specials,
    cfg: &AgentConfig,
    state: &Json,
    questions: &[Question],
) -> (r: Result<Vec<Encoded>, SequenceError>)
    requires
        cfg.layout == Layout::Prefix ==> cfg.head_max_len + 5 <= usize::MAX,
    ensures
        match r {
            Ok(rows) => exists|ids: Seq<u32>|
                {
                    &&& #[trigger] sequence::encodes(
                        *tok,
                        sequence::state_text(state@, sp.mask_token@),
                        Ok(ids),
                    )
                    &&& are_rows(*tok, *sp, *cfg, questions@, ids, loses_start(state@), rows@)
                },
            Err(e) => lacks_rows(*tok, *sp, *cfg, state@, question_values(questions@), e),
        },
{
    let ids = match encode_state(tok, sp, state) {
        Ok(ids) => ids,
        Err(m) => return Err(SequenceError::Tokenizer(m)),
    };
    let left = match state {
        Json::Array(_) => true,
        _ => false,
    };
    let prefix = match cfg.layout {
        Layout::Prefix => build_state_prefix(
            sp,
            ids.as_slice(),
            cfg.max_len,
            cfg.head_max_len,
            left,
        ),
        Layout::Laya => Vec::new(),
    };
    let mut rows: Vec<Encoded> = Vec::new();
    let mut i: usize = 0;
    while i < questions.len()
        invariant
            i <= questions@.len(),
            rows@.len() == i,
            left == loses_start(state@),
            sequence::encodes(*tok, sequence::state_text(state@, sp.mask_token@), Ok(ids@)),
            cfg.layout == Layout::Prefix ==> prefix@ == sequence::state_prefix(
                sp.cls,
                sp.sep,
                ids@,
                cfg.max_len as nat,
                cfg.head_max_len as nat,
                left,
            ),
            forall|j: int|
                0 <= j < i ==> is_row(
                    *tok,
                    *sp,
                    *cfg,
                    questions@[j]@,
                    ids@,
                    left,
                    #[trigger] rows@[j],
                ),
        decreases questions@.len() - i,
    {
        let q = &questions[i];
        let row = match cfg.layout {
            Layout::Prefix => build_prefix_sequence(
                tok,
                sp,
                q,
                prefix.as_slice(),
                cfg.head_max_len,
            ),
            Layout::Laya => build_sequence(
                tok,
                sp,
                q,
                ids.as_slice(),
                cfg.max_len,
                cfg.head_max_len,
                left,
            ),
        };
        match row {
            Ok(e) => rows.push(e),
            Err(e) => {
                proof {
                    let qs = question_values(questions@);
                    assert(qs[i as int] == q@);
                    assert forall|j: int| 0 <= j < i implies has_row(
                        *tok,
                        *sp,
                        *cfg,
                        #[trigger] qs[j],
                    ) by {
                        assert(is_row(*tok, *sp, *cfg, questions@[j]@, ids@, left, rows@[j]));
                    }
                    match e {
                        SequenceError::OptionsTooLong(_) => {
                            assert(too_many_options(*tok, *sp, *cfg, q@));
                        },
                        SequenceError::Tokenizer(_) => {},
                    }
                    assert(lacks_row(*tok, *sp, *cfg, qs, i as int, e));
                }
                return Err(e);
            },
        }
        i += 1;
    }
    proof {
        assert(are_rows(*tok, *sp, *cfg, questions@, ids@, loses_start(state@), rows@));
    }
    Ok(rows)
}

/// With the state first, the rows of one request share its tokens: they start alike.
pub proof fn lemma_rows_share_the_state(
    tok: tokenizers::Tokenizer,
    sp: Specials,
    cfg: AgentConfig,
    qs: Seq<Question>,
    ids: Seq<u32>,
    left: bool,
    rows: Seq<Encoded>,
    i: int,
    j: int,
)
    requires
        cfg.layout == Layout::Prefix,
        are_rows(tok, sp, cfg, qs, ids, left, rows),
        0 <= i < rows.len(),
        0 <= j < rows.len(),
    ensures
        0 < rows[i].prefix_len <= rows[i].ids@.len(),
        rows[i].prefix_len == rows[j].prefix_len,
        rows[i].ids@.take(rows[i].prefix_len as int) == rows[j].ids@.take(
            rows[j].prefix_len as int,
        ),
{
    let start = sequence::state_prefix(
        sp.cls,
        sp.sep,
        ids,
        cfg.max_len as nat,
        cfg.head_max_len as nat,
        left,
    );
    assert(is_row(tok, sp, cfg, qs[i]@, ids, left, rows[i]));
    assert(is_row(tok, sp, cfg, qs[j]@, ids, left, rows[j]));
    assert(rows[i].ids@.take(start.len() as int) =~= start);
    assert(rows[j].ids@.take(start.len() as int) =~= start);
}

/// With the question first, no row is longer than the model's rows.
pub proof fn lemma_rows_fit(
    tok: tokenizers::Tokenizer,
    sp: Specials,
    cfg: AgentConfig,
    qs: Seq<Question>,
    ids: Seq<u32>,
    left: bool,
    rows: Seq<Encoded>,
    i: int,
)
    requires
        cfg.layout == Layout::Laya,
        are_rows(tok, sp, cfg, qs, ids, left, rows),
        0 <= i < rows.len(),
    ensures
        rows[i].ids@.len() <= cfg.max_len,
        forall|k: int|
            0 <= k < rows[i].markers@.len() ==> (#[trigger] rows[i].markers@[k]) < rows[i].ids@.len(),
{
    assert(is_row(tok, sp, cfg, qs[i]@, ids, left, rows[i]));
    let whole = choose|whole: PartsV| #[trigger]
        sequence::tokens_of(tok, sp.mask, sp.mask_token@, qs[i]@, whole) && ({
            let p = sequence::budgeted(whole, cfg.head_max_len);
            &&& sequence::options_fit(p, cfg.max_len)
            &&& rows[i].ids@ == sequence::fixed_row(sp.cls, sp.sep, p, ids, cfg.max_len, left)
            &&& sequence::ints(rows[i].markers@) == sequence::marker_places(0, p.head.len(), p.opts)
        });
    let p = sequence::budgeted(whole, cfg.head_max_len);
    let places = sequence::marker_places(0, p.head.len(), p.opts);
    assert forall|k: int| 0 <= k < rows[i].markers@.len() implies (#[trigger] rows[i].markers@[k])
        < rows[i].ids@.len() by {
        assert(sequence::ints(rows[i].markers@).len() == places.len());
        assert(sequence::ints(rows[i].markers@)[k] == places[k]);
        sequence::lemma_flat_take(p.opts, k);
    }
}

/// How many tokens the options keep when each is cut to at most `n`.
proof fn lemma_cut_size(opts: Seq<Seq<u32>>, n: int)
    requires
        n >= 0,
    ensures
        sequence::flat(sequence::cut_all(opts, n)).len() <= n * opts.len(),
    decreases opts.len(),
{
    if opts.len() > 0 {
        let all = sequence::cut_all(opts, n);
        lemma_cut_size(opts.drop_last(), n);
        assert(all.drop_last() =~= sequence::cut_all(opts.drop_last(), n));
        assert(n * (opts.len() - 1) + n == n * opts.len()) by (nonlinear_arith);
    } else {
        assert(n * opts.len() == 0) by (nonlinear_arith)
            requires
                opts.len() == 0,
        ;
    }
}

/// A question cut to the trained size takes no more than that, unless it has so many options that
/// not even four tokens each leave the head its sixteen.
pub proof fn lemma_questions_fit_their_budget(p: PartsV, head_max_len: usize)
    requires
        head_max_len <= isize::MAX,
        4 * p.opts.len() + 16 <= head_max_len,
    ensures
        ({
            let b = sequence::budgeted(p, head_max_len);
            b.head.len() + sequence::flat(b.opts).len() <= head_max_len
        }),
{
    let b = sequence::budgeted(p, head_max_len);
    let first = sequence::cut_all(p.opts, sequence::OPTION_MAX_TOKENS + 1);
    let k = p.opts.len() as int;
    let spare = head_max_len - 16;
    if head_max_len - sequence::flat(first).len() < 16 {
        let per = sequence::option_share(p.opts.len(), head_max_len);
        lemma_cut_size(first, per);
        if k > 0 {
            assert((spare / k) * k <= spare) by (nonlinear_arith)
                requires
                    k > 0,
                    spare >= 0,
            ;
            if per == 4 {
                assert(per * k == 4 * k);
            }
        }
        assert(first.len() == k);
        assert(sequence::flat(b.opts).len() <= spare) by {
            if k == 0 {
                assert(per * k == 0) by (nonlinear_arith)
                    requires
                        k == 0,
                ;
            }
        }
    }
}

/// With the state first, no row is longer than the model's rows, as long as the questions have
/// their room: options of at least four tokens each beside a head of sixteen.
pub proof fn lemma_prefix_rows_fit(
    tok: tokenizers::Tokenizer,
    sp: Specials,
    cfg: AgentConfig,
    qs: Seq<Question>,
    ids: Seq<u32>,
    left: bool,
    rows: Seq<Encoded>,
    i: int,
)
    requires
        cfg.layout == Layout::Prefix,
        are_rows(tok, sp, cfg, qs, ids, left, rows),
        0 <= i < rows.len(),
        cfg.head_max_len <= isize::MAX,
        4 * qs[i]@.rendered().len() + 16 <= cfg.head_max_len,
        cfg.head_max_len + 5 <= cfg.max_len,
    ensures
        rows[i].ids@.len() <= cfg.max_len,
{
    assert(is_row(tok, sp, cfg, qs[i]@, ids, left, rows[i]));
    let start = sequence::state_prefix(
        sp.cls,
        sp.sep,
        ids,
        cfg.max_len as nat,
        cfg.head_max_len as nat,
        left,
    );
    let whole = choose|whole: PartsV| #[trigger]
        sequence::tokens_of(tok, sp.mask, sp.mask_token@, qs[i]@, whole) && ({
            let p = sequence::budgeted(whole, cfg.head_max_len);
            &&& rows[i].ids@ == start + sequence::question_ids(sp.cls, sp.sep, p.head, p.opts)
            &&& sequence::ints(rows[i].markers@) == sequence::marker_places(
                start.len(),
                p.head.len(),
                p.opts,
            )
        });
    lemma_questions_fit_their_budget(whole, cfg.head_max_len);
}

// ---------------------------------------------------------------------------------------------
// Forward passes

/// The state that a row starts with.
pub open spec fn start_of(e: Encoded) -> Seq<u32> {
    e.ids@.take(e.prefix_len as int)
}

/// Where each run of rows that start with the same state begins and ends.
pub open spec fn shared_runs(rows: Seq<Encoded>) -> Seq<(int, int)>
    decreases rows.len(),
{
    if rows.len() == 0 {
        Seq::empty()
    } else {
        let before = shared_runs(rows.drop_last());
        let n = rows.len() as int;
        if rows.len() > 1 && start_of(rows[n - 2]) == start_of(rows[n - 1]) {
            before.drop_last().push((before.last().0, n))
        } else {
            before.push((n - 1, n))
        }
    }
}

/// The runs cover the rows in order: each begins where the one before it ends, none is empty, and
/// the rows of one run start alike.
pub proof fn lemma_runs_cover_the_rows(rows: Seq<Encoded>)
    ensures
        rows.len() == 0 ==> shared_runs(rows).len() == 0,
        rows.len() > 0 ==> {
            let runs = shared_runs(rows);
            &&& runs.len() > 0
            &&& runs[0].0 == 0
            &&& runs.last().1 == rows.len()
            &&& forall|k: int, l: int|
                0 <= k < l < runs.len() && l == k + 1 ==> (#[trigger] runs[k]).1 == (
                #[trigger] runs[l]).0
            &&& forall|k: int|
                0 <= k < runs.len() ==> 0 <= (#[trigger] runs[k]).0 < runs[k].1 <= rows.len()
            &&& forall|k: int, i: int|
                0 <= k < runs.len() && runs[k].0 <= i < runs[k].1 ==> start_of(#[trigger] rows[i])
                    == start_of(rows[(#[trigger] runs[k]).0])
        },
    decreases rows.len(),
{
    if rows.len() > 0 {
        let front = rows.drop_last();
        lemma_runs_cover_the_rows(front);
        let before = shared_runs(front);
        let runs = shared_runs(rows);
        let n = rows.len() as int;
        let joins = n > 1 && start_of(rows[n - 2]) == start_of(rows[n - 1]);
        assert forall|k: int, l: int| 0 <= k < l < runs.len() && l == k + 1 implies (
        #[trigger] runs[k]).1 == (#[trigger] runs[l]).0 by {
            if l < before.len() {
                assert(before[k].1 == before[l].0);
            }
        }
        assert forall|k: int| 0 <= k < runs.len() implies 0 <= (#[trigger] runs[k]).0 < runs[k].1
            <= rows.len() by {
            if k < before.len() {
                assert(0 <= before[k].0 < before[k].1 <= front.len());
            }
        }
        assert forall|k: int, i: int|
            0 <= k < runs.len() && runs[k].0 <= i < runs[k].1 implies start_of(#[trigger] rows[i])
            == start_of(rows[(#[trigger] runs[k]).0]) by {
            if k < before.len() {
                assert(runs[k].0 == before[k].0);
                assert(0 <= before[k].0 < before[k].1 <= front.len());
                assert(front[before[k].0] == rows[runs[k].0]);
                if i < before[k].1 {
                    assert(front[i] == rows[i]);
                } else {
                    assert(joins && i == n - 1);
                    assert(front[n - 2] == rows[n - 2]);
                    assert(before[k].0 <= n - 2 < before[k].1);
                }
            }
        }
    }
}

/// Whether two lists of token ids are the same.
pub fn same_ids(a: &[u32], b: &[u32]) -> (r: bool)
    ensures
        r == (a@ == b@),
{
    if a.len() != b.len() {
        return false;
    }
    let mut i: usize = 0;
    while i < a.len()
        invariant
            i <= a@.len(),
            a@.len() == b@.len(),
            forall|j: int| 0 <= j < i ==> a@[j] == b@[j],
        decreases a@.len() - i,
    {
        if a[i] != b[i] {
            return false;
        }
        i += 1;
    }
    proof {
        assert(a@ =~= b@);
    }
    true
}

/// Whether the markers and the state of every row lie inside it.
pub open spec fn starts_inside(rows: Seq<Encoded>) -> bool {
    forall|i: int| 0 <= i < rows.len() ==> (#[trigger] rows[i]).prefix_len <= rows[i].ids@.len()
}

/// Splits one request's rows into runs that start with the same state.
pub fn split_runs(rows: &[Encoded]) -> (r: Vec<(usize, usize)>)
    requires
        starts_inside(rows@),
    ensures
        pipeline::int_pairs(r@) == shared_runs(rows@),
{
    let mut r: Vec<(usize, usize)> = Vec::new();
    let mut i: usize = 0;
    proof {
        assert(pipeline::int_pairs(r@) =~= shared_runs(rows@.take(0)));
    }
    while i < rows.len()
        invariant
            i <= rows@.len(),
            starts_inside(rows@),
            pipeline::int_pairs(r@) == shared_runs(rows@.take(i as int)),
            i > 0 ==> r@.len() > 0,
        decreases rows@.len() - i,
    {
        let ghost before = pipeline::int_pairs(r@);
        proof {
            assert(rows@.take(i + 1).drop_last() =~= rows@.take(i as int));
            assert(rows@[i as int].prefix_len <= rows@[i as int].ids@.len());
        }
        let joins = if i > 0 {
            proof {
                assert(rows@[i - 1].prefix_len <= rows@[i - 1].ids@.len());
            }
            let a = &rows[i - 1].ids.as_slice()[0..rows[i - 1].prefix_len];
            let b = &rows[i].ids.as_slice()[0..rows[i].prefix_len];
            proof {
                assert(a@ =~= start_of(rows@[i - 1]));
                assert(b@ =~= start_of(rows@[i as int]));
            }
            same_ids(a, b)
        } else {
            false
        };
        if joins {
            let k: usize = r.len() - 1;
            let a: usize = r[k].0;
            proof {
                assert(before[k as int].0 == a);
            }
            r.set(k, (a, i + 1));
            proof {
                assert(pipeline::int_pairs(r@) =~= before.drop_last().push((before.last().0, i + 1)));
            }
        } else {
            r.push((i, i + 1));
            proof {
                assert(pipeline::int_pairs(r@) =~= before.push((i as int, i + 1)));
            }
        }
        i += 1;
    }
    proof {
        assert(rows@.take(i as int) =~= rows@);
    }
    r
}

/// How many rows the requests before `n` have.
pub open spec fn rows_before(groups: Seq<Vec<usize>>, n: int) -> int
    decreases n,
{
    if n <= 0 {
        0
    } else {
        rows_before(groups, n - 1) + groups[n - 1]@.len()
    }
}

proof fn lemma_rows_before(groups: Seq<Vec<usize>>, n: int, m: int)
    requires
        0 <= n <= m <= groups.len(),
    ensures
        0 <= rows_before(groups, n) <= rows_before(groups, m),
    decreases m,
{
    if n < m {
        lemma_rows_before(groups, n, m - 1);
    } else if n > 0 {
        lemma_rows_before(groups, n - 1, m - 1);
    }
}

/// Hands the rows of one pass back to the requests they came from: in order, each request as many
/// as it has rows, each row with as many logits as it has options. `groups` holds the option
/// counts of each request's rows.
pub fn hand_back(
    groups: &Vec<Vec<usize>>,
    logits: &Vec<Vec<u32>>,
    act: &Vec<Vec<u32>>,
) -> (r: Vec<Vec<RowOutput>>)
    requires
        rows_before(groups@, groups@.len() as int) == logits@.len(),
        act@.len() == logits@.len(),
        forall|g: int, i: int|
            0 <= g < groups@.len() && 0 <= i < groups@[g]@.len() ==> (#[trigger] groups@[g]@[i])
                <= logits@[rows_before(groups@, g) + i]@.len(),
    ensures
        r@.len() == groups@.len(),
        forall|g: int| 0 <= g < groups@.len() ==> (#[trigger] r@[g])@.len() == groups@[g]@.len(),
        forall|g: int, i: int|
            0 <= g < groups@.len() && 0 <= i < groups@[g]@.len() ==> {
                let at = rows_before(groups@, g) + i;
                &&& (#[trigger] r@[g]@[i]).logits@ == logits@[at]@.take(groups@[g]@[i] as int)
                &&& r@[g]@[i].act_probs@ == act@[at]@
            },
{
    let mut r: Vec<Vec<RowOutput>> = Vec::new();
    let total: usize = logits.len();
    let mut at: usize = 0;
    let mut g: usize = 0;
    while g < groups.len()
        invariant
            g <= groups@.len(),
            at == rows_before(groups@, g as int),
            rows_before(groups@, groups@.len() as int) == total,
            total == logits@.len(),
            act@.len() == logits@.len(),
            forall|g: int, i: int|
                0 <= g < groups@.len() && 0 <= i < groups@[g]@.len() ==> (#[trigger] groups@[g]@[i])
                    <= logits@[rows_before(groups@, g) + i]@.len(),
            r@.len() == g,
            forall|k: int| 0 <= k < g ==> (#[trigger] r@[k])@.len() == groups@[k]@.len(),
            forall|k: int, i: int|
                0 <= k < g && 0 <= i < groups@[k]@.len() ==> {
                    let at = rows_before(groups@, k) + i;
                    &&& (#[trigger] r@[k]@[i]).logits@ == logits@[at]@.take(groups@[k]@[i] as int)
                    &&& r@[k]@[i].act_probs@ == act@[at]@
                },
        decreases groups@.len() - g,
    {
        let n: usize = groups[g].len();
        let ghost start = at;
        proof {
            lemma_rows_before(groups@, g + 1, groups@.len() as int);
        }
        let mut outs: Vec<RowOutput> = Vec::new();
        let mut i: usize = 0;
        while i < n
            invariant
                g < groups@.len(),
                i <= n,
                n == groups@[g as int]@.len(),
                start == rows_before(groups@, g as int),
                at == start + i,
                start + n <= total,
                total == logits@.len(),
                act@.len() == logits@.len(),
                forall|g: int, i: int|
                    0 <= g < groups@.len() && 0 <= i < groups@[g]@.len() ==> (
                    #[trigger] groups@[g]@[i]) <= logits@[rows_before(groups@, g) + i]@.len(),
                outs@.len() == i,
                forall|j: int|
                    0 <= j < i ==> {
                        &&& (#[trigger] outs@[j]).logits@ == logits@[start + j]@.take(
                            groups@[g as int]@[j] as int,
                        )
                        &&& outs@[j].act_probs@ == act@[start + j]@
                    },
            decreases n - i,
        {
            proof {
                assert(groups@[g as int]@[i as int] <= logits@[start + i]@.len());
            }
            let mut l: Vec<u32> = Vec::new();
            l.extend_from_slice(&logits[at].as_slice()[0..groups[g][i]]);
            let mut a: Vec<u32> = Vec::new();
            a.extend_from_slice(act[at].as_slice());
            proof {
                assert(l@ =~= logits@[start + i]@.take(groups@[g as int]@[i as int] as int));
                assert(a@ =~= act@[start + i]@);
            }
            outs.push(RowOutput { logits: l, act_probs: a });
            at += 1;
            i += 1;
        }
        r.push(outs);
        g += 1;
    }
    r
}

// ---------------------------------------------------------------------------------------------
// Answers

/// The numbers of an answer, rounded to four decimals as answers give them. They may be null, as
/// a number that is none is.
pub struct AnswerNumbers {
    /// The calibrated probability of each option.
    pub probs: Vec<Json>,
    /// How concentrated the probabilities are.
    pub confidence: Json,
    /// The expected level of a score.
    pub score: Json,
    /// The probability to act.
    pub act: Json,
}

/// The value of an answer's numbers.
#[verifier::ext_equal]
pub struct NumbersV {
    pub probs: Seq<JsonV>,
    pub confidence: JsonV,
    pub score: JsonV,
    pub act: JsonV,
}

impl View for AnswerNumbers {
    type V = NumbersV;

    open spec fn view(&self) -> NumbersV {
        NumbersV {
            probs: json::values(self.probs@),
            confidence: self.confidence@,
            score: self.score@,
            act: self.act@,
        }
    }
}

/// An object with a value under each of several names.
pub open spec fn by_name(names: Seq<Seq<char>>, vals: Seq<JsonV>) -> Seq<(Seq<char>, JsonV)>
    decreases names.len(),
{
    if names.len() == 0 {
        Seq::empty()
    } else {
        json::with_member(
            by_name(names.drop_last(), vals.drop_last()),
            names.last(),
            vals.last(),
        )
    }
}

/// Different names each get their own value, in order.
pub proof fn lemma_by_name(names: Seq<Seq<char>>, vals: Seq<JsonV>)
    requires
        names.len() == vals.len(),
        forall|i: int, j: int| 0 <= i < j < names.len() ==> names[i] != names[j],
    ensures
        by_name(names, vals) == Seq::new(names.len(), |i: int| (names[i], vals[i])),
    decreases names.len(),
{
    let want = Seq::new(names.len(), |i: int| (names[i], vals[i]));
    if names.len() > 0 {
        let a = names.drop_last();
        let b = vals.drop_last();
        lemma_by_name(a, b);
        let o = by_name(a, b);
        assert forall|i: int| 0 <= i < o.len() implies (#[trigger] o[i]).0 != names.last() by {
            assert(names[i] != names[names.len() - 1]);
        }
        json::lemma_key_at_is(o, names.last(), o.len() as int);
        assert(by_name(names, vals) =~= want);
    } else {
        assert(by_name(names, vals) =~= want);
    }
}

/// An object with a value under each of several names.
pub fn put_by_name(names: &Vec<String>, vals: &Vec<Json>) -> (r: Vec<(String, Json)>)
    requires
        names@.len() == vals@.len(),
    ensures
        json::members(r@) == by_name(text::texts(names@), json::values(vals@)),
{
    let ghost ns = text::texts(names@);
    let ghost vs = json::values(vals@);
    let mut r: Vec<(String, Json)> = Vec::new();
    let mut i: usize = 0;
    proof {
        assert(json::members(r@) =~= by_name(ns.take(0), vs.take(0)));
    }
    while i < names.len()
        invariant
            i <= names@.len(),
            names@.len() == vals@.len(),
            ns == text::texts(names@),
            vs == json::values(vals@),
            json::members(r@) == by_name(ns.take(i as int), vs.take(i as int)),
        decreases names@.len() - i,
    {
        proof {
            assert(ns.take(i + 1).drop_last() =~= ns.take(i as int));
            assert(vs.take(i + 1).drop_last() =~= vs.take(i as int));
        }
        put(&mut r, names[i].as_str(), vals[i].copy());
        i += 1;
    }
    proof {
        assert(ns.take(i as int) =~= ns);
        assert(vs.take(i as int) =~= vs);
    }
    r
}

/// What each level of a score means.
pub open spec fn legend_of(crit: CriteriaV) -> Seq<(Seq<char>, JsonV)> {
    match crit {
        CriteriaV::Score(c) => Seq::new(c.len(), |i: int| (text::dec(i as nat), c[i])),
        _ => Seq::empty(),
    }
}

/// What each level of a score means.
pub fn legend(crit: &Criteria) -> (r: Vec<(String, Json)>)
    ensures
        json::members(r@) == legend_of(crit@),
{
    let ghost all = legend_of(crit@);
    let mut r: Vec<(String, Json)> = Vec::new();
    match crit {
        Criteria::Score(c) => {
            let mut i: usize = 0;
            proof {
                assert(json::members(r@) =~= all.take(0));
            }
            while i < c.len()
                invariant
                    i <= c@.len(),
                    *crit == Criteria::Score(*c),
                    all == legend_of(crit@),
                    json::members(r@) == all.take(i as int),
                decreases c@.len() - i,
            {
                let key = decimal(i as u64);
                add_member(&mut r, key.as_str(), c[i].copy());
                proof {
                    assert(all.take(i + 1) =~= all.take(i as int).push(all[i as int]));
                }
                i += 1;
            }
            proof {
                assert(all.take(i as int) =~= all);
            }
        },
        _ => {
            proof {
                assert(json::members(r@) =~= all);
            }
        },
    }
    r
}

/// The typed answer that calibrated probabilities give: the likeliest option, the expected level,
/// or the probability that the statement holds.
pub open spec fn decoded(q: QuestionV, p: Seq<u32>, n: NumbersV) -> JsonV {
    let best = float::peak(p);
    let tail = seq![
        ("confidence"@, n.confidence),
        ("answer_confidence"@, n.probs[best]),
        ("action"@, JsonV::Object(seq![("act_probability"@, n.act)])),
    ];
    let probs = JsonV::Object(by_name(q.keys(), n.probs));
    JsonV::Object(
        match q.t {
            QType::Choice => seq![
                ("type"@, JsonV::String("choice"@)),
                ("choice"@, JsonV::String(q.keys()[best])),
                ("probabilities"@, probs),
            ] + tail,
            QType::Score => seq![
                ("type"@, JsonV::String("score"@)),
                ("score"@, n.score),
                ("legend"@, JsonV::Object(legend_of(q.crit))),
                ("probabilities"@, probs),
            ] + tail,
            QType::Noul => seq![("type"@, JsonV::String("noul"@)), ("noul"@, n.probs[1])] + tail,
        },
    )
}

/// Whether there is a probability, and its number, for each option of a question.
pub open spec fn answerable(q: QuestionV, p: Seq<u32>, n: NumbersV) -> bool {
    &&& p.len() > 0
    &&& p.len() == q.keys().len()
    &&& n.probs.len() == p.len()
}

/// The typed answer that calibrated probabilities `p` give, with its numbers.
pub fn decode(q: &Question, p: &Vec<u32>, n: &AnswerNumbers) -> (r: Json)
    requires
        answerable(q@, p@, n@),
        q.t == QType::Noul ==> p@.len() >= 2,
    ensures
        r@ == decoded(q@, p@, n@),
{
    let best: usize = argmax(p);
    let keys = q.option_keys();
    let mut o: Vec<(String, Json)> = Vec::new();
    proof {
        assert(text::texts(keys@)[best as int] == keys@[best as int]@);
        assert(n@.probs[best as int] == n.probs@[best as int]@);
    }
    match q.t {
        QType::Choice => {
            add_member(&mut o, "type", string("choice"));
            add_member(&mut o, "choice", string(keys[best].as_str()));
            add_member(&mut o, "probabilities", Json::Object(put_by_name(&keys, &n.probs)));
        },
        QType::Score => {
            add_member(&mut o, "type", string("score"));
            add_member(&mut o, "score", n.score.copy());
            add_member(&mut o, "legend", Json::Object(legend(&q.crit)));
            add_member(&mut o, "probabilities", Json::Object(put_by_name(&keys, &n.probs)));
        },
        QType::Noul => {
            proof {
                assert(n@.probs[1] == n.probs@[1]@);
            }
            add_member(&mut o, "type", string("noul"));
            add_member(&mut o, "noul", n.probs[1].copy());
        },
    }
    let mut action: Vec<(String, Json)> = Vec::new();
    add_member(&mut action, "act_probability", n.act.copy());
    proof {
        assert(json::members(action@) =~= seq![("act_probability"@, n@.act)]);
    }
    add_member(&mut o, "confidence", n.confidence.copy());
    add_member(&mut o, "answer_confidence", n.probs[best].copy());
    add_member(&mut o, "action", Json::Object(action));
    proof {
        assert(json::members(o@) =~= decoded(q@, p@, n@)->Object_0);
    }
    Json::Object(o)
}

/// The names of an answer's members tell them apart.
pub proof fn lemma_answer_names()
    ensures
        "type"@.len() == 4 && "type"@[0] == 't',
        "noul"@.len() == 4 && "noul"@[0] == 'n',
        "score"@.len() == 5,
        "choice"@.len() == 6 && "choice"@[0] == 'c',
        "legend"@.len() == 6 && "legend"@[0] == 'l',
        "action"@.len() == 6 && "action"@[0] == 'a',
        "confidence"@.len() == 10,
        "probabilities"@.len() == 13,
        "act_probability"@.len() == 15,
        "answer_confidence"@.len() == 17,
        "false"@.len() == 5,
        "true"@.len() == 4,
{
    reveal_strlit("type");
    reveal_strlit("noul");
    reveal_strlit("score");
    reveal_strlit("choice");
    reveal_strlit("legend");
    reveal_strlit("action");
    reveal_strlit("confidence");
    reveal_strlit("probabilities");
    reveal_strlit("act_probability");
    reveal_strlit("answer_confidence");
    reveal_strlit("false");
    reveal_strlit("true");
}

/// Whether the `i`-th of several numbers is the likeliest: none exceeds it, and of those that equal
/// it, it is the first.
pub open spec fn is_likeliest(p: Seq<u32>, i: int) -> bool {
    &&& 0 <= i < p.len()
    &&& forall|j: int| 0 <= j < p.len() ==> float::is_number(#[trigger] p[j])
    &&& forall|j: int| 0 <= j < p.len() ==> !float::greater(#[trigger] p[j], p[i])
    &&& forall|j: int| 0 <= j < i ==> float::greater(p[i], #[trigger] p[j])
}

/// The likeliest option is the one that is found.
pub proof fn lemma_likeliest(p: Seq<u32>, i: int)
    requires
        is_likeliest(p, i),
    ensures
        float::peak(p) == i,
{
    float::lemma_peak_is_largest(p);
    let k = float::peak(p);
    if k < i {
        assert(float::greater(p[i], p[k]));
    }
    if i < k {
        assert(float::greater(p[k], p[i]));
    }
}

/// The answer to a `noul` question gives the probability of the option `true`, whether or not that
/// is the likelier one, and is as sure as the likelier one is.
pub proof fn lemma_noul_answers_tell_how_likely_true_is(
    q: QuestionV,
    p: Seq<u32>,
    n: NumbersV,
    i: int,
    j: int,
)
    requires
        answerable(q, p, n),
        q.t == QType::Noul,
        q.crit is Noul,
        0 <= i < p.len(),
        q.keys()[i] == "true"@,
        0 <= j < p.len(),
        q.keys()[j] == "false"@,
    ensures
        ({
            let o = decoded(q, p, n)->Object_0;
            &&& json::member(o, "type"@) == Some(JsonV::String("noul"@))
            &&& json::member(o, "noul"@) == Some(n.probs[i])
            &&& float::greater(p[i], p[j]) ==> json::member(o, "answer_confidence"@) == Some(
                n.probs[i],
            )
            &&& float::greater(p[j], p[i]) ==> json::member(o, "answer_confidence"@) == Some(
                n.probs[j],
            )
        }),
{
    lemma_answer_names();
    let o = decoded(q, p, n)->Object_0;
    json::lemma_key_at_is(o, "type"@, 0);
    json::lemma_key_at_is(o, "noul"@, 1);
    json::lemma_key_at_is(o, "answer_confidence"@, 3);
    reveal_with_fuel(float::peak, 3);
    assert(p.drop_last()[0] == p[0]);
}

/// Every answer names its type, says how sure it is by the probability of the likeliest option,
/// and gives the confidence and the probability to act that were computed; a choice is the name of
/// the likeliest option.
pub proof fn lemma_answers_are_as_sure_as_the_likeliest_option(
    q: QuestionV,
    p: Seq<u32>,
    n: NumbersV,
    i: int,
)
    requires
        answerable(q, p, n),
        is_likeliest(p, i),
    ensures
        decoded(q, p, n) is Object,
        ({
            let o = decoded(q, p, n)->Object_0;
            &&& q.t == QType::Choice ==> json::member(o, "type"@) == Some(JsonV::String("choice"@))
            &&& q.t == QType::Score ==> json::member(o, "type"@) == Some(JsonV::String("score"@))
            &&& q.t == QType::Noul ==> json::member(o, "type"@) == Some(JsonV::String("noul"@))
            &&& json::member(o, "answer_confidence"@) == Some(n.probs[i])
            &&& json::member(o, "confidence"@) == Some(n.confidence)
            &&& json::member(o, "action"@) == Some(
                JsonV::Object(seq![("act_probability"@, n.act)]),
            )
            &&& q.t == QType::Choice ==> json::member(o, "choice"@) == Some(
                JsonV::String(q.keys()[i]),
            )
        }),
{
    lemma_answer_names();
    lemma_likeliest(p, i);
    let o = decoded(q, p, n)->Object_0;
    let k: int = match q.t {
        QType::Choice => 3,
        QType::Score => 4,
        QType::Noul => 2,
    };
    json::lemma_key_at_is(o, "type"@, 0);
    json::lemma_key_at_is(o, "confidence"@, k);
    json::lemma_key_at_is(o, "answer_confidence"@, k + 1);
    json::lemma_key_at_is(o, "action"@, k + 2);
    if q.t == QType::Choice {
        json::lemma_key_at_is(o, "choice"@, 1);
    }
}

/// Whether no two options of a question have the same name.
pub open spec fn distinct_keys(q: QuestionV) -> bool {
    forall|i: int, j: int| 0 <= i < j < q.keys().len() ==> q.keys()[i] != q.keys()[j]
}

/// An object made of names and values gives each name its value.
pub proof fn lemma_value_by_name(names: Seq<Seq<char>>, vals: Seq<JsonV>, i: int)
    requires
        names.len() == vals.len(),
        forall|i: int, j: int| 0 <= i < j < names.len() ==> names[i] != names[j],
        0 <= i < names.len(),
    ensures
        by_name(names, vals).len() == names.len(),
        by_name(names, vals)[i] == (names[i], vals[i]),
        json::member(by_name(names, vals), names[i]) == Some(vals[i]),
{
    lemma_by_name(names, vals);
    let o = by_name(names, vals);
    assert forall|j: int| 0 <= j < i implies (#[trigger] o[j]).0 != names[i] by {
        assert(names[j] != names[i]);
    }
    json::lemma_key_at_is(o, names[i], i);
}

/// The answer to a choice or a score gives every option its own probability, under its name and in
/// the order of the question, and nothing else; that of a score gives the expected level, and what
/// each level means.
pub proof fn lemma_answers_give_every_option_its_probability(
    q: QuestionV,
    p: Seq<u32>,
    n: NumbersV,
    i: int,
)
    requires
        answerable(q, p, n),
        q.t != QType::Noul,
        distinct_keys(q),
        0 <= i < p.len(),
    ensures
        ({
            let o = decoded(q, p, n)->Object_0;
            &&& json::member(o, "probabilities"@) matches Some(JsonV::Object(m))
            &&& m.len() == p.len()
            &&& m[i] == (q.keys()[i], n.probs[i])
            &&& json::member(m, q.keys()[i]) == Some(n.probs[i])
        }),
        ({
            let o = decoded(q, p, n)->Object_0;
            q.t == QType::Score ==> {
                &&& json::member(o, "score"@) == Some(n.score)
                &&& q.crit matches CriteriaV::Score(levels) ==> {
                    &&& json::member(o, "legend"@) matches Some(JsonV::Object(m))
                    &&& m.len() == levels.len()
                    &&& m[i] == (q.keys()[i], levels[i])
                    &&& json::member(m, q.keys()[i]) == Some(levels[i])
                }
            }
        }),
{
    lemma_answer_names();
    lemma_value_by_name(q.keys(), n.probs, i);
    let o = decoded(q, p, n)->Object_0;
    if q.t == QType::Choice {
        json::lemma_key_at_is(o, "probabilities"@, 2);
    } else {
        json::lemma_key_at_is(o, "score"@, 1);
        json::lemma_key_at_is(o, "legend"@, 2);
        json::lemma_key_at_is(o, "probabilities"@, 3);
        if let CriteriaV::Score(levels) = q.crit {
            let m = legend_of(q.crit);
            assert forall|j: int| 0 <= j < i implies (#[trigger] m[j]).0 != q.keys()[i] by {
                assert(q.keys()[j] != q.keys()[i]);
            }
            json::lemma_key_at_is(m, q.keys()[i], i);
        }
    }
}

/// The choice an answer names is an option of the question, and no option is likelier, as long as
/// the probabilities are numbers.
pub proof fn lemma_answers_name_the_likeliest_option(q: QuestionV, p: Seq<u32>, n: NumbersV, i: int)
    requires
        answerable(q, p, n),
        q.t == QType::Choice,
        forall|i: int| 0 <= i < p.len() ==> float::is_number(#[trigger] p[i]),
        0 <= i < p.len(),
    ensures
        json::member(decoded(q, p, n)->Object_0, "choice"@) == Some(
            JsonV::String(q.keys()[float::peak(p)]),
        ),
        0 <= float::peak(p) < p.len(),
        !float::greater(p[i], p[float::peak(p)]),
{
    float::lemma_peak_is_largest(p);
    reveal_strlit("type");
    reveal_strlit("choice");
    let o = decoded(q, p, n)->Object_0;
    assert(o[1].0 == "choice"@);
    assert("type"@.len() == 4 && "choice"@.len() == 6);
    json::lemma_key_at_is(o, "choice"@, 1);
}

// ---------------------------------------------------------------------------------------------
// Whole requests

/// The questions of a request, or the name of the first that is none and what is wrong with it.
pub open spec fn questions_of(m: Seq<(Seq<char>, JsonV)>) -> Result<
    Seq<QuestionV>,
    (Seq<char>, QuestionErrorV),
>
    decreases m.len(),
{
    if m.len() == 0 {
        Ok(Seq::empty())
    } else {
        match questions_of(m.drop_last()) {
            Err(e) => Err(e),
            Ok(qs) => match sequence::question_of(m.last().1) {
                Ok(q) => Ok(qs.push(q)),
                Err(e) => Err((m.last().0, e)),
            },
        }
    }
}

/// The values of several questions.
pub open spec fn question_values(v: Seq<Question>) -> Seq<QuestionV> {
    Seq::new(v.len(), |i: int| v[i]@)
}

proof fn lemma_questions_fail(m: Seq<(Seq<char>, JsonV)>, n: int)
    requires
        0 <= n <= m.len(),
        questions_of(m.take(n)) is Err,
    ensures
        questions_of(m) == questions_of(m.take(n)),
    decreases m.len() - n,
{
    if n < m.len() {
        assert(m.take(n + 1).drop_last() =~= m.take(n));
        lemma_questions_fail(m, n + 1);
    } else {
        assert(m.take(n) =~= m);
    }
}

/// The questions of a request, or the name of the first that is none and what is wrong with it.
pub fn read_questions(m: &Vec<(String, Json)>) -> (r: Result<
    Vec<Question>,
    (String, QuestionError),
>)
    ensures
        match r {
            Ok(qs) => questions_of(json::members(m@)) == Ok::<
                Seq<QuestionV>,
                (Seq<char>, QuestionErrorV),
            >(question_values(qs@)),
            Err(e) => questions_of(json::members(m@)) == Err::<
                Seq<QuestionV>,
                (Seq<char>, QuestionErrorV),
            >((e.0@, e.1@)),
        },
{
    let ghost all = json::members(m@);
    let mut qs: Vec<Question> = Vec::new();
    let mut i: usize = 0;
    proof {
        assert(all.take(0) =~= Seq::empty());
        assert(question_values(qs@) =~= Seq::empty());
    }
    while i < m.len()
        invariant
            i <= m@.len(),
            all == json::members(m@),
            questions_of(all.take(i as int)) == Ok::<Seq<QuestionV>, (Seq<char>, QuestionErrorV)>(
                question_values(qs@),
            ),
        decreases m@.len() - i,
    {
        let ghost before = question_values(qs@);
        proof {
            assert(all.take(i + 1).drop_last() =~= all.take(i as int));
            assert(all.take(i + 1).last() == (m@[i as int].0@, m@[i as int].1@));
        }
        match Question::from_json(&m[i].1) {
            Ok(q) => {
                let ghost value = q@;
                qs.push(q);
                proof {
                    assert(question_values(qs@) =~= before.push(value));
                }
            },
            Err(e) => {
                let id = m[i].0.clone();
                proof {
                    lemma_questions_fail(all, i + 1);
                }
                return Err((id, e));
            },
        }
        i += 1;
    }
    proof {
        assert(all.take(i as int) =~= all);
    }
    Ok(qs)
}

/// Why a question with a name is refused, in words.
pub fn question_message(id: &str, e: &QuestionError) -> (r: String)
    ensures
        r@ == "question "@ + sequence::debug_of(id@) + ": "@ + e@.words(),
{
    let mut r = "question ".to_owned();
    r.append(sequence::debug_text(id).as_str());
    r.append(": ");
    r.append(e.message().as_str());
    r
}

/// Questions are read one for each that is asked, in order, and the first that cannot be read is
/// named by its id.
pub proof fn lemma_questions_are_read_in_order(m: Seq<(Seq<char>, JsonV)>, i: int)
    ensures
        match questions_of(m) {
            Ok(qs) => {
                &&& qs.len() == m.len()
                &&& 0 <= i < m.len() ==> sequence::question_of(m[i].1) == Ok::<
                    QuestionV,
                    QuestionErrorV,
                >(qs[i])
            },
            Err((id, e)) => exists|k: int|
                0 <= k < m.len() && (#[trigger] m[k]).0 == id && sequence::question_of(m[k].1)
                    == Err::<QuestionV, QuestionErrorV>(e) && questions_of(m.take(k)) is Ok,
        },
    decreases m.len(),
{
    if m.len() > 0 {
        let less = m.drop_last();
        lemma_questions_are_read_in_order(less, i);
        match questions_of(less) {
            Ok(qs) => {
                assert(m.take(m.len() - 1) =~= less);
                if let Err((id, e)) = questions_of(m) {
                    assert(m[m.len() - 1].0 == id);
                }
            },
            Err((id, e)) => {
                let k = choose|k: int|
                    0 <= k < less.len() && (#[trigger] less[k]).0 == id && sequence::question_of(
                        less[k].1,
                    ) == Err::<QuestionV, QuestionErrorV>(e) && questions_of(less.take(k)) is Ok;
                assert(m[k] == less[k]);
                assert(m.take(k) =~= less.take(k));
            },
        }
    }
}

} // verus!
