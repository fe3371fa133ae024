//! The request pipeline: gets the whole question and the whole state in front of the model, and
//! says so when it can't.
//!
//! - **The question comes first.** Instructions and options are kept whole. A row may grow past
//!   the trained length, up to the encoder's position limit, so that the state keeps some tokens
//!   next to a long question.
//! - **Large option lists run in batches.** Each batch's leaders advance until one row holds
//!   every finalist, and every option is placed relative to a leader of its batch.
//! - **A long state runs in chunks** that overlap, and every question is asked of every chunk.
//! - **Truncation is reported.** Only a question too long for the encoder's positions is cut.

use vstd::prelude::*;

use crate::sequence::{self, sum_tokens, PartsV, QType, QuestionParts};
use crate::tournament;

verus! {

/// Token budgets for fitting a request into rows.
#[derive(Clone, Copy, PartialEq, Eq, Structural, Debug)]
pub struct Budget {
    /// The row length the model was trained on. Rows only grow past it when a question needs the
    /// room.
    pub max_len: usize,
    /// The most tokens a row may have: the encoder's position limit.
    pub max_window: usize,
    /// Option tokens per row before a choice is split into batches.
    pub option_budget: usize,
    /// State tokens every row keeps, however long the question.
    pub min_state: usize,
    /// Tokens shared by consecutive state chunks, so a fact on a boundary is whole in one.
    pub overlap: usize,
}

impl Budget {
    /// The budgets of a model trained on rows of `max_len` tokens with questions of
    /// `head_max_len`, whose encoder has `positions` positions.
    pub fn for_model(max_len: usize, head_max_len: usize, positions: usize) -> (r: Budget)
        ensures
            r.max_len == max_len,
            r.max_window == sequence::larger(positions as int, max_len as int),
            r.option_budget == head_max_len,
            r.min_state == sequence::larger(max_len as int / 4, 16),
            r.overlap == max_len as int / 8,
    {
        Budget {
            max_len,
            max_window: if positions >= max_len {
                positions
            } else {
                max_len
            },
            option_budget: head_max_len,
            min_state: if max_len / 4 >= 16 {
                max_len / 4
            } else {
                16
            },
            overlap: max_len / 8,
        }
    }
}

/// Tokens a question lost to the encoder's position limit.
#[derive(Clone, Copy, PartialEq, Eq, Structural, Debug)]
pub struct Truncation {
    /// Instruction tokens cut (from the middle: the start and the end are kept).
    pub instructions: usize,
    /// Option tokens cut, from the ends of the longest options.
    pub options: usize,
    /// The question's tokens before cutting, and the most a row had room for.
    pub question_tokens: usize,
    pub limit: usize,
}

impl Truncation {
    /// Whether anything was cut.
    pub fn any(&self) -> (r: bool)
        ensures
            r == (self.instructions + self.options > 0),
    {
        self.instructions > 0 || self.options > 0
    }
}

// ---------------------------------------------------------------------------------------------
// State chunks

/// `a` divided by `b`, rounded up.
pub open spec fn ceil_div(a: int, b: int) -> int {
    (a + b - 1) / b
}

/// What rounding up means.
pub proof fn lemma_ceil_div(a: int, b: int)
    requires
        a >= 0,
        b >= 1,
    ensures
        ceil_div(a, b) * b >= a,
        (ceil_div(a, b) - 1) * b < a,
        0 <= ceil_div(a, b) <= a,
        a >= 1 ==> ceil_div(a, b) >= 1,
{
    let q = ceil_div(a, b);
    let r = (a + b - 1) % b;
    assert(a + b - 1 == b * q + r && 0 <= r < b) by (nonlinear_arith)
        requires
            b >= 1,
            q == (a + b - 1) / b,
            r == (a + b - 1) % b,
    ;
    assert(q * b >= a && (q - 1) * b < a) by (nonlinear_arith)
        requires
            a + b - 1 == b * q + r,
            0 <= r < b,
    ;
    assert(0 <= q <= a) by (nonlinear_arith)
        requires
            q * b >= a,
            (q - 1) * b < a,
            a >= 0,
            b >= 1,
    ;
    if a >= 1 {
        assert(q >= 1) by (nonlinear_arith)
            requires
                q * b >= a,
                a >= 1,
                b >= 1,
        ;
    }
}

/// The quotient rounded up is the only number that fits.
pub proof fn lemma_ceil_div_is(a: int, b: int, q: int)
    requires
        a >= 0,
        b >= 1,
        q * b >= a,
        (q - 1) * b < a,
    ensures
        ceil_div(a, b) == q,
{
    lemma_ceil_div(a, b);
    let c = ceil_div(a, b);
    assert(c == q) by (nonlinear_arith)
        requires
            b >= 1,
            q * b >= a,
            (q - 1) * b < a,
            c * b >= a,
            (c - 1) * b < a,
    ;
}

pub fn div_up(a: usize, b: usize) -> (q: usize)
    requires
        b >= 1,
    ensures
        q == ceil_div(a as int, b as int),
{
    let q: usize = a / b;
    let r: usize = a % b;
    proof {
        assert(a == b * q + r && 0 <= r < b) by (nonlinear_arith)
            requires
                b >= 1,
                q == a / b,
                r == a % b,
        ;
        assert(q <= a) by (nonlinear_arith)
            requires
                a == b * q + r,
                r >= 0,
                b >= 1,
        ;
    }
    if r == 0 {
        proof {
            assert(q * b >= a && (q - 1) * b < a) by (nonlinear_arith)
                requires
                    a == b * q,
                    b >= 1,
            ;
            lemma_ceil_div_is(a as int, b as int, q as int);
        }
        q
    } else {
        proof {
            assert(q < a) by (nonlinear_arith)
                requires
                    a == b * q + r,
                    r >= 1,
                    b >= 1,
            ;
            assert((q + 1) * b >= a && q * b < a) by (nonlinear_arith)
                requires
                    a == b * q + r,
                    1 <= r < b,
            ;
            lemma_ceil_div_is(a as int, b as int, q + 1);
        }
        q + 1
    }
}

/// How a state that is longer than its room is divided.
#[verifier::ext_equal]
pub struct Division {
    /// How many chunks there are.
    pub count: int,
    /// How far apart chunks start.
    pub stride: int,
    /// Tokens shared by consecutive chunks.
    pub shared: int,
}

/// The division of `len` tokens into chunks of at most `room`, sharing `overlap` tokens but no
/// more than half a chunk, and of even size.
pub open spec fn division(len: int, room: int, overlap: int) -> Division {
    let shared = if overlap <= room / 2 {
        overlap
    } else {
        room / 2
    };
    let count = ceil_div(len - shared, room - shared);
    Division { count, stride: ceil_div(len - shared, count), shared }
}

/// The chunks of a state of `len` tokens: all of it when it fits, else its division.
pub open spec fn spans(len: nat, room: nat, overlap: nat) -> Seq<(int, int)> {
    let room = sequence::larger(room as int, 1);
    if len <= room {
        seq![(0, len as int)]
    } else {
        let d = division(len as int, room, overlap as int);
        Seq::new(
            d.count as nat,
            |i: int|
                (
                    i * d.stride,
                    if i * d.stride + d.stride + d.shared <= len {
                        i * d.stride + d.stride + d.shared
                    } else {
                        len as int
                    },
                ),
        )
    }
}

/// A division leaves no gap and no sliver.
proof fn lemma_division(len: int, room: int, overlap: int)
    requires
        1 <= room < len,
        overlap >= 0,
    ensures
        ({
            let d = division(len, room, overlap);
            &&& 0 <= d.shared <= room / 2
            &&& d.shared <= overlap
            &&& 2 <= d.count <= len
            &&& 1 <= d.stride
            &&& d.stride + d.shared <= room
            &&& (d.count - 1) * d.stride + d.shared < len
            &&& d.count * d.stride + d.shared >= len
        }),
{
    let d = division(len, room, overlap);
    let l = len - d.shared;
    let s = room - d.shared;
    lemma_ceil_div(l, s);
    lemma_ceil_div(l, d.count);
    assert(d.count >= 2) by (nonlinear_arith)
        requires
            d.count * s >= l,
            l > s,
            s >= 1,
    ;
    assert((d.stride - 1) * d.count < l <= d.count * s);
    assert(d.stride <= s) by (nonlinear_arith)
        requires
            (d.stride - 1) * d.count < d.count * s,
            d.count >= 1,
    ;
    assert((d.count - 1) * d.stride <= (d.count - 1) * s) by (nonlinear_arith)
        requires
            d.stride <= s,
            d.count >= 1,
    ;
}

/// Tokens that consecutive chunks share: the overlap, but no more than half the room.
pub open spec fn shared_tokens(room: nat, overlap: nat) -> int {
    let room = sequence::larger(room as int, 1);
    if overlap <= room / 2 {
        overlap as int
    } else {
        room / 2
    }
}

/// Chunks cover the state: the first starts at its start, the last ends at its end, each but the
/// last shares the same number of tokens with the next, and none is longer than the room.
pub proof fn lemma_chunks_cover_the_state(len: nat, room: nat, overlap: nat)
    ensures
        ({
            let s = spans(len, room, overlap);
            &&& s.len() >= 1
            &&& s[0].0 == 0
            &&& s.last().1 == len
            &&& forall|i: int|
                0 <= i < s.len() ==> 0 <= (#[trigger] s[i]).0 <= s[i].1 <= len && s[i].1 - s[i].0
                    <= sequence::larger(room as int, 1)
            &&& forall|i: int|
                0 <= i < s.len() - 1 ==> {
                    &&& (#[trigger] s[i]).0 < s[i + 1].0
                    &&& s[i].1 - s[i + 1].0 == shared_tokens(room, overlap)
                }
        }),
{
    let room1 = sequence::larger(room as int, 1);
    if len > room1 {
        lemma_division(len as int, room1, overlap as int);
        let d = division(len as int, room1, overlap as int);
        let s = spans(len, room, overlap);
        assert forall|i: int| 0 <= i < d.count implies {
            &&& 0 <= (#[trigger] s[i]).0 <= s[i].1 <= len
            &&& s[i].1 - s[i].0 <= room1
            &&& i < d.count - 1 ==> s[i].1 == i * d.stride + d.stride + d.shared
            &&& i == d.count - 1 ==> s[i].1 == len
        } by {
            assert(0 <= i * d.stride <= (d.count - 1) * d.stride) by (nonlinear_arith)
                requires
                    0 <= i <= d.count - 1,
                    d.stride >= 1,
            ;
            assert(i * d.stride + d.stride == (i + 1) * d.stride) by (nonlinear_arith);
            if i < d.count - 1 {
                assert((i + 1) * d.stride <= (d.count - 1) * d.stride) by (nonlinear_arith)
                    requires
                        i + 1 <= d.count - 1,
                        d.stride >= 1,
                ;
            } else {
                assert((i + 1) * d.stride == d.count * d.stride);
            }
        }
        assert forall|i: int| 0 <= i < s.len() - 1 implies {
            &&& (#[trigger] s[i]).0 < s[i + 1].0
            &&& s[i].1 - s[i + 1].0 == shared_tokens(room, overlap)
        } by {
            assert(i * d.stride + d.stride == (i + 1) * d.stride) by (nonlinear_arith);
        }
        assert(0 * d.stride == 0);
    }
}

/// The spans as pairs of integers.
pub open spec fn int_pairs(v: Seq<(usize, usize)>) -> Seq<(int, int)> {
    Seq::new(v.len(), |i: int| (v[i].0 as int, v[i].1 as int))
}

/// Splits `len` state tokens into spans of at most `room`, consecutive spans sharing `overlap`
/// tokens. One (possibly empty) span when the state fits.
pub fn chunk_spans(len: usize, room: usize, overlap: usize) -> (r: Vec<(usize, usize)>)
    ensures
        int_pairs(r@) == spans(len as nat, room as nat, overlap as nat),
{
    let room1: usize = if room >= 1 {
        room
    } else {
        1
    };
    let mut r: Vec<(usize, usize)> = Vec::new();
    if len <= room1 {
        r.push((0, len));
        proof {
            assert(int_pairs(r@) =~= spans(len as nat, room as nat, overlap as nat));
        }
        return r;
    }
    let shared: usize = if overlap <= room1 / 2 {
        overlap
    } else {
        room1 / 2
    };
    proof {
        lemma_division(len as int, room1 as int, overlap as int);
    }
    let n: usize = div_up(len - shared, room1 - shared);
    let stride: usize = div_up(len - shared, n);
    let ghost d = division(len as int, room1 as int, overlap as int);
    let ghost all = spans(len as nat, room as nat, overlap as nat);
    let mut i: usize = 0;
    let mut a: usize = 0;
    proof {
        assert(int_pairs(r@) =~= all.take(0));
        assert(0 * d.stride == 0);
    }
    while i < n
        invariant
            i <= n,
            d == division(len as int, room1 as int, overlap as int),
            room1 == sequence::larger(room as int, 1),
            len > room1,
            d == (Division { count: n as int, stride: stride as int, shared: shared as int }),
            stride + shared <= room1,
            1 <= stride,
            (d.count - 1) * d.stride + d.shared < len,
            i < n ==> a == i * d.stride,
            all == spans(len as nat, room as nat, overlap as nat),
            all.len() == n,
            int_pairs(r@) == all.take(i as int),
        decreases n - i,
    {
        proof {
            assert(i * d.stride <= (d.count - 1) * d.stride) by (nonlinear_arith)
                requires
                    i <= d.count - 1,
                    d.stride >= 1,
            ;
            assert(i * d.stride + d.stride == (i + 1) * d.stride) by (nonlinear_arith);
        }
        let b: usize = if len - a >= stride + shared {
            a + stride + shared
        } else {
            len
        };
        let ghost before = r@;
        r.push((a, b));
        proof {
            assert(all[i as int] == (a as int, b as int));
            assert(int_pairs(r@) =~= int_pairs(before).push((a as int, b as int)));
            assert(all.take(i + 1) =~= all.take(i as int).push(all[i as int]));
            if i + 1 < n {
                assert((i + 1) * d.stride <= (d.count - 1) * d.stride) by (nonlinear_arith)
                    requires
                        i + 1 <= d.count - 1,
                        d.stride >= 1,
                ;
            }
        }
        i += 1;
        if i < n {
            a = a + stride;
        }
    }
    proof {
        assert(all.take(i as int) =~= all);
    }
    r
}

// ---------------------------------------------------------------------------------------------
// Option batches

/// The indices of each batch.
pub open spec fn batches(v: Seq<Vec<usize>>) -> Seq<Seq<usize>> {
    Seq::new(v.len(), |i: int| v[i]@)
}

/// Several batches, one after another.
pub open spec fn concat(v: Seq<Seq<usize>>) -> Seq<usize>
    decreases v.len(),
{
    if v.len() == 0 {
        Seq::empty()
    } else {
        concat(v.drop_last()) + v.last()
    }
}

/// The first `k` indices.
pub open spec fn indices(k: nat) -> Seq<usize> {
    Seq::new(k, |i: int| i as usize)
}

/// Dealing out the options of `which` in order: the batches that are full, and the one still
/// being filled. A batch is full when it has two options and the next one would take it past
/// `target` tokens.
pub open spec fn dealt(opts: Seq<Seq<u32>>, which: Seq<usize>, target: int) -> (
    Seq<Seq<usize>>,
    Seq<usize>,
)
    decreases which.len(),
{
    if which.len() == 0 {
        (Seq::empty(), Seq::empty())
    } else {
        let (full, open) = dealt(opts, which.drop_last(), target);
        let next = which.last();
        if open.len() >= 2 && sequence::tokens_in(opts, open) + opts[next as int].len() > target {
            (full.push(open), seq![next])
        } else {
            (full, open.push(next))
        }
    }
}

/// How many batches options of `total` tokens need within `limit`, and the tokens of each when
/// they are even.
pub open spec fn even_share(total: nat, limit: nat) -> int {
    let n = sequence::larger(ceil_div(total as int, sequence::larger(limit as int, 1)), 1);
    ceil_div(total as int, n)
}

/// The options `which` in consecutive batches of even size; a lone option at the end joins the
/// batch before it.
pub open spec fn evenly(opts: Seq<Seq<u32>>, which: Seq<usize>, limit: nat) -> Seq<Seq<usize>> {
    let target = even_share(sequence::tokens_in(opts, which), limit);
    let (full, open) = dealt(opts, which, target);
    if open.len() < 2 && full.len() > 0 {
        full.update(full.len() - 1, full.last() + open)
    } else {
        full.push(open)
    }
}

/// Whether no batch takes more than `limit` tokens.
pub open spec fn within(opts: Seq<Seq<u32>>, bs: Seq<Seq<usize>>, limit: nat) -> bool {
    forall|i: int| 0 <= i < bs.len() ==> sequence::tokens_in(opts, #[trigger] bs[i]) <= limit
}

/// Whether `bs` are the options `which` in consecutive batches of two or more options, none of
/// which takes more than `limit` tokens.
pub open spec fn is_split(
    opts: Seq<Seq<u32>>,
    which: Seq<usize>,
    limit: nat,
    bs: Seq<Seq<usize>>,
) -> bool {
    &&& concat(bs) == which
    &&& forall|i: int| 0 <= i < bs.len() ==> (#[trigger] bs[i]).len() >= 2
    &&& within(opts, bs, limit)
}

/// Where the last batch begins, at `a` or later: the first place with at least two options from it
/// on that take no more than `limit` tokens, and before it what can be split that way too.
pub open spec fn break_from(
    opts: Seq<Seq<u32>>,
    which: Seq<usize>,
    limit: nat,
    a: nat,
) -> Option<nat>
    decreases which.len(), which.len() - a,
{
    if a + 2 > which.len() {
        None
    } else if sequence::tokens_in(opts, which.skip(a as int)) <= limit && splits(
        opts,
        which.take(a as int),
        limit,
    ) {
        Some(a)
    } else {
        break_from(opts, which, limit, a + 1)
    }
}

/// Whether the options `which` can be split so that no batch takes more than `limit` tokens.
pub open spec fn splits(opts: Seq<Seq<u32>>, which: Seq<usize>, limit: nat) -> bool
    decreases which.len(), which.len() + 1,
{
    which.len() == 0 || break_from(opts, which, limit, 0) is Some
}

/// The options `which` split so that no batch takes more than `limit` tokens, with as many options
/// in the last batch as can be, then in the one before it, and so on.
pub open spec fn tightly(opts: Seq<Seq<u32>>, which: Seq<usize>, limit: nat) -> Seq<Seq<usize>>
    decreases which.len(),
{
    if which.len() == 0 {
        Seq::empty()
    } else {
        match break_from(opts, which, limit, 0) {
            Some(a) => if a < which.len() {
                tightly(opts, which.take(a as int), limit).push(which.skip(a as int))
            } else {
                Seq::empty()
            },
            None => Seq::empty(),
        }
    }
}

/// The options `which` in consecutive batches: of even size when that keeps each within `limit`
/// tokens, else in any way that does, else of even size all the same.
pub open spec fn packed(opts: Seq<Seq<u32>>, which: Seq<usize>, limit: nat) -> Seq<Seq<usize>> {
    let even = evenly(opts, which, limit);
    if !within(opts, even, limit) && splits(opts, which, limit) {
        tightly(opts, which, limit)
    } else {
        even
    }
}

/// The place that is found is one.
proof fn lemma_break_from(opts: Seq<Seq<u32>>, which: Seq<usize>, limit: nat, a: nat)
    ensures
        break_from(opts, which, limit, a) matches Some(b) ==> {
            &&& a <= b
            &&& b + 2 <= which.len()
            &&& sequence::tokens_in(opts, which.skip(b as int)) <= limit
            &&& splits(opts, which.take(b as int), limit)
        },
    decreases which.len() - a,
{
    if a + 2 <= which.len() {
        lemma_break_from(opts, which, limit, a + 1);
    }
}

/// A place is found when there is one.
proof fn lemma_break_is_found(opts: Seq<Seq<u32>>, which: Seq<usize>, limit: nat, a: nat, b: nat)
    requires
        a <= b,
        b + 2 <= which.len(),
        sequence::tokens_in(opts, which.skip(b as int)) <= limit,
        splits(opts, which.take(b as int), limit),
    ensures
        break_from(opts, which, limit, a) is Some,
    decreases b - a,
{
    if a < b {
        lemma_break_is_found(opts, which, limit, a + 1, b);
    }
}

/// Options that can be split are.
proof fn lemma_tightly(opts: Seq<Seq<u32>>, which: Seq<usize>, limit: nat)
    requires
        splits(opts, which, limit),
    ensures
        is_split(opts, which, limit, tightly(opts, which, limit)),
        which.len() > 0 ==> tightly(opts, which, limit).len() >= 1,
    decreases which.len(),
{
    if which.len() > 0 {
        lemma_break_from(opts, which, limit, 0);
        let a = break_from(opts, which, limit, 0)->0;
        let front = which.take(a as int);
        lemma_tightly(opts, front, limit);
        lemma_concat_push(tightly(opts, front, limit), which.skip(a as int));
        assert(front + which.skip(a as int) =~= which);
    } else {
        assert(concat(Seq::<Seq<usize>>::empty()) =~= which);
    }
}

/// Options of which there is a split can be split.
proof fn lemma_splits(opts: Seq<Seq<u32>>, which: Seq<usize>, limit: nat, bs: Seq<Seq<usize>>)
    requires
        is_split(opts, which, limit, bs),
    ensures
        splits(opts, which, limit),
    decreases bs.len(),
{
    if bs.len() > 0 {
        let front = bs.drop_last();
        let a = concat(front).len();
        assert(which.take(a as int) =~= concat(front));
        assert(which.skip(a as int) =~= bs.last());
        assert forall|i: int| 0 <= i < front.len() implies (#[trigger] front[i]).len() >= 2
            && sequence::tokens_in(opts, front[i]) <= limit by {
            assert(front[i] == bs[i]);
        }
        lemma_splits(opts, concat(front), limit, front);
        lemma_break_is_found(opts, which, limit, 0, a);
    }
}

proof fn lemma_concat_push(v: Seq<Seq<usize>>, b: Seq<usize>)
    ensures
        concat(v.push(b)) == concat(v) + b,
{
    assert(v.push(b).drop_last() =~= v);
}

proof fn lemma_dealt(opts: Seq<Seq<u32>>, which: Seq<usize>, target: int)
    ensures
        ({
            let (full, open) = dealt(opts, which, target);
            &&& concat(full) + open == which
            &&& which.len() > 0 ==> open.len() > 0
            &&& which.len() >= 2 && full.len() == 0 ==> open.len() >= 2
            &&& forall|i: int| 0 <= i < full.len() ==> (#[trigger] full[i]).len() >= 2
        }),
    decreases which.len(),
{
    if which.len() > 0 {
        lemma_dealt(opts, which.drop_last(), target);
        let (full, open) = dealt(opts, which.drop_last(), target);
        let next = which.last();
        assert(which.drop_last().push(next) =~= which);
        assert(concat(full) + open.push(next) =~= (concat(full) + open).push(next));
        if open.len() >= 2 && sequence::tokens_in(opts, open) + opts[next as int].len() > target {
            lemma_concat_push(full, open);
            assert(concat(full) + open + seq![next] =~= which);
        } else {
            assert(concat(full) + open.push(next) =~= which);
            assert(open.push(next).drop_last() =~= open);
        }
    } else {
        assert(concat(Seq::empty()) + Seq::empty() =~= which);
    }
}

proof fn lemma_evenly(opts: Seq<Seq<u32>>, which: Seq<usize>, limit: nat)
    ensures
        concat(evenly(opts, which, limit)) == which,
        which.len() >= 2 ==> forall|i: int|
            0 <= i < evenly(opts, which, limit).len() ==> (#[trigger] evenly(
                opts,
                which,
                limit,
            )[i]).len() >= 2,
        evenly(opts, which, limit).len() >= 1,
{
    let target = even_share(sequence::tokens_in(opts, which), limit);
    lemma_dealt(opts, which, target);
    let (full, open) = dealt(opts, which, target);
    let p = evenly(opts, which, limit);
    if open.len() < 2 && full.len() > 0 {
        assert(p.drop_last() =~= full.drop_last());
        assert(concat(p) =~= which);
    } else {
        lemma_concat_push(full, open);
    }
}

/// Packing keeps the order of the options and leaves none alone.
pub proof fn lemma_packing_keeps_order_and_pairs(
    opts: Seq<Seq<u32>>,
    which: Seq<usize>,
    limit: nat,
)
    ensures
        concat(packed(opts, which, limit)) == which,
        which.len() >= 2 ==> forall|i: int|
            0 <= i < packed(opts, which, limit).len() ==> (#[trigger] packed(
                opts,
                which,
                limit,
            )[i]).len() >= 2,
        packed(opts, which, limit).len() >= 1,
{
    lemma_evenly(opts, which, limit);
    let even = evenly(opts, which, limit);
    if !within(opts, even, limit) && splits(opts, which, limit) {
        lemma_tightly(opts, which, limit);
        if which.len() == 0 {
            assert forall|i: int| 0 <= i < even.len() implies sequence::tokens_in(
                opts,
                #[trigger] even[i],
            ) <= limit by {
                lemma_concat_len(even, i);
            }
        }
    }
}

/// A batch is no longer than all of them.
proof fn lemma_concat_len(bs: Seq<Seq<usize>>, i: int)
    requires
        0 <= i < bs.len(),
    ensures
        bs[i].len() <= concat(bs).len(),
    decreases bs.len(),
{
    if i < bs.len() - 1 {
        lemma_concat_len(bs.drop_last(), i);
        assert(bs.drop_last()[i] == bs[i]);
    }
}

/// Packing keeps the limit where that is possible: when the options can be split at all into
/// consecutive batches of two or more, none of which takes more than `limit` tokens, no batch does.
pub proof fn lemma_packing_keeps_the_limit(
    opts: Seq<Seq<u32>>,
    which: Seq<usize>,
    limit: nat,
    split: Seq<Seq<usize>>,
)
    requires
        is_split(opts, which, limit, split),
    ensures
        within(opts, packed(opts, which, limit), limit),
{
    lemma_splits(opts, which, limit, split);
    lemma_tightly(opts, which, limit);
}

/// The tokens of the options `which`.
pub fn option_tokens(parts: &QuestionParts, which: &[usize]) -> (n: usize)
    requires
        sequence::names_options(parts@.opts, which@),
        sequence::tokens_in(parts@.opts, which@) <= usize::MAX,
    ensures
        n == sequence::tokens_in(parts@.opts, which@),
{
    sum_tokens(parts, which)
}

/// Adds a batch at the end.
fn push_batch(v: &mut Vec<Vec<usize>>, b: Vec<usize>)
    ensures
        batches(final(v)@) == batches(old(v)@).push(b@),
{
    let ghost before = batches(v@);
    let ghost last = b@;
    v.push(b);
    proof {
        assert(batches(v@) =~= before.push(last));
    }
}

/// Splits `which` into consecutive batches of even token size.
fn pack_evenly(parts: &QuestionParts, which: &[usize], limit: usize) -> (r: Vec<Vec<usize>>)
    requires
        sequence::names_options(parts@.opts, which@),
        sequence::tokens_in(parts@.opts, which@) <= usize::MAX,
    ensures
        batches(r@) == evenly(parts@.opts, which@, limit as nat),
{
    let ghost opts = parts@.opts;
    let total: usize = option_tokens(parts, which);
    let most: usize = if limit >= 1 {
        limit
    } else {
        1
    };
    let n0: usize = div_up(total, most);
    let n: usize = if n0 >= 1 {
        n0
    } else {
        1
    };
    let target: usize = div_up(total, n);
    let mut out: Vec<Vec<usize>> = Vec::new();
    let mut cur: Vec<usize> = Vec::new();
    let mut size: usize = 0;
    let mut i: usize = 0;
    proof {
        assert(which@.take(0) =~= Seq::empty());
        assert(batches(out@) =~= Seq::empty());
        assert(cur@ =~= Seq::empty());
    }
    while i < which.len()
        invariant
            i <= which@.len(),
            opts == parts@.opts,
            sequence::names_options(opts, which@),
            sequence::tokens_in(opts, which@) <= usize::MAX,
            target == even_share(sequence::tokens_in(opts, which@), limit as nat),
            (batches(out@), cur@) == dealt(opts, which@.take(i as int), target as int),
            size == sequence::tokens_in(opts, cur@),
            size <= sequence::tokens_in(opts, which@.take(i as int)),
        decreases which@.len() - i,
    {
        let o: usize = which[i];
        proof {
            assert(which@[i as int] < opts.len());
            assert(which@.take(i + 1).drop_last() =~= which@.take(i as int));
            sequence::lemma_tokens_in_take(opts, which@, i + 1);
        }
        let len: usize = parts.opts[o].len();
        if cur.len() >= 2 && size + len > target {
            let full = cur;
            cur = Vec::new();
            push_batch(&mut out, full);
            size = 0;
            proof {
                assert(sequence::tokens_in(opts, cur@) == 0);
            }
        }
        let ghost open = cur@;
        cur.push(o);
        size += len;
        proof {
            assert(cur@.drop_last() =~= open);
            assert(cur@ =~= open.push(o));
            assert(Seq::<usize>::empty().push(o) =~= seq![o]);
        }
        i += 1;
    }
    proof {
        assert(which@.take(i as int) =~= which@);
    }
    if cur.len() < 2 && out.len() > 0 {
        let ghost full = batches(out@);
        match out.pop() {
            Some(mut last) => {
                let ghost end = last@;
                last.extend_from_slice(cur.as_slice());
                proof {
                    assert(last@ =~= full.last() + cur@);
                    assert(batches(out@) =~= full.drop_last());
                    assert(full.drop_last().push(last@) =~= full.update(full.len() - 1, last@));
                }
                push_batch(&mut out, last);
            },
            None => {},
        }
        return out;
    }
    push_batch(&mut out, cur);
    out
}

/// A batch takes no more tokens than all of them, and names options as they do.
proof fn lemma_one_of_all(opts: Seq<Seq<u32>>, bs: Seq<Seq<usize>>, i: int)
    requires
        0 <= i < bs.len(),
        sequence::names_options(opts, concat(bs)),
    ensures
        sequence::tokens_in(opts, bs[i]) <= sequence::tokens_in(opts, concat(bs)),
        sequence::names_options(opts, bs[i]),
    decreases bs.len(),
{
    let front = bs.drop_last();
    let all = concat(bs);
    tournament::lemma_tokens_in_add(opts, concat(front), bs.last());
    assert forall|k: int| 0 <= k < concat(front).len() implies (#[trigger] concat(front)[k])
        < opts.len() by {
        assert(all[k] == concat(front)[k]);
    }
    assert forall|k: int| 0 <= k < bs.last().len() implies (#[trigger] bs.last()[k])
        < opts.len() by {
        assert(all[concat(front).len() + k] == bs.last()[k]);
    }
    if i < bs.len() - 1 {
        lemma_one_of_all(opts, front, i);
        assert(front[i] == bs[i]);
    }
}

/// Whether no batch takes more than `limit` tokens.
fn all_within(parts: &QuestionParts, bs: &Vec<Vec<usize>>, limit: usize) -> (r: bool)
    requires
        sequence::names_options(parts@.opts, concat(batches(bs@))),
        sequence::tokens_in(parts@.opts, concat(batches(bs@))) <= usize::MAX,
    ensures
        r == within(parts@.opts, batches(bs@), limit as nat),
{
    let ghost all = batches(bs@);
    let mut i: usize = 0;
    while i < bs.len()
        invariant
            i <= bs@.len(),
            all == batches(bs@),
            sequence::names_options(parts@.opts, concat(all)),
            sequence::tokens_in(parts@.opts, concat(all)) <= usize::MAX,
            forall|k: int|
                0 <= k < i ==> sequence::tokens_in(parts@.opts, #[trigger] all[k]) <= limit,
        decreases bs@.len() - i,
    {
        proof {
            lemma_one_of_all(parts@.opts, all, i as int);
        }
        assert(all[i as int] == bs@[i as int]@);
        if option_tokens(parts, bs[i].as_slice()) > limit {
            return false;
        }
        i += 1;
    }
    true
}

/// Whether `b` is where the last batch begins of the first `n` options.
pub open spec fn is_break(
    opts: Seq<Seq<u32>>,
    which: Seq<usize>,
    limit: nat,
    n: int,
    b: Option<usize>,
) -> bool {
    match b {
        Some(b) => break_from(opts, which.take(n), limit, 0) == Some(b as nat),
        None => break_from(opts, which.take(n), limit, 0) is None,
    }
}

/// Where the last batch begins of each run of first options, when no batch takes more than `limit`
/// tokens.
fn find_breaks(parts: &QuestionParts, which: &[usize], limit: usize) -> (r: Vec<Option<usize>>)
    requires
        sequence::names_options(parts@.opts, which@),
        sequence::tokens_in(parts@.opts, which@) <= usize::MAX,
    ensures
        r@.len() == which@.len() + 1,
        forall|n: int| 0 <= n < r@.len() ==> is_break(
            parts@.opts,
            which@,
            limit as nat,
            n,
            #[trigger] r@[n],
        ),
{
    let ghost opts = parts@.opts;
    let mut sums: Vec<usize> = Vec::new();
    sums.push(0);
    let mut i: usize = 0;
    proof {
        assert(which@.take(0) =~= Seq::empty());
    }
    while i < which.len()
        invariant
            i <= which@.len(),
            opts == parts@.opts,
            sequence::names_options(opts, which@),
            sequence::tokens_in(opts, which@) <= usize::MAX,
            sums@.len() == i + 1,
            forall|k: int|
                0 <= k <= i ==> (#[trigger] sums@[k]) == sequence::tokens_in(opts, which@.take(k)),
        decreases which@.len() - i,
    {
        let o: usize = which[i];
        proof {
            assert(which@[i as int] < opts.len());
            assert(which@.take(i + 1).drop_last() =~= which@.take(i as int));
            sequence::lemma_tokens_in_take(opts, which@, i + 1);
        }
        let len: usize = parts.opts[o].len();
        let before: usize = sums[i];
        sums.push(before + len);
        i += 1;
    }
    let mut r: Vec<Option<usize>> = Vec::new();
    let mut n: usize = 0;
    while n < sums.len()
        invariant
            n <= sums@.len(),
            sums@.len() == which@.len() + 1,
            opts == parts@.opts,
            forall|k: int|
                0 <= k <= which@.len() ==> (#[trigger] sums@[k]) == sequence::tokens_in(
                    opts,
                    which@.take(k),
                ),
            r@.len() == n,
            forall|k: int| 0 <= k < n ==> is_break(opts, which@, limit as nat, k, #[trigger] r@[k]),
        decreases sums@.len() - n,
    {
        let ghost part = which@.take(n as int);
        let mut a: usize = 0;
        let mut found: Option<usize> = None;
        while found.is_none() && a < n && n - a >= 2
            invariant
                a <= n < sums@.len(),
                sums@.len() == which@.len() + 1,
                opts == parts@.opts,
                part == which@.take(n as int),
                forall|k: int|
                    0 <= k <= which@.len() ==> (#[trigger] sums@[k]) == sequence::tokens_in(
                        opts,
                        which@.take(k),
                    ),
                r@.len() == n,
                forall|k: int|
                    0 <= k < n ==> is_break(opts, which@, limit as nat, k, #[trigger] r@[k]),
                found is None ==> break_from(opts, part, limit as nat, 0) == break_from(
                    opts,
                    part,
                    limit as nat,
                    a as nat,
                ),
                found matches Some(b) ==> break_from(opts, part, limit as nat, 0) == Some(b as nat),
            decreases n - a, (if found is None { 1int } else { 0 }),
        {
            proof {
                assert(part.take(a as int) =~= which@.take(a as int));
                assert(part.take(a as int) + part.skip(a as int) =~= part);
                tournament::lemma_tokens_in_add(opts, part.take(a as int), part.skip(a as int));
                assert(sums@[n as int] >= sums@[a as int]);
                assert(is_break(opts, which@, limit as nat, a as int, r@[a as int]));
                assert(sums@[n as int] - sums@[a as int] == sequence::tokens_in(
                    opts,
                    part.skip(a as int),
                ));
                assert(splits(opts, part.take(a as int), limit as nat) == (a == 0
                    || r@[a as int] is Some));
            }
            if sums[n] - sums[a] <= limit && (a == 0 || r[a].is_some()) {
                found = Some(a);
            } else {
                a += 1;
            }
        }
        r.push(found);
        n += 1;
    }
    r
}

/// Splits `which` so that no batch takes more than `limit` tokens; `None` when that cannot be.
fn pack_tightly(parts: &QuestionParts, which: &[usize], limit: usize) -> (r: Option<Vec<Vec<usize>>>)
    requires
        sequence::names_options(parts@.opts, which@),
        sequence::tokens_in(parts@.opts, which@) <= usize::MAX,
    ensures
        match r {
            Some(v) => splits(parts@.opts, which@, limit as nat) && batches(v@) == tightly(
                parts@.opts,
                which@,
                limit as nat,
            ),
            None => !splits(parts@.opts, which@, limit as nat),
        },
{
    let ghost opts = parts@.opts;
    let breaks = find_breaks(parts, which, limit);
    let mut n: usize = which.len();
    proof {
        assert(which@.take(n as int) =~= which@);
        assert(is_break(opts, which@, limit as nat, n as int, breaks@[n as int]));
    }
    if n > 0 && breaks[n].is_none() {
        return None;
    }
    let ghost whole = tightly(opts, which@, limit as nat);
    let mut back: Vec<Vec<usize>> = Vec::new();
    proof {
        assert(whole + batches(back@).reverse() =~= whole);
    }
    while n > 0
        invariant
            n <= which@.len(),
            opts == parts@.opts,
            breaks@.len() == which@.len() + 1,
            forall|k: int|
                0 <= k < breaks@.len() ==> is_break(
                    opts,
                    which@,
                    limit as nat,
                    k,
                    #[trigger] breaks@[k],
                ),
            splits(opts, which@.take(n as int), limit as nat),
            whole == tightly(opts, which@.take(n as int), limit as nat) + batches(back@).reverse(),
        decreases n,
    {
        let ghost part = which@.take(n as int);
        proof {
            assert(is_break(opts, which@, limit as nat, n as int, breaks@[n as int]));
            lemma_break_from(opts, part, limit as nat, 0);
        }
        let a: usize = match breaks[n] {
            Some(a) => a,
            None => 0,
        };
        let mut b: Vec<usize> = Vec::new();
        let mut i: usize = a;
        while i < n
            invariant
                a <= i <= n <= which@.len(),
                b@ == which@.subrange(a as int, i as int),
            decreases n - i,
        {
            b.push(which[i]);
            i += 1;
            proof {
                assert(which@.subrange(a as int, i as int).drop_last() =~= which@.subrange(
                    a as int,
                    i - 1,
                ));
            }
        }
        let ghost before = batches(back@);
        proof {
            assert(b@ =~= part.skip(a as int));
            assert(part.take(a as int) =~= which@.take(a as int));
        }
        let ghost last = b@;
        push_batch(&mut back, b);
        proof {
            let front = tightly(opts, which@.take(a as int), limit as nat);
            assert(front.push(last) + before.reverse() =~= front + before.push(last).reverse());
        }
        n = a;
    }
    let mut out: Vec<Vec<usize>> = Vec::new();
    proof {
        assert(which@.take(0).len() == 0);
        assert(batches(out@) + batches(back@).reverse() =~= whole);
    }
    while back.len() > 0
        invariant
            batches(out@) + batches(back@).reverse() == whole,
        decreases back@.len(),
    {
        let ghost left = batches(back@);
        let ghost front = batches(out@);
        match back.pop() {
            Some(b) => {
                let ghost next = b@;
                push_batch(&mut out, b);
                proof {
                    assert(batches(back@) =~= left.drop_last());
                    assert(next == left.last());
                    assert(front.push(next) + left.drop_last().reverse() =~= front
                        + left.reverse());
                }
            },
            None => {},
        }
    }
    proof {
        assert(batches(out@) =~= whole);
    }
    Some(out)
}

/// Splits `which` into consecutive batches of even token size, each within `limit` where
/// possible and never a lone option.
pub fn pack(parts: &QuestionParts, which: &[usize], limit: usize) -> (r: Vec<Vec<usize>>)
    requires
        sequence::names_options(parts@.opts, which@),
        sequence::tokens_in(parts@.opts, which@) <= usize::MAX,
    ensures
        batches(r@) == packed(parts@.opts, which@, limit as nat),
        (exists|split: Seq<Seq<usize>>|
            #[trigger] is_split(parts@.opts, which@, limit as nat, split)) ==> within(
            parts@.opts,
            batches(r@),
            limit as nat,
        ),
{
    let ghost opts = parts@.opts;
    proof {
        lemma_evenly(opts, which@, limit as nat);
        assert forall|split: Seq<Seq<usize>>|
            #[trigger] is_split(opts, which@, limit as nat, split) implies within(
            opts,
            packed(opts, which@, limit as nat),
            limit as nat,
        ) by {
            lemma_packing_keeps_the_limit(opts, which@, limit as nat, split);
        }
    }
    let even = pack_evenly(parts, which, limit);
    if !all_within(parts, &even, limit) {
        match pack_tightly(parts, which, limit) {
            Some(r) => {
                return r;
            },
            None => {},
        }
    }
    even
}

/// Option tokens a row may take before batching: the question budget less the head, but at
/// least half of it so long instructions don't shrink batches to pairs.
pub open spec fn option_room(head: nat, option_budget: nat) -> int {
    sequence::larger(option_budget - head, option_budget as int / 2)
}

/// Option tokens a row may take before batching.
pub fn option_limit(parts: &QuestionParts, budget: &Budget) -> (n: usize)
    ensures
        n == option_room(parts@.head.len(), budget.option_budget as nat),
{
    let left: usize = budget.option_budget.saturating_sub(parts.head.len());
    let half: usize = budget.option_budget / 2;
    if left >= half {
        left
    } else {
        half
    }
}

/// Option tokens that still fit one row of the trained length beside the least state.
pub open spec fn whole_room(head: nat, budget: Budget) -> int {
    sequence::larger(budget.max_len - head - 5 - budget.min_state, 0)
}

/// Round one of a question: all its options in one row, or a choice's in batches when they don't
/// fit one.
pub open spec fn first_batches(t: QType, p: PartsV, budget: Budget) -> Seq<Seq<usize>> {
    let all = indices(p.opts.len());
    let limit = option_room(p.head.len(), budget.option_budget as nat);
    if t != QType::Choice || p.opts.len() <= 2 || sequence::tokens_in(p.opts, all)
        <= sequence::larger(whole_room(p.head.len(), budget), limit) {
        seq![all]
    } else {
        packed(p.opts, all, limit as nat)
    }
}

/// The first `k` indices.
pub fn all_indices(k: usize) -> (r: Vec<usize>)
    ensures
        r@ == indices(k as nat),
{
    let mut r: Vec<usize> = Vec::new();
    let mut i: usize = 0;
    while i < k
        invariant
            i <= k,
            r@ == indices(i as nat),
        decreases k - i,
    {
        r.push(i);
        proof {
            assert(indices(i as nat).push(i) =~= indices((i + 1) as nat));
        }
        i += 1;
    }
    r
}

/// Round one: the whole question in one row, or a choice's options in batches that each fit the
/// option budget. Batches keep the request's option order and hold at least two options.
pub fn first_round(t: QType, parts: &QuestionParts, budget: &Budget) -> (r: Vec<Vec<usize>>)
    requires
        sequence::tokens_in(parts@.opts, indices(parts@.opts.len())) <= usize::MAX,
    ensures
        batches(r@) == first_batches(t, parts@, *budget),
{
    let k: usize = parts.opts.len();
    let all = all_indices(k);
    let whole: usize = budget.max_len.saturating_sub(parts.head.len()).saturating_sub(
        5,
    ).saturating_sub(budget.min_state);
    let limit: usize = option_limit(parts, budget);
    let most: usize = if whole >= limit {
        whole
    } else {
        limit
    };
    if t != QType::Choice || k <= 2 || option_tokens(parts, all.as_slice()) <= most {
        let mut r: Vec<Vec<usize>> = Vec::new();
        push_batch(&mut r, all);
        proof {
            assert(batches(r@) =~= seq![indices(k as nat)]);
        }
        return r;
    }
    pack(parts, all.as_slice(), limit)
}

// ---------------------------------------------------------------------------------------------
// Questions that are too long

/// Tokens kept at the start of instructions: the question's type and their first words.
pub const KEEP_START: usize = 8;

/// The tokens of the longest of several batches.
pub open spec fn longest(p: PartsV, bs: Seq<Seq<usize>>) -> nat
    decreases bs.len(),
{
    if bs.len() == 0 {
        0
    } else {
        let n = longest(p, bs.drop_last());
        if p.tokens(bs.last()) >= n {
            p.tokens(bs.last())
        } else {
            n
        }
    }
}

/// The longest of several batches, and the last such of equals.
pub open spec fn longest_at(p: PartsV, bs: Seq<Seq<usize>>) -> int
    decreases bs.len(),
{
    if bs.len() <= 1 {
        0
    } else {
        let k = longest_at(p, bs.drop_last());
        if p.tokens(bs.last()) >= p.tokens(bs[k]) {
            bs.len() - 1
        } else {
            k
        }
    }
}

/// The longest of the options `b` that has more than its mask token and one other, and the last
/// such of equals.
pub open spec fn longest_option(opts: Seq<Seq<u32>>, b: Seq<usize>) -> Option<usize>
    decreases b.len(),
{
    if b.len() == 0 {
        None
    } else {
        let o = b.last();
        match longest_option(opts, b.drop_last()) {
            None => if opts[o as int].len() > 2 {
                Some(o)
            } else {
                None
            },
            Some(k) => if opts[o as int].len() > 2 && opts[o as int].len() >= opts[k as int].len() {
                Some(o)
            } else {
                Some(k)
            },
        }
    }
}

/// A question with the last token of option `o` cut.
pub open spec fn without_last(p: PartsV, o: usize) -> PartsV {
    PartsV { head: p.head, opts: p.opts.update(o as int, p.opts[o as int].drop_last()) }
}

/// Changing one run changes the tokens of all by as much.
pub proof fn lemma_flat_update(opts: Seq<Seq<u32>>, i: int, s: Seq<u32>)
    requires
        0 <= i < opts.len(),
    ensures
        sequence::flat(opts.update(i, s)).len() + opts[i].len() == sequence::flat(opts).len()
            + s.len(),
    decreases opts.len(),
{
    let u = opts.update(i, s);
    if i == opts.len() - 1 {
        assert(u.drop_last() =~= opts.drop_last());
    } else {
        assert(u.drop_last() =~= opts.drop_last().update(i, s));
        lemma_flat_update(opts.drop_last(), i, s);
    }
}

/// A question with tokens cut from the ends of the longest options of its longest batch, one at
/// a time, until every batch fits `cap` or no option there can be cut.
pub open spec fn options_cut(p: PartsV, bs: Seq<Seq<usize>>, cap: nat) -> PartsV
    decreases sequence::flat(p.opts).len(),
{
    if longest(p, bs) <= cap {
        p
    } else {
        match longest_option(p.opts, bs[longest_at(p, bs)]) {
            Some(o) => if o < p.opts.len() && p.opts[o as int].len() > 0 {
                proof {
                    lemma_flat_update(p.opts, o as int, p.opts[o as int].drop_last());
                }
                options_cut(without_last(p, o), bs, cap)
            } else {
                p
            },
            None => p,
        }
    }
}

/// How many tokens the instructions lose: as many as a question is over `cap`, but the first and
/// the last ones are kept.
pub open spec fn head_cut(p: PartsV, bs: Seq<Seq<usize>>, cap: nat) -> int {
    let over = longest(p, bs) - cap;
    let spare = sequence::larger(p.head.len() - KEEP_START - 8, 0);
    if over <= 0 {
        0
    } else if over <= spare {
        over
    } else {
        spare
    }
}

/// A question cut to fit `cap` tokens: the middle of its instructions first, then its options.
pub open spec fn fitted(p: PartsV, bs: Seq<Seq<usize>>, cap: nat) -> PartsV {
    let n = head_cut(p, bs, cap);
    let head = if n > 0 {
        p.head.take(KEEP_START as int) + p.head.skip(KEEP_START + n)
    } else {
        p.head
    };
    options_cut(PartsV { head, opts: p.opts }, bs, cap)
}

/// Every batch names options.
pub open spec fn all_name_options(opts: Seq<Seq<u32>>, bs: Seq<Seq<usize>>) -> bool {
    forall|i: int| 0 <= i < bs.len() ==> sequence::names_options(opts, #[trigger] bs[i])
}

pub proof fn lemma_longest(p: PartsV, bs: Seq<Seq<usize>>)
    requires
        bs.len() > 0,
    ensures
        0 <= longest_at(p, bs) < bs.len(),
        longest(p, bs) == p.tokens(bs[longest_at(p, bs)]),
        forall|i: int| 0 <= i < bs.len() ==> p.tokens(#[trigger] bs[i]) <= longest(p, bs),
    decreases bs.len(),
{
    if bs.len() > 1 {
        lemma_longest(p, bs.drop_last());
        assert forall|i: int| 0 <= i < bs.len() implies p.tokens(#[trigger] bs[i]) <= longest(
            p,
            bs,
        ) by {
            if i < bs.len() - 1 {
                assert(bs.drop_last()[i] == bs[i]);
            }
        }
    } else {
        assert(longest(p, bs.drop_last()) == 0);
        assert(bs.last() == bs[0]);
    }
}

proof fn lemma_longest_option(opts: Seq<Seq<u32>>, b: Seq<usize>)
    requires
        sequence::names_options(opts, b),
    ensures
        match longest_option(opts, b) {
            Some(o) => o < opts.len() && opts[o as int].len() > 2 && b.contains(o) && forall|i: int|
                0 <= i < b.len() ==> opts[#[trigger] b[i] as int].len() <= opts[o as int].len(),
            None => forall|i: int| 0 <= i < b.len() ==> opts[#[trigger] b[i] as int].len() <= 2,
        },
    decreases b.len(),
{
    if b.len() > 0 {
        let c = b.drop_last();
        assert forall|i: int| 0 <= i < c.len() implies (#[trigger] c[i]) < opts.len() by {
            assert(c[i] == b[i]);
        }
        lemma_longest_option(opts, c);
        assert(b[b.len() - 1] == b.last());
        assert forall|i: int| 0 <= i < b.len() implies b[i] == b.last() || (i < c.len() && b[i]
            == c[i]) by {}
        match longest_option(opts, c) {
            Some(k) => {
                let i = choose|i: int| 0 <= i < c.len() && c[i] == k;
                assert(b[i] == k);
            },
            None => {},
        }
    }
}

/// Cutting tokens from options keeps their starts, at least two tokens of each, and the head.
proof fn lemma_options_cut(p: PartsV, bs: Seq<Seq<usize>>, cap: nat)
    requires
        all_name_options(p.opts, bs),
    ensures
        ({
            let r = options_cut(p, bs, cap);
            &&& r.head == p.head
            &&& r.opts.len() == p.opts.len()
            &&& forall|i: int|
                0 <= i < p.opts.len() ==> {
                    let was = p.opts[i];
                    let is = #[trigger] r.opts[i];
                    is.len() <= was.len() && is == was.take(is.len() as int) && (was.len() >= 2
                        ==> is.len() >= 2) && (was.len() < 2 ==> is == was)
                }
            &&& longest(r, bs) > cap && bs.len() > 0 ==> longest_option(
                r.opts,
                bs[longest_at(r, bs)],
            ) is None
            &&& sequence::flat(r.opts).len() <= sequence::flat(p.opts).len()
        }),
    decreases sequence::flat(p.opts).len(),
{
    if longest(p, bs) > cap && bs.len() > 0 {
        lemma_longest(p, bs);
        let b = bs[longest_at(p, bs)];
        lemma_longest_option(p.opts, b);
        match longest_option(p.opts, b) {
            Some(o) => {
                lemma_flat_update(p.opts, o as int, p.opts[o as int].drop_last());
                let q = without_last(p, o);
                assert(all_name_options(q.opts, bs)) by {
                    assert forall|i: int| 0 <= i < bs.len() implies sequence::names_options(
                        q.opts,
                        #[trigger] bs[i],
                    ) by {
                        assert(sequence::names_options(p.opts, bs[i]));
                    }
                }
                lemma_options_cut(q, bs, cap);
                let r = options_cut(p, bs, cap);
                assert forall|i: int| 0 <= i < p.opts.len() implies {
                    let was = p.opts[i];
                    let is = #[trigger] r.opts[i];
                    is.len() <= was.len() && is == was.take(is.len() as int) && (was.len() >= 2
                        ==> is.len() >= 2) && (was.len() < 2 ==> is == was)
                } by {
                    let mid = q.opts[i];
                    let is = r.opts[i];
                    assert(is == mid.take(is.len() as int));
                    assert(mid.take(is.len() as int) =~= p.opts[i].take(is.len() as int));
                }
            },
            None => {
                assert forall|i: int| 0 <= i < p.opts.len() implies p.opts[i] == (
                #[trigger] p.opts[i]).take(p.opts[i].len() as int) by {
                    assert(p.opts[i].take(p.opts[i].len() as int) =~= p.opts[i]);
                }
            },
        }
    } else {
        assert forall|i: int| 0 <= i < p.opts.len() implies p.opts[i] == (#[trigger] p.opts[i]).take(
            p.opts[i].len() as int,
        ) by {
            assert(p.opts[i].take(p.opts[i].len() as int) =~= p.opts[i]);
        }
    }
}

proof fn lemma_options_cut_len(p: PartsV, bs: Seq<Seq<usize>>, cap: nat)
    ensures
        options_cut(p, bs, cap).opts.len() == p.opts.len(),
    decreases sequence::flat(p.opts).len(),
{
    if longest(p, bs) > cap {
        match longest_option(p.opts, bs[longest_at(p, bs)]) {
            Some(o) => if o < p.opts.len() && p.opts[o as int].len() > 0 {
                lemma_flat_update(p.opts, o as int, p.opts[o as int].drop_last());
                lemma_options_cut_len(without_last(p, o), bs, cap);
            },
            None => {},
        }
    }
}

/// A question that is cut keeps all its options.
pub proof fn lemma_fitted_len(p: PartsV, bs: Seq<Seq<usize>>, cap: nat)
    ensures
        fitted(p, bs, cap).opts.len() == p.opts.len(),
{
    let n = head_cut(p, bs, cap);
    let head = if n > 0 {
        p.head.take(KEEP_START as int) + p.head.skip(KEEP_START + n)
    } else {
        p.head
    };
    lemma_options_cut_len(PartsV { head, opts: p.opts }, bs, cap);
}

/// A question that is cut keeps the start and the end of its instructions and the start of every
/// option, and every row of it fits, unless all that its longest row could still lose is already
/// cut.
pub proof fn lemma_fitting(p: PartsV, bs: Seq<Seq<usize>>, cap: nat)
    requires
        all_name_options(p.opts, bs),
        bs.len() > 0,
    ensures
        ({
            let r = fitted(p, bs, cap);
            &&& forall|i: int|
                0 <= i < p.opts.len() ==> (#[trigger] r.opts[i]).len() <= p.opts[i].len()
                    && r.opts[i] == p.opts[i].take(r.opts[i].len() as int) && (p.opts[i].len() >= 2
                    ==> r.opts[i].len() >= 2)
            &&& r.opts.len() == p.opts.len()
            &&& r.head.len() <= p.head.len()
            &&& r.head.len() < p.head.len() ==> {
                &&& r.head.take(8) == p.head.take(8)
                &&& r.head.len() >= 16
                &&& r.head.skip(8) == p.head.skip(8 + (p.head.len() - r.head.len()))
            }
            &&& r.head.len() == p.head.len() ==> r.head == p.head
            &&& longest(p, bs) <= cap ==> r == p
            &&& longest(r, bs) <= cap || (r.head.len() <= 16 && forall|i: int|
                0 <= i < bs[longest_at(r, bs)].len() ==> r.opts[#[trigger] bs[longest_at(
                    r,
                    bs,
                )][i] as int].len() <= 2)
        }),
{
    let n = head_cut(p, bs, cap);
    let head = if n > 0 {
        p.head.take(KEEP_START as int) + p.head.skip(KEEP_START + n)
    } else {
        p.head
    };
    let q = PartsV { head, opts: p.opts };
    lemma_options_cut(q, bs, cap);
    let r = fitted(p, bs, cap);
    lemma_longest(r, bs);
    lemma_longest(p, bs);
    if n > 0 {
        assert(r.head.take(8) =~= p.head.take(8));
        assert(r.head.skip(8) =~= p.head.skip(8 + n));
    }
    if longest(r, bs) > cap {
        assert(sequence::names_options(r.opts, bs[longest_at(r, bs)])) by {
            assert(sequence::names_options(p.opts, bs[longest_at(r, bs)]));
        }
        lemma_longest_option(r.opts, bs[longest_at(r, bs)]);
        if r.head.len() > 16 {
            // The head was not cut as far as it goes, so it was cut by all that was over.
            lemma_longest(q, bs);
            assert(n == longest(p, bs) - cap || n == 0);
            assert forall|i: int| 0 <= i < bs.len() implies q.tokens(#[trigger] bs[i]) <= cap by {
                assert(p.tokens(bs[i]) <= longest(p, bs));
            }
            assert(q.tokens(bs[longest_at(q, bs)]) <= cap);
        }
    }
}

/// Whether the tokens of every batch can be counted.
pub open spec fn countable(p: PartsV, bs: Seq<Seq<usize>>) -> bool {
    &&& all_name_options(p.opts, bs)
    &&& forall|i: int| 0 <= i < bs.len() ==> p.tokens(#[trigger] bs[i]) <= usize::MAX
}

/// The place of the longest batch and its tokens.
pub fn find_longest(parts: &QuestionParts, bs: &[Vec<usize>]) -> (r: (usize, usize))
    requires
        countable(parts@, batches(bs@)),
    ensures
        r.1 == longest(parts@, batches(bs@)),
        bs@.len() > 0 ==> r.0 == longest_at(parts@, batches(bs@)) && r.0 < bs@.len(),
{
    let ghost all = batches(bs@);
    let mut at: usize = 0;
    let mut most: usize = 0;
    let mut i: usize = 0;
    proof {
        assert(all.take(0) =~= Seq::empty());
    }
    while i < bs.len()
        invariant
            i <= bs@.len(),
            all == batches(bs@),
            countable(parts@, all),
            most == longest(parts@, all.take(i as int)),
            i > 0 ==> at == longest_at(parts@, all.take(i as int)) && at < i,
        decreases bs@.len() - i,
    {
        proof {
            assert(all[i as int] == bs@[i as int]@);
            assert(sequence::names_options(parts@.opts, all[i as int]));
            assert(all.take(i + 1).drop_last() =~= all.take(i as int));
            if i > 0 {
                lemma_longest(parts@, all.take(i as int));
            }
        }
        let n: usize = parts.len(bs[i].as_slice());
        if n >= most {
            at = i;
            most = n;
        }
        i += 1;
    }
    proof {
        assert(all.take(i as int) =~= all);
    }
    (at, most)
}

/// The longest option of a batch that can be cut.
fn find_longest_option(parts: &QuestionParts, b: &[usize]) -> (r: Option<usize>)
    requires
        sequence::names_options(parts@.opts, b@),
    ensures
        r == longest_option(parts@.opts, b@),
{
    let mut r: Option<usize> = None;
    let mut i: usize = 0;
    proof {
        assert(b@.take(0) =~= Seq::empty());
    }
    while i < b.len()
        invariant
            i <= b@.len(),
            sequence::names_options(parts@.opts, b@),
            r == longest_option(parts@.opts, b@.take(i as int)),
            r matches Some(k) ==> k < parts@.opts.len(),
        decreases b@.len() - i,
    {
        let o: usize = b[i];
        proof {
            assert(b@[i as int] < parts@.opts.len());
            assert(b@.take(i + 1).drop_last() =~= b@.take(i as int));
            assert(b@.take(i + 1).last() == o);
        }
        let len: usize = parts.opts[o].len();
        if len > 2 {
            match r {
                None => {
                    r = Some(o);
                },
                Some(k) => {
                    if len >= parts.opts[k].len() {
                        r = Some(o);
                    }
                },
            }
        }
        i += 1;
    }
    proof {
        assert(b@.take(i as int) =~= b@);
    }
    r
}

/// Cutting never makes a batch longer.
proof fn lemma_cut_counts(p: PartsV, q: PartsV, which: Seq<usize>)
    requires
        sequence::names_options(p.opts, which),
        p.opts.len() == q.opts.len(),
        forall|i: int| 0 <= i < p.opts.len() ==> (#[trigger] q.opts[i]).len() <= p.opts[i].len(),
    ensures
        sequence::tokens_in(q.opts, which) <= sequence::tokens_in(p.opts, which),
    decreases which.len(),
{
    if which.len() > 0 {
        let c = which.drop_last();
        assert forall|i: int| 0 <= i < c.len() implies (#[trigger] c[i]) < p.opts.len() by {
            assert(c[i] == which[i]);
        }
        lemma_cut_counts(p, q, c);
        assert(which[which.len() - 1] < p.opts.len());
        assert(q.opts[which.last() as int].len() <= p.opts[which.last() as int].len());
    }
}

/// Fewer tokens are still countable.
proof fn lemma_countable_shrinks(p: PartsV, q: PartsV, bs: Seq<Seq<usize>>)
    requires
        countable(p, bs),
        p.opts.len() == q.opts.len(),
        q.head.len() <= p.head.len(),
        forall|i: int| 0 <= i < p.opts.len() ==> (#[trigger] q.opts[i]).len() <= p.opts[i].len(),
    ensures
        countable(q, bs),
{
    assert forall|i: int| 0 <= i < bs.len() implies sequence::names_options(q.opts, #[trigger] bs[i])
        && q.tokens(bs[i]) <= usize::MAX by {
        assert(sequence::names_options(p.opts, bs[i]));
        assert(p.tokens(bs[i]) <= usize::MAX);
        lemma_cut_counts(p, q, bs[i]);
    }
}

/// Shrinks a question so its longest row fits `cap` tokens: instructions first (keeping their
/// start and end, where the actual question usually is), then options evenly. Returns what was
/// cut.
pub fn fit_question(parts: &mut QuestionParts, bs: &[Vec<usize>], cap: usize) -> (t: Truncation)
    requires
        countable(old(parts)@, batches(bs@)),
        sequence::flat(old(parts)@.opts).len() <= usize::MAX,
    ensures
        final(parts)@ == fitted(old(parts)@, batches(bs@), cap as nat),
        t.instructions == old(parts)@.head.len() - final(parts)@.head.len(),
        t.options == sequence::flat(old(parts)@.opts).len() - sequence::flat(
            final(parts)@.opts,
        ).len(),
        t.question_tokens == longest(old(parts)@, batches(bs@)),
        t.limit == cap,
{
    let ghost p = parts@;
    let ghost all = batches(bs@);
    let (_, size) = find_longest(parts, bs);
    let mut t = Truncation { instructions: 0, options: 0, question_tokens: size, limit: cap };
    if size <= cap {
        return t;
    }
    let over: usize = size - cap;
    let spare: usize = parts.head.len().saturating_sub(KEEP_START + 8);
    let cut: usize = if over <= spare {
        over
    } else {
        spare
    };
    if cut > 0 {
        let n: usize = parts.head.len();
        let mut head: Vec<u32> = Vec::new();
        head.extend_from_slice(&parts.head.as_slice()[0..KEEP_START]);
        head.extend_from_slice(&parts.head.as_slice()[KEEP_START + cut..n]);
        proof {
            assert(head@ =~= p.head.take(KEEP_START as int) + p.head.skip(KEEP_START + cut));
        }
        parts.head = head;
        t.instructions = cut;
    }
    let ghost q = parts@;
    proof {
        assert(q.opts =~= p.opts);
        lemma_countable_shrinks(p, q, all);
        if bs@.len() > 0 {
            lemma_longest(p, all);
        }
    }
    let (mut at, mut most) = find_longest(parts, bs);
    while most > cap
        invariant
            all == batches(bs@),
            countable(parts@, all),
            all.len() > 0,
            most == longest(parts@, all),
            at == longest_at(parts@, all),
            at < bs@.len(),
            options_cut(parts@, all, cap as nat) == options_cut(q, all, cap as nat),
            t.options + sequence::flat(parts@.opts).len() == sequence::flat(p.opts).len(),
            sequence::flat(p.opts).len() <= usize::MAX,
            parts@.head == q.head,
            p == old(parts)@,
            q.head.len() == p.head.len() - cut,
            fitted(p, all, cap as nat) == options_cut(q, all, cap as nat),
            size == longest(p, all),
            t.instructions == cut,
            t.question_tokens == size,
            t.limit == cap,
        decreases sequence::flat(parts@.opts).len(),
    {
        let ghost now = parts@;
        proof {
            assert(all[at as int] == bs@[at as int]@);
            assert(sequence::names_options(now.opts, all[at as int]));
            lemma_longest_option(now.opts, all[at as int]);
        }
        match find_longest_option(parts, bs[at].as_slice()) {
            Some(o) => {
                proof {
                    lemma_flat_update(now.opts, o as int, now.opts[o as int].drop_last());
                }
                let _ = parts.opts[o].pop();
                proof {
                    assert(parts@.opts =~= without_last(now, o).opts);
                    assert(parts@ == without_last(now, o));
                    lemma_countable_shrinks(now, parts@, all);
                    lemma_longest(parts@, all);
                }
                t.options += 1;
                let (a, m) = find_longest(parts, bs);
                at = a;
                most = m;
            },
            None => {
                return t;
            },
        }
    }
    t
}

// ---------------------------------------------------------------------------------------------
// First rounds

/// The first round asks of every option once, in order; a question that is no choice, that has two
/// options or fewer, or whose options fit together is asked in one batch, and no batch of another
/// has a single option.
pub proof fn lemma_first_rounds_ask_of_every_option(t: QType, p: PartsV, budget: Budget, i: int)
    ensures
        ({
            let bs = first_batches(t, p, budget);
            let n = p.opts.len();
            let all = sequence::tokens_in(p.opts, indices(n));
            &&& concat(bs) == indices(n)
            &&& t != QType::Choice || n <= 2 ==> bs == seq![indices(n)]
            &&& all <= budget.max_len - p.head.len() - 5 - budget.min_state ==> bs == seq![
                indices(n),
            ]
            &&& all <= budget.option_budget - p.head.len() ==> bs == seq![indices(n)]
            &&& n > 2 && 0 <= i < bs.len() ==> bs[i].len() >= 2
        }),
{
    let n = p.opts.len();
    let bs = first_batches(t, p, budget);
    let limit = option_room(p.head.len(), budget.option_budget as nat);
    let all = indices(n);
    if bs == seq![all] {
        assert(seq![all].drop_last() =~= Seq::empty());
        assert(concat(Seq::<Seq<usize>>::empty()) =~= Seq::empty());
        assert(concat(bs) =~= all);
    } else {
        lemma_packing_keeps_order_and_pairs(p.opts, all, limit as nat);
    }
}

/// What is cut first is an option that is the longest of its batch and more than its mask token and
/// one other, the last of those; nothing is when no option is that long.
pub proof fn lemma_the_longest_option_is_cut(opts: Seq<Seq<u32>>, b: Seq<usize>, i: int)
    requires
        0 <= i < b.len(),
    ensures
        match longest_option(opts, b) {
            None => opts[b[i] as int].len() <= 2,
            Some(o) => {
                &&& opts[o as int].len() > 2
                &&& opts[b[i] as int].len() <= opts[o as int].len()
                &&& exists|k: int|
                    0 <= k < b.len() && #[trigger] b[k] == o && (i > k ==> opts[b[i] as int].len()
                        < opts[o as int].len())
            },
        },
    decreases b.len(),
{
    let less = b.drop_last();
    let last = b.len() - 1;
    if less.len() > 0 {
        let at = if i < last {
            i
        } else {
            0
        };
        lemma_the_longest_option_is_cut(opts, less, at);
        if let Some(o) = longest_option(opts, less) {
            let k = choose|k: int|
                0 <= k < less.len() && #[trigger] less[k] == o && (at > k ==> opts[less[at] as int].len()
                    < opts[o as int].len());
            assert(b[k] == o);
            assert(b[at] == less[at]);
        }
    }
    assert(b[last] == b.last());
}

/// Options have the room that the head leaves them, but at least half of their budget.
pub proof fn lemma_options_have_half_their_budget(head: nat, option_budget: nat)
    ensures
        option_room(head, option_budget) >= option_budget - head,
        2 * option_room(head, option_budget) >= option_budget - 1,
        2 * head <= option_budget ==> option_room(head, option_budget) == option_budget - head,
        2 * head >= option_budget + 1 ==> option_room(head, option_budget) == option_budget / 2,
{
}

/// An even share is no larger than the limit, and as many shares as are needed at that limit hold
/// all.
pub proof fn lemma_even_shares_keep_the_limit(total: nat, limit: nat)
    requires
        limit >= 1,
        total >= 1,
    ensures
        ({
            let n = ceil_div(total as int, limit as int);
            let share = even_share(total, limit);
            &&& 1 <= share <= limit
            &&& share * n >= total
            &&& (share - 1) * n < total
        }),
{
    let t = total as int;
    let l = limit as int;
    lemma_ceil_div(t, l);
    let n = ceil_div(t, l);
    lemma_ceil_div(t, n);
    let share = even_share(total, limit);
    assert(share == ceil_div(t, n));
    assert(share <= l) by (nonlinear_arith)
        requires
            (share - 1) * n < t,
            n * l >= t,
            n >= 1,
    ;
}

/// Chunks share as many tokens as they are to, but at most half of a chunk.
pub proof fn lemma_chunks_share_at_most_half(room: nat, overlap: nat)
    requires
        room >= 1,
    ensures
        2 * shared_tokens(room, overlap) <= room,
        2 * overlap <= room ==> shared_tokens(room, overlap) == overlap,
        2 * overlap > room ==> shared_tokens(room, overlap) == room as int / 2,
{
}

} // verus!
