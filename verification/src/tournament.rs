//! Rounds of a choice whose options ran in batches: who advances, and where each option ends up.
//!
//! Each batch's leader advances, then runners-up rank by rank while they still fit one row. An
//! option that was eliminated is placed relative to a leader of its batch, which has a place of
//! its own: the odds between two options don't depend on what else is on the list.

use vstd::prelude::*;

use crate::float::{self, before};
use crate::pipeline::{self, option_limit, option_tokens, pack, Budget};
use crate::sequence::{self, PartsV, QuestionParts};

verus! {

// ---------------------------------------------------------------------------------------------
// Ranking a batch

/// `order` with `j` put in behind everything whose key is not below its own.
pub open spec fn inserted(order: Seq<int>, j: int, keys: Seq<int>) -> Seq<int>
    decreases order.len(),
{
    if order.len() == 0 || keys[order.last()] >= keys[j] {
        order.push(j)
    } else {
        inserted(order.drop_last(), j, keys).push(order.last())
    }
}

/// The first `n` places in the order of their keys, highest first, and of equal keys in the order
/// they stand.
pub open spec fn ranking(keys: Seq<int>, n: nat) -> Seq<int>
    decreases n,
{
    if n == 0 {
        Seq::empty()
    } else {
        inserted(ranking(keys, (n - 1) as nat), n - 1, keys)
    }
}

/// Whether `a` ranks above `b`.
pub open spec fn outranks(keys: Seq<int>, a: int, b: int) -> bool {
    keys[a] > keys[b] || (keys[a] == keys[b] && a < b)
}

proof fn lemma_inserted(order: Seq<int>, j: int, keys: Seq<int>)
    requires
        j >= 0,
        forall|i: int| 0 <= i < order.len() ==> 0 <= #[trigger] order[i] < j,
        forall|a: int, b: int|
            0 <= a < b < order.len() ==> outranks(keys, #[trigger] order[a], #[trigger] order[b]),
    ensures
        ({
            let r = inserted(order, j, keys);
            &&& r.len() == order.len() + 1
            &&& forall|i: int| 0 <= i < r.len() ==> 0 <= #[trigger] r[i] <= j
            &&& forall|i: int| 0 <= i < order.len() ==> r.contains(#[trigger] order[i])
            &&& r.contains(j)
            &&& forall|i: int| 0 <= i < r.len() ==> #[trigger] r[i] == j || order.contains(r[i])
            &&& forall|a: int, b: int|
                0 <= a < b < r.len() ==> outranks(keys, #[trigger] r[a], #[trigger] r[b])
        }),
    decreases order.len(),
{
    let r = inserted(order, j, keys);
    if order.len() == 0 || keys[order.last()] >= keys[j] {
        assert(r[r.len() - 1] == j);
        assert forall|i: int| 0 <= i < order.len() implies r.contains(#[trigger] order[i]) by {
            assert(r[i] == order[i]);
        }
        assert forall|i: int| 0 <= i < r.len() implies #[trigger] r[i] == j || order.contains(
            r[i],
        ) by {
            if i < order.len() {
                assert(r[i] == order[i]);
            }
        }
        assert forall|a: int, b: int| 0 <= a < b < r.len() implies outranks(
            keys,
            #[trigger] r[a],
            #[trigger] r[b],
        ) by {
            assert(r[a] == order[a]);
            if b < order.len() {
                assert(r[b] == order[b]);
            } else if a < order.len() - 1 {
                assert(outranks(keys, order[a], order[order.len() - 1]));
            }
        }
    } else {
        let s = order.drop_last();
        assert forall|i: int| 0 <= i < s.len() implies 0 <= #[trigger] s[i] < j by {
            assert(s[i] == order[i]);
        }
        assert forall|a: int, b: int| 0 <= a < b < s.len() implies outranks(
            keys,
            #[trigger] s[a],
            #[trigger] s[b],
        ) by {
            assert(s[a] == order[a] && s[b] == order[b]);
        }
        lemma_inserted(s, j, keys);
        let t = inserted(s, j, keys);
        assert(r == t.push(order.last()));
        let jt = choose|i: int| 0 <= i < t.len() && t[i] == j;
        assert(r[jt] == j);
        assert forall|i: int| 0 <= i < order.len() implies r.contains(#[trigger] order[i]) by {
            if i < s.len() {
                assert(s[i] == order[i]);
                let k = choose|k: int| 0 <= k < t.len() && t[k] == s[i];
                assert(r[k] == order[i]);
            } else {
                assert(r[r.len() - 1] == order[i]);
            }
        }
        assert forall|i: int| 0 <= i < r.len() implies #[trigger] r[i] == j || order.contains(
            r[i],
        ) by {
            if i < t.len() {
                assert(r[i] == t[i]);
                if t[i] != j {
                    let k = choose|k: int| 0 <= k < s.len() && s[k] == t[i];
                    assert(order[k] == r[i]);
                }
            } else {
                assert(order[order.len() - 1] == r[i]);
            }
        }
        assert forall|i: int| 0 <= i < r.len() implies 0 <= #[trigger] r[i] <= j by {
            if i < t.len() {
                assert(r[i] == t[i]);
            } else {
                assert(order[order.len() - 1] == r[i]);
            }
        }
        assert forall|a: int, b: int| 0 <= a < b < r.len() implies outranks(
            keys,
            #[trigger] r[a],
            #[trigger] r[b],
        ) by {
            assert(r[a] == t[a]);
            if b < t.len() {
                assert(r[b] == t[b]);
            } else {
                assert(r[b] == order[order.len() - 1]);
                if t[a] != j {
                    let k = choose|k: int| 0 <= k < s.len() && s[k] == t[a];
                    assert(order[k] == r[a]);
                    assert(outranks(keys, order[k], order[order.len() - 1]));
                }
            }
        }
    }
}

/// A ranking holds every place once, each above those behind it.
pub proof fn lemma_ranking(keys: Seq<int>, n: nat)
    ensures
        ({
            let r = ranking(keys, n);
            &&& r.len() == n
            &&& forall|i: int| 0 <= i < n ==> 0 <= #[trigger] r[i] < n
            &&& forall|j: int| 0 <= j < n ==> #[trigger] r.contains(j)
            &&& forall|a: int, b: int|
                0 <= a < b < n ==> outranks(keys, #[trigger] r[a], #[trigger] r[b])
        }),
    decreases n,
{
    if n > 0 {
        let s = ranking(keys, (n - 1) as nat);
        lemma_ranking(keys, (n - 1) as nat);
        lemma_inserted(s, n - 1, keys);
        let r = ranking(keys, n);
        assert forall|j: int| 0 <= j < n implies #[trigger] r.contains(j) by {
            if j < n - 1 {
                assert(s.contains(j));
                let k = choose|k: int| 0 <= k < s.len() && s[k] == j;
                assert(r.contains(s[k]));
            }
        }
    }
}

/// The options of a batch in the order of their logits, highest first.
pub open spec fn ranked(batch: Seq<usize>, logits: Seq<u32>) -> Seq<usize> {
    Seq::new(
        batch.len(),
        |i: int| batch[ranking(float::places(logits), batch.len())[i]],
    )
}

/// The options of a batch in the order of their logits, highest first.
fn rank_batch(batch: &Vec<usize>, logits: &Vec<u32>) -> (r: Vec<usize>)
    requires
        batch@.len() == logits@.len(),
    ensures
        r@ == ranked(batch@, logits@),
{
    let ghost keys = float::places(logits@);
    let n: usize = batch.len();
    let mut order: Vec<usize> = Vec::new();
    let mut j: usize = 0;
    proof {
        assert(sequence::ints(order@) =~= ranking(keys, 0));
    }
    while j < n
        invariant
            j <= n,
            n == logits@.len(),
            keys == float::places(logits@),
            sequence::ints(order@) == ranking(keys, j as nat),
        decreases n - j,
    {
        let ghost before_order = sequence::ints(order@);
        proof {
            lemma_ranking(keys, j as nat);
            assert(before_order.len() == order@.len());
        }
        let mut p: usize = order.len();
        proof {
            assert(before_order.take(p as int) =~= before_order);
            assert(inserted(before_order.take(p as int), j as int, keys) + before_order.skip(
                p as int,
            ) =~= inserted(before_order, j as int, keys));
        }
        while p > 0 && before(logits[order[p - 1]], logits[j])
            invariant
                j < n,
                n == logits@.len(),
                keys == float::places(logits@),
                p <= order@.len(),
                before_order == sequence::ints(order@),
                forall|i: int| 0 <= i < before_order.len() ==> 0 <= #[trigger] before_order[i] < j,
                inserted(before_order.take(p as int), j as int, keys) + before_order.skip(p as int)
                    == inserted(before_order, j as int, keys),
            decreases p,
        {
            proof {
                let s = before_order.take(p as int);
                assert(s.last() == before_order[p - 1]);
                assert(order@[p - 1] == before_order[p - 1]);
                assert(s.drop_last() =~= before_order.take(p - 1));
                let t = inserted(before_order.take(p - 1), j as int, keys);
                assert(inserted(s, j as int, keys) == t.push(s.last()));
                assert(t + before_order.skip(p - 1) =~= t.push(s.last()) + before_order.skip(
                    p as int,
                ));
            }
            p -= 1;
        }
        proof {
            let s = before_order.take(p as int);
            if p > 0 {
                assert(s.last() == before_order[p - 1]);
                assert(order@[p - 1] == before_order[p - 1]);
                assert(0 <= before_order[p - 1] < j);
            }
            assert(inserted(s, j as int, keys) == s.push(j as int));
        }
        order.insert(p, j);
        proof {
            assert(sequence::ints(order@) =~= before_order.take(p as int).push(j as int)
                + before_order.skip(p as int));
        }
        j += 1;
    }
    let mut r: Vec<usize> = Vec::new();
    let mut i: usize = 0;
    let ghost all = ranked(batch@, logits@);
    proof {
        lemma_ranking(keys, n as nat);
        assert(r@ =~= all.take(0));
    }
    while i < n
        invariant
            i <= n,
            n == batch@.len(),
            all == ranked(batch@, logits@),
            keys == float::places(logits@),
            sequence::ints(order@) == ranking(keys, n as nat),
            sequence::ints(order@).len() == n,
            forall|i: int| 0 <= i < n ==> 0 <= #[trigger] ranking(keys, n as nat)[i] < n,
            r@ == all.take(i as int),
        decreases n - i,
    {
        proof {
            assert(order@[i as int] == sequence::ints(order@)[i as int]);
            assert(0 <= ranking(keys, n as nat)[i as int] < n);
        }
        let o: usize = batch[order[i]];
        r.push(o);
        proof {
            assert(all.take(i + 1) =~= all.take(i as int).push(o));
        }
        i += 1;
    }
    proof {
        assert(all.take(n as int) =~= all);
    }
    r
}

// ---------------------------------------------------------------------------------------------
// Who advances

/// The batches of a round, each in the order of its logits.
pub open spec fn rankings(round: Seq<Seq<usize>>, logits: Seq<Seq<u32>>) -> Seq<Seq<usize>> {
    Seq::new(round.len(), |i: int| ranked(round[i], logits[i]))
}

/// The first of each batch.
pub open spec fn leaders(r: Seq<Seq<usize>>) -> Seq<usize> {
    Seq::new(r.len(), |i: int| r[i][0])
}

/// Those of the given rank, from each batch that goes so deep.
pub open spec fn column(r: Seq<Seq<usize>>, rank: int) -> Seq<usize>
    decreases r.len(),
{
    if r.len() == 0 {
        Seq::empty()
    } else if r.last().len() > rank {
        column(r.drop_last(), rank).push(r.last()[rank])
    } else {
        column(r.drop_last(), rank)
    }
}

/// The runners-up rank by rank, below rank `to`.
pub open spec fn runners_up(r: Seq<Seq<usize>>, to: nat) -> Seq<usize>
    decreases to,
{
    if to <= 1 {
        Seq::empty()
    } else {
        runners_up(r, (to - 1) as nat) + column(r, to - 1)
    }
}

/// How deep the deepest batch goes.
pub open spec fn depth(r: Seq<Seq<usize>>) -> nat
    decreases r.len(),
{
    if r.len() == 0 {
        0
    } else if r.last().len() >= depth(r.drop_last()) {
        r.last().len()
    } else {
        depth(r.drop_last())
    }
}

/// How many of `list`, from its start, still fit `limit` tokens beside `size`.
pub open spec fn fitting(opts: Seq<Seq<u32>>, list: Seq<usize>, size: int, limit: int) -> nat
    decreases list.len(),
{
    if list.len() == 0 || size + opts[list[0] as int].len() > limit {
        0
    } else {
        1 + fitting(opts, list.skip(1), size + opts[list[0] as int].len(), limit)
    }
}

/// Who stays: every batch's leader, then runners-up while they fit.
pub open spec fn kept(opts: Seq<Seq<u32>>, r: Seq<Seq<usize>>, limit: int) -> Seq<usize> {
    let first = leaders(r);
    let rest = runners_up(r, depth(r));
    first + rest.take(
        fitting(opts, rest, sequence::tokens_in(opts, first) as int, limit) as int,
    )
}

/// The options below `k` that `keep` names, in the order of the request.
pub open spec fn in_order(keep: Seq<usize>, k: nat) -> Seq<usize>
    decreases k,
{
    if k == 0 {
        Seq::empty()
    } else if keep.contains((k - 1) as usize) {
        in_order(keep, (k - 1) as nat).push((k - 1) as usize)
    } else {
        in_order(keep, (k - 1) as nat)
    }
}

/// Option tokens a row of a later round may take: no more than before batching, and no more than
/// leave a question part within `cap` tokens.
pub open spec fn round_limit(head: nat, option_budget: nat, cap: nat) -> int {
    let room = pipeline::option_room(head, option_budget);
    let left = sequence::larger(cap - head - 3, 0);
    if left < room {
        left
    } else {
        room
    }
}

/// The batches of the next round: one when the candidates fit a row, else batches of them. A
/// question part should take no more than `cap` tokens.
pub open spec fn next_batches(
    p: PartsV,
    round: Seq<Seq<usize>>,
    logits: Seq<Seq<u32>>,
    budget: Budget,
    cap: nat,
) -> Seq<Seq<usize>> {
    let limit = round_limit(p.head.len(), budget.option_budget as nat, cap);
    let keep = in_order(kept(p.opts, rankings(round, logits), limit), p.opts.len());
    if keep.len() <= 2 || sequence::tokens_in(p.opts, keep) <= limit {
        seq![keep]
    } else {
        pipeline::packed(p.opts, keep, limit as nat)
    }
}

proof fn lemma_fitting(opts: Seq<Seq<u32>>, list: Seq<usize>, size: int, limit: int)
    ensures
        fitting(opts, list, size, limit) <= list.len(),
    decreases list.len(),
{
    if list.len() > 0 && size + opts[list[0] as int].len() <= limit {
        lemma_fitting(opts, list.skip(1), size + opts[list[0] as int].len(), limit);
    }
}

pub proof fn lemma_in_order(keep: Seq<usize>, k: nat)
    requires
        k <= usize::MAX + 1,
    ensures
        ({
            let r = in_order(keep, k);
            &&& r.len() <= k
            &&& forall|i: int| 0 <= i < r.len() ==> (#[trigger] r[i]) < k && keep.contains(r[i])
            &&& forall|o: usize| o < k && #[trigger] keep.contains(o) ==> r.contains(o)
            &&& forall|a: int, b: int| 0 <= a < b < r.len() ==> #[trigger] r[a] < #[trigger] r[b]
        }),
    decreases k,
{
    if k > 0 {
        let s = in_order(keep, (k - 1) as nat);
        lemma_in_order(keep, (k - 1) as nat);
        let r = in_order(keep, k);
        let last = (k - 1) as usize;
        if keep.contains(last) {
            assert(r[r.len() - 1] == last);
            assert forall|o: usize| o < k && #[trigger] keep.contains(o) implies r.contains(o) by {
                if o < k - 1 {
                    assert(s.contains(o));
                    let i = choose|i: int| 0 <= i < s.len() && s[i] == o;
                    assert(r[i] == o);
                }
            }
            assert forall|i: int| 0 <= i < r.len() implies (#[trigger] r[i]) < k && keep.contains(
                r[i],
            ) by {
                if i < s.len() {
                    assert(r[i] == s[i]);
                }
            }
            assert forall|a: int, b: int| 0 <= a < b < r.len() implies #[trigger] r[a]
                < #[trigger] r[b] by {
                assert(r[a] == s[a]);
                if b < s.len() {
                    assert(r[b] == s[b]);
                }
            }
        } else {
            assert forall|o: usize| o < k && #[trigger] keep.contains(o) implies r.contains(o) by {
                assert(o != last);
            }
        }
    }
}

/// The tokens of options in order are among those of all options.
proof fn lemma_in_order_tokens(opts: Seq<Seq<u32>>, keep: Seq<usize>, k: nat)
    requires
        k <= opts.len(),
        k <= usize::MAX,
    ensures
        sequence::tokens_in(opts, in_order(keep, k)) <= sequence::flat(opts.take(k as int)).len(),
    decreases k,
{
    if k > 0 {
        lemma_in_order_tokens(opts, keep, (k - 1) as nat);
        assert(opts.take(k as int).drop_last() =~= opts.take(k - 1));
        let s = in_order(keep, (k - 1) as nat);
        if keep.contains((k - 1) as usize) {
            assert(s.push((k - 1) as usize).drop_last() =~= s);
        }
    }
}

fn sum_wide(parts: &QuestionParts, which: &Vec<usize>) -> (n: u128)
    requires
        sequence::names_options(parts@.opts, which@),
    ensures
        n == sequence::tokens_in(parts@.opts, which@),
        n <= which@.len() * usize::MAX,
{
    let mut n: u128 = 0;
    let mut i: usize = 0;
    proof {
        assert(which@.take(0) =~= Seq::empty());
    }
    while i < which.len()
        invariant
            i <= which@.len(),
            sequence::names_options(parts@.opts, which@),
            n == sequence::tokens_in(parts@.opts, which@.take(i as int)),
            n <= i * usize::MAX,
        decreases which@.len() - i,
    {
        proof {
            assert(which@.take(i + 1).drop_last() =~= which@.take(i as int));
            assert(which@.take(i + 1).last() == which@[i as int]);
            assert(which@[i as int] < parts@.opts.len());
            assert(i * usize::MAX + usize::MAX == (i + 1) * usize::MAX) by (nonlinear_arith);
            assert((i + 1) * usize::MAX < u128::MAX) by (nonlinear_arith)
                requires
                    i + 1 <= usize::MAX,
            ;
        }
        let len: usize = parts.opts[which[i]].len();
        n += len as u128;
        i += 1;
    }
    proof {
        assert(which@.take(i as int) =~= which@);
    }
    n
}

/// The first of each batch, then the runners-up rank by rank.
fn candidates(r: &Vec<Vec<usize>>) -> (out: (Vec<usize>, Vec<usize>))
    requires
        forall|i: int| 0 <= i < r@.len() ==> (#[trigger] pipeline::batches(r@)[i]).len() > 0,
    ensures
        out.0@ == leaders(pipeline::batches(r@)),
        out.1@ == runners_up(pipeline::batches(r@), depth(pipeline::batches(r@))),
{
    let ghost all = pipeline::batches(r@);
    let mut first: Vec<usize> = Vec::new();
    let mut deep: usize = 0;
    let mut i: usize = 0;
    proof {
        assert(first@ =~= leaders(all).take(0));
        assert(all.take(0) =~= Seq::empty());
    }
    while i < r.len()
        invariant
            i <= r@.len(),
            all == pipeline::batches(r@),
            forall|i: int| 0 <= i < r@.len() ==> (#[trigger] all[i]).len() > 0,
            first@ == leaders(all).take(i as int),
            deep == depth(all.take(i as int)),
        decreases r@.len() - i,
    {
        proof {
            assert(all[i as int].len() > 0);
            assert(all.take(i + 1).drop_last() =~= all.take(i as int));
            assert(leaders(all).take(i + 1) =~= leaders(all).take(i as int).push(all[i as int][0]));
        }
        first.push(r[i][0]);
        if r[i].len() >= deep {
            deep = r[i].len();
        }
        i += 1;
    }
    let mut rest: Vec<usize> = Vec::new();
    let mut rank: usize = 1;
    proof {
        assert(all.take(i as int) =~= all);
        assert(leaders(all).take(i as int) =~= leaders(all));
        assert(rest@ =~= runners_up(all, 1));
    }
    while rank < deep
        invariant
            1 <= rank,
            deep >= 1 ==> rank <= deep,
            deep == 0 ==> rank == 1,
            deep == depth(all),
            all == pipeline::batches(r@),
            rest@ == runners_up(all, rank as nat),
        decreases deep - rank,
    {
        let ghost done = rest@;
        let mut b: usize = 0;
        proof {
            assert(all.take(0) =~= Seq::empty());
            assert(rest@ =~= done + column(all.take(0), rank as int));
        }
        while b < r.len()
            invariant
                b <= r@.len(),
                all == pipeline::batches(r@),
                rest@ == done + column(all.take(b as int), rank as int),
            decreases r@.len() - b,
        {
            proof {
                assert(all.take(b + 1).drop_last() =~= all.take(b as int));
                assert(all.take(b + 1).last() == r@[b as int]@);
            }
            if r[b].len() > rank {
                rest.push(r[b][rank]);
                proof {
                    assert(rest@ =~= done + column(all.take(b + 1), rank as int));
                }
            }
            b += 1;
        }
        proof {
            assert(all.take(b as int) =~= all);
        }
        rank += 1;
    }
    (first, rest)
}

proof fn lemma_column_names(r: Seq<Seq<usize>>, rank: int, k: nat)
    requires
        rank >= 0,
        forall|i: int, j: int|
            0 <= i < r.len() && 0 <= j < r[i].len() ==> (#[trigger] r[i][j]) < k,
    ensures
        forall|i: int| 0 <= i < column(r, rank).len() ==> (#[trigger] column(r, rank)[i]) < k,
    decreases r.len(),
{
    if r.len() > 0 {
        let s = r.drop_last();
        assert forall|i: int, j: int| 0 <= i < s.len() && 0 <= j < s[i].len() implies (
        #[trigger] s[i][j]) < k by {
            assert(r[i][j] < k);
        }
        lemma_column_names(s, rank, k);
        let c = column(s, rank);
        if r.last().len() > rank {
            assert(r[r.len() - 1][rank] < k);
            assert forall|i: int| 0 <= i < column(r, rank).len() implies (#[trigger] column(
                r,
                rank,
            )[i]) < k by {
                if i < c.len() {
                    assert(column(r, rank)[i] == c[i]);
                }
            }
        }
    }
}

proof fn lemma_runners_names(r: Seq<Seq<usize>>, to: nat, k: nat)
    requires
        forall|i: int, j: int|
            0 <= i < r.len() && 0 <= j < r[i].len() ==> (#[trigger] r[i][j]) < k,
    ensures
        forall|i: int| 0 <= i < runners_up(r, to).len() ==> (#[trigger] runners_up(r, to)[i]) < k,
    decreases to,
{
    if to > 1 {
        lemma_runners_names(r, (to - 1) as nat, k);
        lemma_column_names(r, to - 1, k);
        let a = runners_up(r, (to - 1) as nat);
        let c = column(r, to - 1);
        assert forall|i: int| 0 <= i < (a + c).len() implies (#[trigger] (a + c)[i]) < k by {
            if i < a.len() {
                assert((a + c)[i] == a[i]);
            } else {
                assert((a + c)[i] == c[i - a.len()]);
            }
        }
    }
}

/// Marks the options that `which` names.
fn mark(marks: &mut Vec<bool>, which: &Vec<usize>, n: usize)
    requires
        n <= which@.len(),
        forall|i: int| 0 <= i < which@.len() ==> (#[trigger] which@[i]) < old(marks)@.len(),
    ensures
        final(marks)@.len() == old(marks)@.len(),
        forall|o: int|
            0 <= o < final(marks)@.len() ==> (#[trigger] final(marks)@[o] == (old(marks)@[o]
                || which@.take(n as int).contains(o as usize))),
{
    let ghost start = marks@;
    let total: usize = marks.len();
    let mut i: usize = 0;
    while i < n
        invariant
            i <= n <= which@.len(),
            marks@.len() == start.len(),
            start.len() == total,
            forall|i: int| 0 <= i < which@.len() ==> (#[trigger] which@[i]) < start.len(),
            forall|o: int|
                0 <= o < start.len() ==> (#[trigger] marks@[o] == (start[o] || which@.take(
                    i as int,
                ).contains(o as usize))),
        decreases n - i,
    {
        let ghost now = marks@;
        let o: usize = which[i];
        marks.set(o, true);
        proof {
            let s = which@.take(i as int);
            let t = which@.take(i + 1);
            assert forall|q: int| 0 <= q < start.len() implies (#[trigger] marks@[q] == (start[q]
                || t.contains(q as usize))) by {
                assert(now[q] == (start[q] || s.contains(q as usize)));
                if s.contains(q as usize) {
                    let m = choose|m: int| 0 <= m < s.len() && s[m] == q as usize;
                    assert(t[m] == q as usize);
                }
                if t.contains(q as usize) {
                    let m = choose|m: int| 0 <= m < t.len() && t[m] == q as usize;
                    if m < i {
                        assert(s[m] == q as usize);
                    }
                }
                if q == o {
                    assert(t[i as int] == q as usize);
                }
            }
        }
        i += 1;
    }
}

/// The marked options, in order.
fn marked(marks: &Vec<bool>, Ghost(keep): Ghost<Seq<usize>>) -> (r: Vec<usize>)
    requires
        forall|o: int|
            0 <= o < marks@.len() ==> (#[trigger] marks@[o] == keep.contains(o as usize)),
    ensures
        r@ == in_order(keep, marks@.len()),
{
    let mut r: Vec<usize> = Vec::new();
    let mut i: usize = 0;
    while i < marks.len()
        invariant
            i <= marks@.len(),
            forall|o: int|
                0 <= o < marks@.len() ==> (#[trigger] marks@[o] == keep.contains(o as usize)),
            r@ == in_order(keep, i as nat),
        decreases marks@.len() - i,
    {
        proof {
            assert(marks@[i as int] == keep.contains(i));
        }
        if marks[i] {
            r.push(i);
        }
        i += 1;
    }
    r
}

/// Whether the batches of a round name options and each holds one.
pub open spec fn sound_round(k: nat, round: Seq<Seq<usize>>) -> bool {
    forall|i: int|
        0 <= i < round.len() ==> (#[trigger] round[i]).len() > 0 && forall|j: int|
            0 <= j < round[i].len() ==> (#[trigger] round[i][j]) < k
}

/// Whether there is a logit for each option of each batch.
pub open spec fn matches_round(round: Seq<Seq<usize>>, logits: Seq<Seq<u32>>) -> bool {
    &&& round.len() == logits.len()
    &&& forall|i: int| 0 <= i < round.len() ==> (#[trigger] logits[i]).len() == round[i].len()
}

proof fn lemma_ranked_names(batch: Seq<usize>, logits: Seq<u32>, k: nat)
    requires
        forall|j: int| 0 <= j < batch.len() ==> (#[trigger] batch[j]) < k,
    ensures
        forall|j: int| 0 <= j < batch.len() ==> (#[trigger] ranked(batch, logits)[j]) < k,
{
    lemma_ranking(float::places(logits), batch.len());
    assert forall|j: int| 0 <= j < batch.len() implies (#[trigger] ranked(batch, logits)[j])
        < k by {
        let q = ranking(float::places(logits), batch.len())[j];
        assert(0 <= q < batch.len());
        assert(batch[q] < k);
    }
}

/// The next round's batches: every batch's leader, then runners-up rank by rank while they still
/// fit one row. Candidates that don't fit one row are batched again. A question part should take no
/// more than `cap` tokens.
pub fn next_round(
    parts: &QuestionParts,
    round: &Vec<Vec<usize>>,
    logits: &Vec<Vec<u32>>,
    budget: &Budget,
    cap: usize,
) -> (r: Vec<Vec<usize>>)
    requires
        sound_round(parts@.opts.len(), pipeline::batches(round@)),
        matches_round(pipeline::batches(round@), sequence::runs(logits@)),
        sequence::flat(parts@.opts).len() <= usize::MAX,
    ensures
        pipeline::batches(r@) == next_batches(
            parts@,
            pipeline::batches(round@),
            sequence::runs(logits@),
            *budget,
            cap as nat,
        ),
{
    let ghost k = parts@.opts.len();
    let ghost bs = pipeline::batches(round@);
    let ghost ls = sequence::runs(logits@);
    let ghost all = rankings(bs, ls);
    let mut order: Vec<Vec<usize>> = Vec::new();
    let mut i: usize = 0;
    proof {
        assert(pipeline::batches(order@) =~= all.take(0));
    }
    while i < round.len()
        invariant
            i <= round@.len(),
            bs == pipeline::batches(round@),
            ls == sequence::runs(logits@),
            all == rankings(bs, ls),
            matches_round(bs, ls),
            pipeline::batches(order@) == all.take(i as int),
        decreases round@.len() - i,
    {
        proof {
            assert(ls[i as int].len() == bs[i as int].len());
        }
        let b = rank_batch(&round[i], &logits[i]);
        let ghost was = pipeline::batches(order@);
        let ghost one = b@;
        order.push(b);
        proof {
            assert(pipeline::batches(order@) =~= was.push(one));
            assert(all.take(i + 1) =~= all.take(i as int).push(one));
        }
        i += 1;
    }
    proof {
        assert(all.take(i as int) =~= all);
        assert forall|i: int, j: int| 0 <= i < all.len() && 0 <= j < all[i].len() implies (
        #[trigger] all[i][j]) < k by {
            assert(bs[i].len() > 0);
            lemma_ranked_names(bs[i], ls[i], k);
        }
        assert forall|i: int| 0 <= i < order@.len() implies (#[trigger] pipeline::batches(
            order@,
        )[i]).len() > 0 by {
            assert(bs[i].len() > 0);
            assert(pipeline::batches(order@)[i] == all[i]);
        }
    }
    let (first, rest) = candidates(&order);
    let room: usize = option_limit(parts, budget);
    let left: usize = cap.saturating_sub(parts.head.len()).saturating_sub(3);
    let limit: usize = if left < room {
        left
    } else {
        room
    };
    proof {
        assert forall|i: int| 0 <= i < first@.len() implies (#[trigger] first@[i]) < k by {
            assert(bs[i].len() > 0);
            assert(all[i][0] < k);
        }
        lemma_runners_names(all, depth(all), k);
    }
    let mut size: u128 = sum_wide(parts, &first);
    let mut n: usize = 0;
    let ghost start = size as int;
    let ghost total = fitting(parts@.opts, rest@, start, limit as int);
    proof {
        lemma_fitting(parts@.opts, rest@, start, limit as int);
        assert(rest@.skip(0) =~= rest@);
    }
    while n < rest.len() && size <= limit as u128 && parts.opts[rest[n]].len() as u128 <= limit as u128
        - size
        invariant
            n <= rest@.len(),
            forall|i: int| 0 <= i < rest@.len() ==> (#[trigger] rest@[i]) < parts@.opts.len(),
            n + fitting(parts@.opts, rest@.skip(n as int), size as int, limit as int) == total,
        decreases rest@.len() - n,
    {
        proof {
            let s = rest@.skip(n as int);
            assert(s[0] == rest@[n as int]);
            assert(s.skip(1) =~= rest@.skip(n + 1));
        }
        size += parts.opts[rest[n]].len() as u128;
        n += 1;
    }
    proof {
        let s = rest@.skip(n as int);
        if n < rest@.len() {
            assert(s[0] == rest@[n as int]);
        }
        assert(n == total);
    }
    let ghost keep = kept(parts@.opts, all, limit as int);
    let mut marks: Vec<bool> = Vec::new();
    let mut o: usize = 0;
    while o < parts.opts.len()
        invariant
            o <= parts@.opts.len(),
            parts@.opts.len() == parts.opts@.len(),
            marks@.len() == o,
            forall|q: int| 0 <= q < o ==> !#[trigger] marks@[q],
        decreases parts@.opts.len() - o,
    {
        marks.push(false);
        o += 1;
    }
    let f: usize = first.len();
    mark(&mut marks, &first, f);
    mark(&mut marks, &rest, n);
    proof {
        assert(keep == first@ + rest@.take(n as int));
        assert forall|q: int| 0 <= q < marks@.len() implies (#[trigger] marks@[q] == keep.contains(
            q as usize,
        )) by {
            let a = first@.take(f as int);
            let b = rest@.take(n as int);
            assert(a =~= first@);
            if a.contains(q as usize) {
                let m = choose|m: int| 0 <= m < a.len() && a[m] == q as usize;
                assert(keep[m] == q as usize);
            }
            if b.contains(q as usize) {
                let m = choose|m: int| 0 <= m < b.len() && b[m] == q as usize;
                assert(keep[first@.len() + m] == q as usize);
            }
            if keep.contains(q as usize) {
                let m = choose|m: int| 0 <= m < keep.len() && keep[m] == q as usize;
                if m < first@.len() {
                    assert(a[m] == q as usize);
                } else {
                    assert(b[m - first@.len()] == q as usize);
                }
            }
        }
    }
    let stay = marked(&marks, Ghost(keep));
    proof {
        lemma_in_order(keep, k);
        lemma_in_order_tokens(parts@.opts, keep, k);
        assert(parts@.opts.take(k as int) =~= parts@.opts);
    }
    if stay.len() <= 2 || option_tokens(parts, stay.as_slice()) <= limit {
        let mut r: Vec<Vec<usize>> = Vec::new();
        let ghost one = stay@;
        r.push(stay);
        proof {
            assert(pipeline::batches(r@) =~= seq![one]);
        }
        return r;
    }
    pack(parts, stay.as_slice(), limit)
}

// ---------------------------------------------------------------------------------------------
// Where each option ends up

/// How an option's merged logit comes about: its own logit of the final round, or as far from its
/// leader's merged logit as their logits were apart in the round it was eliminated in.
#[derive(Clone, Copy, PartialEq, Eq, Structural, Debug)]
pub struct Placement {
    pub option: usize,
    /// The option it is placed relative to; `None` for a finalist.
    pub leader: Option<usize>,
    /// The leader's logit in that round (0 for a finalist).
    pub leader_logit: u32,
    /// The option's own logit in its last round.
    pub logit: u32,
}

/// Whether an option has its place.
pub open spec fn placed(acc: Seq<Placement>, o: usize) -> bool {
    exists|i: int| 0 <= i < acc.len() && (#[trigger] acc[i]).option == o
}

/// Whether some option of a batch has its place.
pub open spec fn has_placed(acc: Seq<Placement>, batch: Seq<usize>) -> bool {
    exists|j: int| 0 <= j < batch.len() && placed(acc, #[trigger] batch[j])
}

/// The finalists, with the logits of the final round.
pub open spec fn finalists(batch: Seq<usize>, logits: Seq<u32>) -> Seq<Placement> {
    Seq::new(
        batch.len(),
        |i: int| Placement { option: batch[i], leader: None, leader_logit: 0, logit: logits[i] },
    )
}

/// Of the first `n` options of a batch, the one that has a place and the highest logit, and the
/// last such of equals.
pub open spec fn leader_at(
    acc: Seq<Placement>,
    batch: Seq<usize>,
    logits: Seq<u32>,
    n: nat,
) -> Option<int>
    decreases n,
{
    if n == 0 {
        None
    } else {
        let rest = leader_at(acc, batch, logits, (n - 1) as nat);
        if placed(acc, batch[n - 1]) && (rest is None || float::place(logits[n - 1])
            >= float::place(logits[rest->0])) {
            Some(n - 1)
        } else {
            rest
        }
    }
}

/// The places after those of the first `n` options of a batch that had none are put relative to
/// its leader.
pub open spec fn batch_placed(
    acc: Seq<Placement>,
    batch: Seq<usize>,
    logits: Seq<u32>,
    lead: int,
    n: nat,
) -> Seq<Placement>
    decreases n,
{
    if n == 0 {
        acc
    } else {
        let rest = batch_placed(acc, batch, logits, lead, (n - 1) as nat);
        if placed(rest, batch[n - 1]) {
            rest
        } else {
            rest.push(
                Placement {
                    option: batch[n - 1],
                    leader: Some(batch[lead]),
                    leader_logit: logits[lead],
                    logit: logits[n - 1],
                },
            )
        }
    }
}

/// The places after the first `n` batches of a round.
pub open spec fn round_placed(
    acc: Seq<Placement>,
    round: Seq<Seq<usize>>,
    logits: Seq<Seq<u32>>,
    n: nat,
) -> Seq<Placement>
    decreases n,
{
    if n == 0 {
        acc
    } else {
        let rest = round_placed(acc, round, logits, (n - 1) as nat);
        let batch = round[n - 1];
        match leader_at(rest, batch, logits[n - 1], batch.len()) {
            Some(lead) => batch_placed(rest, batch, logits[n - 1], lead, batch.len()),
            None => rest,
        }
    }
}

/// The places after all rounds from the last down to round `r`.
pub open spec fn merged(
    rounds: Seq<Seq<Seq<usize>>>,
    logits: Seq<Seq<Seq<u32>>>,
    r: nat,
) -> Seq<Placement>
    decreases rounds.len() - r,
{
    if r + 1 >= rounds.len() {
        finalists(rounds.last()[0], logits.last()[0])
    } else {
        round_placed(merged(rounds, logits, r + 1), rounds[r as int], logits[r as int], rounds[r as int].len())
    }
}

/// The batches of each round.
pub open spec fn round_batches(v: Seq<Vec<Vec<usize>>>) -> Seq<Seq<Seq<usize>>> {
    Seq::new(v.len(), |i: int| pipeline::batches(v[i]@))
}

/// The logits of each round.
pub open spec fn round_logits(v: Seq<Vec<Vec<u32>>>) -> Seq<Seq<Seq<u32>>> {
    Seq::new(v.len(), |i: int| sequence::runs(v[i]@))
}

/// Whether some option of `batch` is in one of `batches`.
pub open spec fn sends_one(batch: Seq<usize>, batches: Seq<Seq<usize>>) -> bool {
    exists|j: int|
        0 <= j < batch.len() && pipeline::concat(batches).contains(#[trigger] batch[j])
}

/// Whether rounds can be merged: every batch sends one of its options to the next round, and the
/// last round is one batch.
pub open spec fn mergeable(
    k: nat,
    rounds: Seq<Seq<Seq<usize>>>,
    logits: Seq<Seq<Seq<u32>>>,
) -> bool {
    &&& rounds.len() >= 1
    &&& rounds.last().len() == 1
    &&& rounds.len() == logits.len()
    &&& forall|r: int|
        0 <= r < rounds.len() ==> sound_round(k, #[trigger] rounds[r]) && matches_round(
            rounds[r],
            logits[r],
        )
    &&& forall|r: int, i: int|
        0 <= r < rounds.len() - 1 && 0 <= i < rounds[r].len() ==> sends_one(
            #[trigger] rounds[r][i],
            rounds[r + 1],
        )
}

proof fn lemma_leader_at(acc: Seq<Placement>, batch: Seq<usize>, logits: Seq<u32>, n: nat)
    requires
        n <= batch.len(),
    ensures
        match leader_at(acc, batch, logits, n) {
            Some(l) => 0 <= l < n && placed(acc, batch[l]),
            None => forall|j: int| 0 <= j < n ==> !placed(acc, #[trigger] batch[j]),
        },
    decreases n,
{
    if n > 0 {
        lemma_leader_at(acc, batch, logits, (n - 1) as nat);
    }
}

proof fn lemma_placed_push(acc: Seq<Placement>, p: Placement, o: usize)
    ensures
        placed(acc.push(p), o) == (placed(acc, o) || p.option == o),
{
    if placed(acc, o) {
        let i = choose|i: int| 0 <= i < acc.len() && (#[trigger] acc[i]).option == o;
        assert(acc.push(p)[i].option == o);
    }
    if p.option == o {
        assert(acc.push(p)[acc.len() as int].option == o);
    }
    if placed(acc.push(p), o) {
        let i = choose|i: int| 0 <= i < acc.push(p).len() && (#[trigger] acc.push(p)[i]).option == o;
        if i < acc.len() {
            assert(acc[i].option == o);
        }
    }
}

/// Whether no option is placed twice, and each that is placed relative to another comes after it.
pub open spec fn orderly(acc: Seq<Placement>) -> bool {
    &&& forall|i: int, j: int|
        0 <= i < j < acc.len() ==> (#[trigger] acc[i]).option != (#[trigger] acc[j]).option
    &&& forall|i: int|
        0 <= i < acc.len() ==> ((#[trigger] acc[i]).leader matches Some(l) ==> placed(
            acc.take(i),
            l,
        ))
}

proof fn lemma_batch_placed(
    acc: Seq<Placement>,
    batch: Seq<usize>,
    logits: Seq<u32>,
    lead: int,
    n: nat,
)
    requires
        0 <= lead < batch.len(),
        n <= batch.len(),
        placed(acc, batch[lead]),
    ensures
        ({
            let r = batch_placed(acc, batch, logits, lead, n);
            &&& forall|o: usize| placed(acc, o) ==> #[trigger] placed(r, o)
            &&& forall|j: int| 0 <= j < n ==> placed(r, #[trigger] batch[j])
            &&& forall|o: usize| #[trigger]
                placed(r, o) ==> placed(acc, o) || exists|j: int|
                    0 <= j < n && #[trigger] batch[j] == o
            &&& orderly(acc) ==> orderly(r)
        }),
    decreases n,
{
    if n > 0 {
        let rest = batch_placed(acc, batch, logits, lead, (n - 1) as nat);
        lemma_batch_placed(acc, batch, logits, lead, (n - 1) as nat);
        let r = batch_placed(acc, batch, logits, lead, n);
        let o = batch[n - 1];
        if !placed(rest, o) {
            let p = Placement {
                option: o,
                leader: Some(batch[lead]),
                leader_logit: logits[lead],
                logit: logits[n - 1],
            };
            assert forall|q: usize| placed(acc, q) implies #[trigger] placed(r, q) by {
                lemma_placed_push(rest, p, q);
            }
            assert forall|j: int| 0 <= j < n implies placed(r, #[trigger] batch[j]) by {
                lemma_placed_push(rest, p, batch[j]);
            }
            assert forall|q: usize| #[trigger] placed(r, q) implies placed(acc, q) || exists|j: int|
                0 <= j < n && #[trigger] batch[j] == q by {
                lemma_placed_push(rest, p, q);
                if p.option == q {
                    assert(batch[n - 1] == q);
                }
            }
            if orderly(acc) {
                assert forall|i: int, j: int| 0 <= i < j < r.len() implies (
                #[trigger] r[i]).option != (#[trigger] r[j]).option by {
                    assert(r[i] == rest[i]);
                    if j < rest.len() {
                        assert(r[j] == rest[j]);
                    } else {
                        assert(placed(rest, rest[i].option));
                    }
                }
                assert forall|i: int| 0 <= i < r.len() implies ((#[trigger] r[i]).leader matches Some(
                    l,
                ) ==> placed(r.take(i), l)) by {
                    if i < rest.len() {
                        assert(r[i] == rest[i]);
                        assert(r.take(i) =~= rest.take(i));
                    } else {
                        assert(r.take(i) =~= rest);
                        assert(placed(acc, batch[lead]));
                    }
                }
            }
        }
    }
}

proof fn lemma_round_placed(
    acc: Seq<Placement>,
    round: Seq<Seq<usize>>,
    logits: Seq<Seq<u32>>,
    n: nat,
)
    requires
        n <= round.len(),
        forall|i: int| 0 <= i < round.len() ==> has_placed(acc, #[trigger] round[i]),
    ensures
        ({
            let r = round_placed(acc, round, logits, n);
            &&& forall|o: usize| placed(acc, o) ==> #[trigger] placed(r, o)
            &&& forall|i: int, j: int|
                0 <= i < n && 0 <= j < round[i].len() ==> placed(r, #[trigger] round[i][j])
            &&& forall|o: usize| #[trigger]
                placed(r, o) ==> placed(acc, o) || exists|i: int, j: int|
                    0 <= i < n && 0 <= j < round[i].len() && #[trigger] round[i][j] == o
            &&& orderly(acc) ==> orderly(r)
        }),
    decreases n,
{
    if n > 0 {
        let rest = round_placed(acc, round, logits, (n - 1) as nat);
        lemma_round_placed(acc, round, logits, (n - 1) as nat);
        let batch = round[n - 1];
        assert(has_placed(acc, round[n - 1]));
        let j = choose|j: int| 0 <= j < batch.len() && placed(acc, #[trigger] batch[j]);
        assert(placed(rest, batch[j]));
        lemma_leader_at(rest, batch, logits[n - 1], batch.len());
        let lead = leader_at(rest, batch, logits[n - 1], batch.len())->0;
        lemma_batch_placed(rest, batch, logits[n - 1], lead, batch.len());
        let r = round_placed(acc, round, logits, n);
        assert forall|i: int, j: int| 0 <= i < n && 0 <= j < round[i].len() implies placed(
            r,
            #[trigger] round[i][j],
        ) by {
            if i < n - 1 {
                assert(placed(rest, round[i][j]));
            } else {
                assert(batch[j] == round[i][j]);
            }
        }
        assert forall|o: usize| #[trigger] placed(r, o) implies placed(acc, o) || exists|
            i: int,
            j: int,
        |
            0 <= i < n && 0 <= j < round[i].len() && #[trigger] round[i][j] == o by {
            if !placed(rest, o) {
                let m = choose|m: int| 0 <= m < batch.len() && #[trigger] batch[m] == o;
                assert(round[n - 1][m] == o);
            }
        }
    }
}

pub proof fn lemma_concat_contains(v: Seq<Seq<usize>>, o: usize)
    ensures
        pipeline::concat(v).contains(o) <==> exists|i: int, j: int|
            0 <= i < v.len() && 0 <= j < v[i].len() && #[trigger] v[i][j] == o,
    decreases v.len(),
{
    if v.len() > 0 {
        let w = v.drop_last();
        lemma_concat_contains(w, o);
        let c = pipeline::concat(v);
        if c.contains(o) {
            let m = choose|m: int| 0 <= m < c.len() && c[m] == o;
            if m < pipeline::concat(w).len() {
                assert(pipeline::concat(w)[m] == o);
                let (i, j) = choose|i: int, j: int|
                    0 <= i < w.len() && 0 <= j < w[i].len() && #[trigger] w[i][j] == o;
                assert(v[i][j] == o);
            } else {
                assert(v[v.len() - 1][m - pipeline::concat(w).len()] == o);
            }
        }
        if exists|i: int, j: int|
            0 <= i < v.len() && 0 <= j < v[i].len() && #[trigger] v[i][j] == o {
            let (i, j) = choose|i: int, j: int|
                0 <= i < v.len() && 0 <= j < v[i].len() && #[trigger] v[i][j] == o;
            if i < w.len() {
                assert(w[i][j] == o);
                let m = choose|m: int|
                    0 <= m < pipeline::concat(w).len() && pipeline::concat(w)[m] == o;
                assert(c[m] == o);
            } else {
                assert(c[pipeline::concat(w).len() + j] == o);
            }
        }
    }
}

/// After merging down to round `r`, every option of that round has its place.
proof fn lemma_merged(
    k: nat,
    rounds: Seq<Seq<Seq<usize>>>,
    logits: Seq<Seq<Seq<u32>>>,
    r: nat,
)
    requires
        mergeable(k, rounds, logits),
        r < rounds.len(),
    ensures
        forall|i: int, j: int|
            0 <= i < rounds[r as int].len() && 0 <= j < rounds[r as int][i].len() ==> placed(
                merged(rounds, logits, r),
                #[trigger] rounds[r as int][i][j],
            ),
        forall|o: usize| #[trigger]
            placed(merged(rounds, logits, r), o) ==> exists|s: int, i: int, j: int|
                r <= s < rounds.len() && 0 <= i < rounds[s].len() && 0 <= j < rounds[s][i].len()
                    && #[trigger] rounds[s][i][j] == o,
        pipeline::concat(rounds.last()).no_duplicates() ==> orderly(merged(rounds, logits, r)),
    decreases rounds.len() - r,
{
    let last = rounds.len() - 1;
    let acc = merged(rounds, logits, r);
    if r + 1 >= rounds.len() {
        let b = rounds[last][0];
        assert(rounds.last() == rounds[last]);
        assert forall|i: int, j: int|
            0 <= i < rounds[r as int].len() && 0 <= j < rounds[r as int][i].len() implies placed(
            acc,
            #[trigger] rounds[r as int][i][j],
        ) by {
            assert(acc[j].option == rounds[r as int][i][j]);
        }
        assert forall|o: usize| #[trigger] placed(acc, o) implies exists|s: int, i: int, j: int|
            r <= s < rounds.len() && 0 <= i < rounds[s].len() && 0 <= j < rounds[s][i].len()
                && #[trigger] rounds[s][i][j] == o by {
            let m = choose|m: int| 0 <= m < acc.len() && (#[trigger] acc[m]).option == o;
            assert(rounds[last][0][m] == o);
        }
        if pipeline::concat(rounds.last()).no_duplicates() {
            assert(rounds.last().drop_last() =~= Seq::empty());
            reveal_with_fuel(pipeline::concat, 2);
            assert(pipeline::concat(rounds.last()) =~= b);
            assert forall|i: int, j: int| 0 <= i < j < acc.len() implies (#[trigger] acc[i]).option
                != (#[trigger] acc[j]).option by {
                assert(b[i] != b[j]);
            }
        }
    } else {
        lemma_merged(k, rounds, logits, r + 1);
        let before = merged(rounds, logits, r + 1);
        let round = rounds[r as int];
        let next = rounds[r as int + 1];
        assert forall|i: int| 0 <= i < round.len() implies has_placed(before, #[trigger] round[i]) by {
            assert(sends_one(rounds[r as int][i], next));
            let j = choose|j: int|
                0 <= j < round[i].len() && pipeline::concat(next).contains(
                    #[trigger] round[i][j],
                );
            lemma_concat_contains(next, round[i][j]);
            let (a, b) = choose|a: int, b: int|
                0 <= a < next.len() && 0 <= b < next[a].len()
                    && #[trigger] next[a][b] == round[i][j];
            assert(placed(before, next[a][b]));
        }
        lemma_round_placed(before, round, logits[r as int], round.len());
        assert forall|o: usize| #[trigger] placed(acc, o) implies exists|s: int, i: int, j: int|
            r <= s < rounds.len() && 0 <= i < rounds[s].len() && 0 <= j < rounds[s][i].len()
                && #[trigger] rounds[s][i][j] == o by {
            if placed(before, o) {
                let (s, i, j) = choose|s: int, i: int, j: int|
                    r + 1 <= s < rounds.len() && 0 <= i < rounds[s].len() && 0 <= j
                        < rounds[s][i].len() && #[trigger] rounds[s][i][j] == o;
                assert(rounds[s][i][j] == o);
            } else {
                let (i, j) = choose|i: int, j: int|
                    0 <= i < round.len() && 0 <= j < round[i].len() && #[trigger] round[i][j] == o;
                assert(rounds[r as int][i][j] == o);
            }
        }
    }
}

/// Merging places every option of the first round once: a finalist on its own, any other after
/// the leader it is placed relative to.
pub proof fn lemma_every_option_is_placed(
    k: nat,
    rounds: Seq<Seq<Seq<usize>>>,
    logits: Seq<Seq<Seq<u32>>>,
)
    requires
        mergeable(k, rounds, logits),
        pipeline::concat(rounds[0]) == pipeline::indices(k),
        pipeline::concat(rounds.last()).no_duplicates(),
        k <= usize::MAX,
    ensures
        forall|o: usize| o < k <==> #[trigger] placed(merged(rounds, logits, 0), o),
        orderly(merged(rounds, logits, 0)),
{
    lemma_merged(k, rounds, logits, 0);
    let acc = merged(rounds, logits, 0);
    assert forall|o: usize| o < k <==> #[trigger] placed(acc, o) by {
        if o < k {
            lemma_concat_contains(rounds[0], o);
            assert(pipeline::indices(k)[o as int] == o);
            let (i, j) = choose|i: int, j: int|
                0 <= i < rounds[0].len() && 0 <= j < rounds[0][i].len()
                    && #[trigger] rounds[0][i][j] == o;
            assert(placed(acc, rounds[0][i][j]));
        }
        if placed(acc, o) {
            let (s, i, j) = choose|s: int, i: int, j: int|
                0 <= s < rounds.len() && 0 <= i < rounds[s].len() && 0 <= j < rounds[s][i].len()
                    && #[trigger] rounds[s][i][j] == o;
            assert(sound_round(k, rounds[s]));
            assert(rounds[s][i].len() > 0);
        }
    }
}

/// Whether `marks` says of each option whether it has its place.
spec fn marks_placed(marks: Seq<bool>, acc: Seq<Placement>) -> bool {
    forall|o: int| 0 <= o < marks.len() ==> (#[trigger] marks[o] == placed(acc, o as usize))
}

/// Gives an option its place.
fn put_place(acc: &mut Vec<Placement>, marks: &mut Vec<bool>, p: Placement)
    requires
        p.option < old(marks)@.len(),
        marks_placed(old(marks)@, old(acc)@),
    ensures
        final(acc)@ == old(acc)@.push(p),
        final(marks)@.len() == old(marks)@.len(),
        marks_placed(final(marks)@, final(acc)@),
{
    let ghost before_acc = acc@;
    let ghost before_marks = marks@;
    let n: usize = marks.len();
    acc.push(p);
    marks.set(p.option, true);
    proof {
        assert forall|o: int| 0 <= o < n implies (#[trigger] marks@[o] == placed(
            acc@,
            o as usize,
        )) by {
            lemma_placed_push(before_acc, p, o as usize);
            assert(before_marks[o] == placed(before_acc, o as usize));
        }
    }
}

/// Puts the options of a batch that have no place yet relative to its leader.
fn place_batch(
    acc: &mut Vec<Placement>,
    marks: &mut Vec<bool>,
    batch: &Vec<usize>,
    logits: &Vec<u32>,
)
    requires
        marks_placed(old(marks)@, old(acc)@),
        batch@.len() == logits@.len(),
        forall|j: int| 0 <= j < batch@.len() ==> (#[trigger] batch@[j]) < old(marks)@.len(),
        has_placed(old(acc)@, batch@),
    ensures
        final(marks)@.len() == old(marks)@.len(),
        marks_placed(final(marks)@, final(acc)@),
        final(acc)@ == batch_placed(
            old(acc)@,
            batch@,
            logits@,
            leader_at(old(acc)@, batch@, logits@, batch@.len())->0,
            batch@.len(),
        ),
        leader_at(old(acc)@, batch@, logits@, batch@.len()) is Some,
{
    let ghost start = acc@;
    let n: usize = batch.len();
    let mut lead: Option<usize> = None;
    let mut i: usize = 0;
    while i < n
        invariant
            i <= n,
            n == batch@.len(),
            n == logits@.len(),
            acc@ == start,
            marks_placed(marks@, start),
            forall|j: int| 0 <= j < n ==> (#[trigger] batch@[j]) < marks@.len(),
            match lead {
                Some(l) => leader_at(start, batch@, logits@, i as nat) == Some(l as int) && l < i,
                None => leader_at(start, batch@, logits@, i as nat) is None,
            },
        decreases n - i,
    {
        proof {
            assert(batch@[i as int] < marks@.len());
            assert(marks@[batch@[i as int] as int] == placed(start, batch@[i as int]));
        }
        if marks[batch[i]] {
            match lead {
                None => {
                    lead = Some(i);
                },
                Some(l) => {
                    if !before(logits[i], logits[l]) {
                        lead = Some(i);
                    }
                },
            }
        }
        i += 1;
    }
    proof {
        lemma_leader_at(start, batch@, logits@, n as nat);
        let j = choose|j: int| 0 <= j < batch@.len() && placed(start, #[trigger] batch@[j]);
        assert(placed(start, batch@[j]));
    }
    match lead {
        Some(l) => {
            let mut j: usize = 0;
            while j < n
                invariant
                    j <= n,
                    n == batch@.len(),
                    n == logits@.len(),
                    l < n,
                    acc@ == batch_placed(start, batch@, logits@, l as int, j as nat),
                    marks_placed(marks@, acc@),
                    forall|j: int| 0 <= j < n ==> (#[trigger] batch@[j]) < marks@.len(),
                    marks@.len() == old(marks)@.len(),
                decreases n - j,
            {
                let o: usize = batch[j];
                proof {
                    assert(batch@[j as int] < marks@.len());
                    assert(marks@[o as int] == placed(acc@, o));
                }
                if !marks[o] {
                    put_place(
                        acc,
                        marks,
                        Placement {
                            option: o,
                            leader: Some(batch[l]),
                            leader_logit: logits[l],
                            logit: logits[j],
                        },
                    );
                }
                j += 1;
            }
        },
        None => {},
    }
}

/// Logits over every option: the final round's as they are, and each option eliminated in an
/// earlier round placed relative to its batch's leader, which has a place from a later round.
/// Each placement comes after the one of its leader.
pub fn merge_rounds(
    k: usize,
    rounds: &Vec<Vec<Vec<usize>>>,
    logits: &Vec<Vec<Vec<u32>>>,
) -> (r: Vec<Placement>)
    requires
        mergeable(k as nat, round_batches(rounds@), round_logits(logits@)),
        pipeline::concat(round_batches(rounds@).last()).no_duplicates(),
    ensures
        r@ == merged(round_batches(rounds@), round_logits(logits@), 0),
{
    let ghost rs = round_batches(rounds@);
    let ghost ls = round_logits(logits@);
    let mut acc: Vec<Placement> = Vec::new();
    let mut marks: Vec<bool> = Vec::new();
    let mut o: usize = 0;
    while o < k
        invariant
            o <= k,
            marks@.len() == o,
            forall|q: int| 0 <= q < o ==> !#[trigger] marks@[q],
        decreases k - o,
    {
        marks.push(false);
        o += 1;
    }
    let last: usize = rounds.len() - 1;
    let ghost batch = rs[last as int][0];
    let ghost final_logits = ls[last as int][0];
    let ghost done = finalists(batch, final_logits);
    proof {
        assert(rs.last() == rs[last as int]);
        assert(sound_round(k as nat, rs[last as int]));
        assert(matches_round(rs[last as int], ls[last as int]));
        assert(batch.len() > 0);
        assert(final_logits.len() == batch.len());
        assert(rs[last as int].drop_last() =~= Seq::empty());
        reveal_with_fuel(pipeline::concat, 2);
        assert(pipeline::concat(rs.last()) =~= batch);
        assert(acc@ =~= done.take(0));
        assert(rs[last as int][0] == rounds@[last as int]@[0]@);
        assert(ls[last as int][0] == logits@[last as int]@[0]@);
    }
    let n: usize = rounds[last][0].len();
    let mut i: usize = 0;
    while i < n
        invariant
            i <= n,
            n == batch.len(),
            final_logits.len() == n,
            last == rounds@.len() - 1,
            rounds@.len() == logits@.len(),
            rounds@[last as int]@.len() >= 1,
            logits@[last as int]@.len() >= 1,
            rounds@[last as int]@[0]@ == batch,
            logits@[last as int]@[0]@ == final_logits,
            done == finalists(batch, final_logits),
            forall|j: int| 0 <= j < n ==> (#[trigger] batch[j]) < k,
            marks@.len() == k,
            acc@ == done.take(i as int),
            marks_placed(marks@, acc@),
        decreases n - i,
    {
        proof {
            assert(batch[i as int] < k);
            assert(done.take(i + 1) =~= done.take(i as int).push(done[i as int]));
        }
        put_place(
            &mut acc,
            &mut marks,
            Placement {
                option: rounds[last][0][i],
                leader: None,
                leader_logit: 0,
                logit: logits[last][0][i],
            },
        );
        i += 1;
    }
    let mut r: usize = last;
    proof {
        assert(done.take(n as int) =~= done);
    }
    while r > 0
        invariant
            r <= last,
            last == rounds@.len() - 1,
            rs == round_batches(rounds@),
            ls == round_logits(logits@),
            mergeable(k as nat, rs, ls),
            acc@ == merged(rs, ls, r as nat),
            marks@.len() == k,
            marks_placed(marks@, acc@),
        decreases r,
    {
        let ghost later = acc@;
        r -= 1;
        let ghost round = rs[r as int];
        proof {
            lemma_merged(k as nat, rs, ls, (r + 1) as nat);
            assert(sound_round(k as nat, rs[r as int]));
            assert(matches_round(rs[r as int], ls[r as int]));
            assert forall|i: int| 0 <= i < round.len() implies has_placed(
                later,
                #[trigger] round[i],
            ) by {
                assert(sends_one(rs[r as int][i], rs[r + 1]));
                let j = choose|j: int|
                    0 <= j < round[i].len() && pipeline::concat(rs[r + 1]).contains(
                        #[trigger] round[i][j],
                    );
                lemma_concat_contains(rs[r + 1], round[i][j]);
                let (a, b) = choose|a: int, b: int|
                    0 <= a < rs[r + 1].len() && 0 <= b < rs[r + 1][a].len()
                        && #[trigger] rs[r + 1][a][b] == round[i][j];
                assert(placed(later, rs[r + 1][a][b]));
            }
        }
        let mut b: usize = 0;
        while b < rounds[r].len()
            invariant
                r < last,
                last == rounds@.len() - 1,
                rounds@.len() == logits@.len(),
                b <= rounds@[r as int]@.len(),
                rs == round_batches(rounds@),
                ls == round_logits(logits@),
                round == rs[r as int],
                sound_round(k as nat, round),
                matches_round(round, ls[r as int]),
                forall|i: int| 0 <= i < round.len() ==> has_placed(later, #[trigger] round[i]),
                acc@ == round_placed(later, round, ls[r as int], b as nat),
                marks@.len() == k,
                marks_placed(marks@, acc@),
            decreases rounds@[r as int]@.len() - b,
        {
            proof {
                assert(round[b as int] == rounds@[r as int]@[b as int]@);
                assert(ls[r as int][b as int] == logits@[r as int]@[b as int]@);
                lemma_round_placed(later, round, ls[r as int], b as nat);
                assert(has_placed(later, round[b as int]));
                let j = choose|j: int|
                    0 <= j < round[b as int].len() && placed(later, #[trigger] round[b as int][j]);
                assert(placed(acc@, round[b as int][j]));
                assert(round[b as int].len() > 0);
            }
            place_batch(&mut acc, &mut marks, &rounds[r][b], &logits[r][b]);
            b += 1;
        }
    }
    acc
}

// ---------------------------------------------------------------------------------------------
// What rounds promise

proof fn lemma_column_from(r: Seq<Seq<usize>>, rank: int, o: usize)
    requires
        rank >= 0,
        column(r, rank).contains(o),
    ensures
        exists|i: int, j: int|
            0 <= i < r.len() && 0 <= j < r[i].len() && #[trigger] r[i][j] == o,
    decreases r.len(),
{
    let c = column(r, rank);
    let m = choose|m: int| 0 <= m < c.len() && c[m] == o;
    let s = r.drop_last();
    let d = column(s, rank);
    if m < d.len() {
        assert(d[m] == o);
        lemma_column_from(s, rank, o);
        let (i, j) = choose|i: int, j: int|
            0 <= i < s.len() && 0 <= j < s[i].len() && #[trigger] s[i][j] == o;
        assert(r[i][j] == o);
    } else {
        assert(r[r.len() - 1][rank] == o);
    }
}

proof fn lemma_runners_from(r: Seq<Seq<usize>>, to: nat, o: usize)
    requires
        runners_up(r, to).contains(o),
    ensures
        exists|i: int, j: int|
            0 <= i < r.len() && 0 <= j < r[i].len() && #[trigger] r[i][j] == o,
    decreases to,
{
    let a = runners_up(r, (to - 1) as nat);
    let c = column(r, to - 1);
    let m = choose|m: int| 0 <= m < runners_up(r, to).len() && runners_up(r, to)[m] == o;
    if m < a.len() {
        assert(a[m] == o);
        lemma_runners_from(r, (to - 1) as nat, o);
    } else {
        assert(c[m - a.len()] == o);
        lemma_column_from(r, to - 1, o);
    }
}

/// The options of the next round's batches, one after another, are those who stay, in the order
/// of the request.
pub proof fn lemma_next_concat(
    p: PartsV,
    round: Seq<Seq<usize>>,
    logits: Seq<Seq<u32>>,
    budget: Budget,
    cap: nat,
)
    ensures
        ({
            let limit = round_limit(p.head.len(), budget.option_budget as nat, cap);
            pipeline::concat(next_batches(p, round, logits, budget, cap)) == in_order(
                kept(p.opts, rankings(round, logits), limit),
                p.opts.len(),
            )
        }),
        next_batches(p, round, logits, budget, cap).len() >= 1,
{
    let limit = round_limit(p.head.len(), budget.option_budget as nat, cap);
    let keep = in_order(kept(p.opts, rankings(round, logits), limit), p.opts.len());
    if keep.len() <= 2 || sequence::tokens_in(p.opts, keep) <= limit {
        reveal_with_fuel(pipeline::concat, 2);
        assert(seq![keep].drop_last() =~= Seq::empty());
        assert(pipeline::concat(seq![keep]) =~= keep);
    } else {
        pipeline::lemma_packing_keeps_order_and_pairs(p.opts, keep, limit as nat);
    }
}

/// Every batch sends its leader on: the option with its highest logit is in the next round.
pub proof fn lemma_leaders_advance(
    p: PartsV,
    round: Seq<Seq<usize>>,
    logits: Seq<Seq<u32>>,
    budget: Budget,
    cap: nat,
    i: int,
)
    requires
        sound_round(p.opts.len(), round),
        0 <= i < round.len(),
        p.opts.len() <= usize::MAX,
    ensures
        pipeline::concat(next_batches(p, round, logits, budget, cap)).contains(
            ranked(round[i], logits[i])[0],
        ),
        exists|j: int| 0 <= j < round[i].len() && #[trigger] round[i][j] == ranked(
            round[i],
            logits[i],
        )[0],
{
    lemma_next_concat(p, round, logits, budget, cap);
    let limit = round_limit(p.head.len(), budget.option_budget as nat, cap);
    let r = rankings(round, logits);
    let keep = kept(p.opts, r, limit);
    lemma_in_order(keep, p.opts.len());
    let o = ranked(round[i], logits[i])[0];
    lemma_fitting(
        p.opts,
        runners_up(r, depth(r)),
        sequence::tokens_in(p.opts, leaders(r)) as int,
        limit,
    );
    assert(keep[i] == leaders(r)[i]);
    assert(keep.contains(o));
    lemma_ranking(float::places(logits[i]), round[i].len());
    let q = ranking(float::places(logits[i]), round[i].len())[0];
    assert(round[i].len() > 0);
    assert(0 <= q < round[i].len());
    assert(round[i][q] == o);
}

/// Nobody comes back: every option of the next round was in this one.
pub proof fn lemma_nobody_comes_back(
    p: PartsV,
    round: Seq<Seq<usize>>,
    logits: Seq<Seq<u32>>,
    budget: Budget,
    cap: nat,
    o: usize,
)
    requires
        sound_round(p.opts.len(), round),
        p.opts.len() <= usize::MAX,
        pipeline::concat(next_batches(p, round, logits, budget, cap)).contains(o),
    ensures
        pipeline::concat(round).contains(o),
        o < p.opts.len(),
{
    lemma_next_concat(p, round, logits, budget, cap);
    let limit = round_limit(p.head.len(), budget.option_budget as nat, cap);
    let r = rankings(round, logits);
    let keep = kept(p.opts, r, limit);
    lemma_in_order(keep, p.opts.len());
    let rest = runners_up(r, depth(r));
    let size = sequence::tokens_in(p.opts, leaders(r)) as int;
    lemma_fitting(p.opts, rest, size, limit);
    let next = in_order(keep, p.opts.len());
    let x = choose|x: int| 0 <= x < next.len() && next[x] == o;
    assert(keep.contains(next[x]));
    let m = choose|m: int| 0 <= m < keep.len() && keep[m] == o;
    if m < leaders(r).len() {
        assert(round[m].len() > 0);
        assert(r[m][0] == o);
    } else {
        assert(rest[m - leaders(r).len()] == o);
        lemma_runners_from(r, depth(r), o);
    }
    let (i, j) = choose|i: int, j: int|
        0 <= i < r.len() && 0 <= j < r[i].len() && #[trigger] r[i][j] == o;
    lemma_ranking(float::places(logits[i]), round[i].len());
    let q = ranking(float::places(logits[i]), round[i].len())[j];
    assert(0 <= q < round[i].len());
    assert(round[i][q] == o);
    lemma_concat_contains(round, o);
}

/// The weights of several options together.
spec fn weight(s: Seq<usize>, w: spec_fn(usize) -> nat) -> nat
    decreases s.len(),
{
    if s.len() == 0 {
        0
    } else {
        weight(s.drop_last(), w) + w(s.last())
    }
}

/// The weights of those options below `k` together.
spec fn weight_below(s: Seq<usize>, k: nat, w: spec_fn(usize) -> nat) -> nat
    decreases s.len(),
{
    if s.len() == 0 {
        0
    } else {
        weight_below(s.drop_last(), k, w) + if s.last() < k {
            w(s.last())
        } else {
            0
        }
    }
}

proof fn lemma_weight_below_step(s: Seq<usize>, k: nat, w: spec_fn(usize) -> nat)
    requires
        k < usize::MAX,
    ensures
        weight_below(s, k + 1, w) >= weight_below(s, k, w) + (if s.contains(k as usize) {
            w(k as usize)
        } else {
            0
        }),
        weight_below(s, k, w) <= weight(s, w),
    decreases s.len(),
{
    if s.len() > 0 {
        let t = s.drop_last();
        lemma_weight_below_step(t, k, w);
        if s.contains(k as usize) && s.last() != k as usize {
            let i = choose|i: int| 0 <= i < s.len() && s[i] == k as usize;
            assert(t[i] == k as usize);
        }
    }
}

proof fn lemma_in_order_weight(keep: Seq<usize>, k: nat, w: spec_fn(usize) -> nat)
    requires
        k <= usize::MAX,
    ensures
        weight(in_order(keep, k), w) <= weight_below(keep, k, w),
    decreases k,
{
    if k > 0 {
        lemma_in_order_weight(keep, (k - 1) as nat, w);
        lemma_weight_below_step(keep, (k - 1) as nat, w);
        let s = in_order(keep, (k - 1) as nat);
        if keep.contains((k - 1) as usize) {
            assert(s.push((k - 1) as usize).drop_last() =~= s);
        }
    }
}

proof fn lemma_weight_below_all(s: Seq<usize>, k: nat, w: spec_fn(usize) -> nat)
    ensures
        weight_below(s, k, w) <= weight(s, w),
    decreases s.len(),
{
    if s.len() > 0 {
        lemma_weight_below_all(s.drop_last(), k, w);
    }
}

proof fn lemma_weight_is_tokens(s: Seq<usize>, opts: Seq<Seq<u32>>)
    ensures
        weight(s, |o: usize| opts[o as int].len()) == sequence::tokens_in(opts, s),
    decreases s.len(),
{
    if s.len() > 0 {
        lemma_weight_is_tokens(s.drop_last(), opts);
    }
}

proof fn lemma_weight_is_len(s: Seq<usize>)
    ensures
        weight(s, |o: usize| 1nat) == s.len(),
    decreases s.len(),
{
    if s.len() > 0 {
        lemma_weight_is_len(s.drop_last());
    }
}

pub proof fn lemma_tokens_in_add(opts: Seq<Seq<u32>>, a: Seq<usize>, b: Seq<usize>)
    ensures
        sequence::tokens_in(opts, a + b) == sequence::tokens_in(opts, a) + sequence::tokens_in(
            opts,
            b,
        ),
    decreases b.len(),
{
    if b.len() == 0 {
        assert(a + b =~= a);
    } else {
        assert((a + b).drop_last() =~= a + b.drop_last());
        lemma_tokens_in_add(opts, a, b.drop_last());
    }
}

/// Those who fit, fit together.
proof fn lemma_fitting_fits(opts: Seq<Seq<u32>>, list: Seq<usize>, size: int, limit: int)
    ensures
        fitting(opts, list, size, limit) > 0 ==> size + sequence::tokens_in(
            opts,
            list.take(fitting(opts, list, size, limit) as int),
        ) <= limit,
    decreases list.len(),
{
    lemma_fitting(opts, list, size, limit);
    if list.len() > 0 && size + opts[list[0] as int].len() <= limit {
        let rest = list.skip(1);
        let more = size + opts[list[0] as int].len();
        lemma_fitting(opts, rest, more, limit);
        lemma_fitting_fits(opts, rest, more, limit);
        let n = fitting(opts, rest, more, limit) as int;
        assert(list.take(n + 1) =~= seq![list[0]] + rest.take(n));
        lemma_tokens_in_add(opts, seq![list[0]], rest.take(n));
        assert(seq![list[0]].drop_last() =~= Seq::empty());
        reveal_with_fuel(sequence::tokens_in, 2);
        if n == 0 {
            assert(rest.take(0) =~= Seq::empty());
        }
    }
}

/// Rounds come to an end: when the next round still runs in batches, it has no more options than
/// this one had batches, each of which held at least two.
pub proof fn lemma_rounds_shrink(
    p: PartsV,
    round: Seq<Seq<usize>>,
    logits: Seq<Seq<u32>>,
    budget: Budget,
    cap: nat,
)
    requires
        sound_round(p.opts.len(), round),
        p.opts.len() <= usize::MAX,
    ensures
        next_batches(p, round, logits, budget, cap).len() > 1 ==> pipeline::concat(
            next_batches(p, round, logits, budget, cap),
        ).len() <= round.len(),
{
    if next_batches(p, round, logits, budget, cap).len() > 1 {
        lemma_next_concat(p, round, logits, budget, cap);
        let limit = round_limit(p.head.len(), budget.option_budget as nat, cap);
        let r = rankings(round, logits);
        let first = leaders(r);
        let rest = runners_up(r, depth(r));
        let size = sequence::tokens_in(p.opts, first) as int;
        let n = fitting(p.opts, rest, size, limit) as int;
        let keep = kept(p.opts, r, limit);
        let k = p.opts.len();
        lemma_fitting(p.opts, rest, size, limit);
        lemma_fitting_fits(p.opts, rest, size, limit);
        lemma_tokens_in_add(p.opts, first, rest.take(n));
        let tokens = |o: usize| p.opts[o as int].len();
        lemma_in_order_weight(keep, k, tokens);
        lemma_weight_below_all(keep, k, tokens);
        lemma_weight_is_tokens(keep, p.opts);
        lemma_weight_is_tokens(in_order(keep, k), p.opts);
        assert(n == 0);
        assert(rest.take(0) =~= Seq::empty());
        assert(keep =~= first);
        let one = |o: usize| 1nat;
        lemma_in_order_weight(keep, k, one);
        lemma_weight_below_all(keep, k, one);
        lemma_weight_is_len(keep);
        lemma_weight_is_len(in_order(keep, k));
    }
}

/// An option of a batch whose logit no other of the batch exceeds.
pub open spec fn leads(batch: Seq<usize>, logits: Seq<u32>, j: int) -> bool {
    &&& 0 <= j < batch.len()
    &&& forall|k: int|
        0 <= k < batch.len() ==> !float::greater(#[trigger] logits[k], logits[j])
}

/// Whether an option that leads a batch is among `all`.
pub open spec fn sends_leader(batch: Seq<usize>, logits: Seq<u32>, all: Seq<usize>) -> bool {
    exists|j: int| #[trigger] leads(batch, logits, j) && all.contains(batch[j])
}

/// A round is followed by fewer: the options of the next one stand in the order of the request,
/// all of them come from this one, every batch sends on an option that leads it, and unless one row
/// is left they are fewer than before.
pub proof fn lemma_the_next_round(
    p: PartsV,
    round: Seq<Seq<usize>>,
    logits: Seq<Seq<u32>>,
    budget: Budget,
    cap: nat,
)
    requires
        sound_round(p.opts.len(), round),
        matches_round(round, logits),
        p.opts.len() <= usize::MAX,
        round.len() >= 1,
        forall|i: int| 0 <= i < round.len() ==> (#[trigger] round[i]).len() >= 2,
    ensures
        ({
            let next = next_batches(p, round, logits, budget, cap);
            let all = pipeline::concat(next);
            &&& forall|a: int, b: int| 0 <= a < b < all.len() ==> #[trigger] all[a] < #[trigger] all[b]
            &&& forall|o: usize| #[trigger] all.contains(o) ==> pipeline::concat(round).contains(o)
            &&& forall|i: int|
                0 <= i < round.len() ==> sends_leader(#[trigger] round[i], logits[i], all)
            &&& next.len() == 1 || all.len() < pipeline::concat(round).len()
        }),
{
    let next = next_batches(p, round, logits, budget, cap);
    let all = pipeline::concat(next);
    let limit = round_limit(p.head.len(), budget.option_budget as nat, cap);
    lemma_next_concat(p, round, logits, budget, cap);
    lemma_in_order(kept(p.opts, rankings(round, logits), limit), p.opts.len());
    assert forall|o: usize| #[trigger] all.contains(o) implies pipeline::concat(round).contains(
        o,
    ) by {
        lemma_nobody_comes_back(p, round, logits, budget, cap, o);
    }
    assert forall|i: int| 0 <= i < round.len() implies sends_leader(
        #[trigger] round[i],
        logits[i],
        all,
    ) by {
        lemma_leaders_advance(p, round, logits, budget, cap, i);
        let places = float::places(logits[i]);
        let n = round[i].len();
        lemma_ranking(places, n);
        let r = ranking(places, n);
        let j = r[0];
        assert(logits[i].len() == n);
        assert forall|k: int| 0 <= k < n implies !float::greater(
            #[trigger] logits[i][k],
            logits[i][j],
        ) by {
            assert(r.contains(k));
            let m = choose|m: int| 0 <= m < r.len() && r[m] == k;
            if m > 0 {
                assert(outranks(places, r[0], r[m]));
            }
            assert(places[k] <= places[j]);
        }
        assert(leads(round[i], logits[i], j));
        assert(all.contains(round[i][j]));
    }
    lemma_rounds_shrink(p, round, logits, budget, cap);
    lemma_pairs_outnumber(round);
}

/// Batches of two or more hold more options than there are batches.
proof fn lemma_pairs_outnumber(round: Seq<Seq<usize>>)
    requires
        forall|i: int| 0 <= i < round.len() ==> (#[trigger] round[i]).len() >= 2,
    ensures
        pipeline::concat(round).len() >= 2 * round.len(),
    decreases round.len(),
{
    if round.len() > 0 {
        let less = round.drop_last();
        assert forall|i: int| 0 <= i < less.len() implies (#[trigger] less[i]).len() >= 2 by {
            assert(less[i] == round[i]);
        }
        lemma_pairs_outnumber(less);
        assert(round[round.len() - 1].len() >= 2);
    }
}

// ---------------------------------------------------------------------------------------------
// Where options end up

/// The leader of a batch is the highest of its options that are placed already, the last of those;
/// a batch without a placed option has none.
pub proof fn lemma_leaders_are_the_highest_placed(
    acc: Seq<Placement>,
    batch: Seq<usize>,
    logits: Seq<u32>,
    n: nat,
    j: int,
)
    requires
        0 <= j < n <= batch.len(),
        placed(acc, batch[j]),
    ensures
        ({
            &&& leader_at(acc, batch, logits, n) matches Some(l)
            &&& 0 <= l < n
            &&& placed(acc, batch[l])
            &&& float::place(logits[j]) <= float::place(logits[l])
            &&& j > l ==> float::place(logits[j]) < float::place(logits[l])
        }),
    decreases n,
{
    if j < n - 1 {
        lemma_leaders_are_the_highest_placed(acc, batch, logits, (n - 1) as nat, j);
    } else if leader_at(acc, batch, logits, (n - 1) as nat) is Some {
        lemma_leaders_are_placed(acc, batch, logits, (n - 1) as nat);
    }
}

proof fn lemma_leaders_are_placed(
    acc: Seq<Placement>,
    batch: Seq<usize>,
    logits: Seq<u32>,
    n: nat,
)
    ensures
        leader_at(acc, batch, logits, n) matches Some(l) ==> 0 <= l < n && placed(acc, batch[l]),
    decreases n,
{
    if n > 0 {
        lemma_leaders_are_placed(acc, batch, logits, (n - 1) as nat);
    }
}

/// Placing a batch keeps what was placed and places the others of the batch behind their leader,
/// each with its own logit and the leader's.
pub proof fn lemma_options_are_placed_behind_their_leader(
    acc: Seq<Placement>,
    batch: Seq<usize>,
    logits: Seq<u32>,
    lead: int,
    n: nat,
    i: int,
)
    requires
        n <= batch.len(),
    ensures
        ({
            let after = batch_placed(acc, batch, logits, lead, n);
            &&& after.len() >= acc.len()
            &&& 0 <= i < acc.len() ==> after[i] == acc[i]
            &&& acc.len() <= i < after.len() ==> exists|j: int| #[trigger]
                stands_behind(acc, batch, logits, lead, after[i], j)
            &&& 0 <= i < n ==> placed(after, batch[i])
        }),
    decreases n,
{
    if n > 0 {
        let m = (n - 1) as nat;
        let rest = batch_placed(acc, batch, logits, lead, m);
        let after = batch_placed(acc, batch, logits, lead, n);
        lemma_options_are_placed_behind_their_leader(acc, batch, logits, lead, m, i);
        assert forall|k: int| 0 <= k < acc.len() implies rest[k] == acc[k] by {
            lemma_options_are_placed_behind_their_leader(acc, batch, logits, lead, m, k);
        }
        if acc.len() <= i < rest.len() {
            assert(after[i] == rest[i]);
        } else if i == rest.len() && i < after.len() {
            if placed(acc, batch[n - 1]) {
                let k = choose|k: int| 0 <= k < acc.len() && (#[trigger] acc[k]).option == batch[n
                    - 1];
                assert(rest[k].option == batch[n - 1]);
            }
            assert(stands_behind(acc, batch, logits, lead, after[i], n - 1));
        }
        if 0 <= i < m {
            let k = choose|k: int| 0 <= k < rest.len() && (#[trigger] rest[k]).option == batch[i];
            assert(after[k].option == batch[i]);
        } else if i == m {
            if !placed(rest, batch[i]) {
                assert(after[rest.len() as int].option == batch[i]);
            }
        }
    }
}

/// Whether a placement is that of the option at `j` of a batch, which was not placed before, behind
/// the batch's leader.
pub open spec fn stands_behind(
    acc: Seq<Placement>,
    batch: Seq<usize>,
    logits: Seq<u32>,
    lead: int,
    p: Placement,
    j: int,
) -> bool {
    &&& 0 <= j < batch.len()
    &&& !placed(acc, batch[j])
    &&& p.option == batch[j]
    &&& p.logit == logits[j]
    &&& p.leader == Some(batch[lead])
    &&& p.leader_logit == logits[lead]
}

/// The finalists are placed behind nobody, each with its own logit.
pub proof fn lemma_finalists_stand_behind_nobody(batch: Seq<usize>, logits: Seq<u32>, i: int)
    requires
        0 <= i < batch.len(),
    ensures
        finalists(batch, logits).len() == batch.len(),
        finalists(batch, logits)[i].option == batch[i],
        finalists(batch, logits)[i].logit == logits[i],
        finalists(batch, logits)[i].leader is None,
{
}

/// The runners-up of a rank are those of every batch that has one, and no rank is deeper than the
/// largest batch.
pub proof fn lemma_ranks_hold_one_of_each_batch(r: Seq<Seq<usize>>, rank: int, i: int)
    requires
        rank >= 0,
    ensures
        0 <= i < r.len() && r[i].len() > rank ==> column(r, rank).contains(r[i][rank]),
        0 <= i < column(r, rank).len() ==> exists|k: int|
            0 <= k < r.len() && (#[trigger] r[k]).len() > rank && r[k][rank] == column(r, rank)[i],
        0 <= i < r.len() ==> r[i].len() <= depth(r),
        column(r, rank).len() <= r.len(),
        rank >= depth(r) ==> column(r, rank).len() == 0,
    decreases r.len(),
{
    if r.len() > 0 {
        let less = r.drop_last();
        lemma_ranks_hold_one_of_each_batch(less, rank, i);
        let a = column(less, rank);
        let b = column(r, rank);
        if 0 <= i < less.len() && r[i].len() > rank {
            assert(less[i] == r[i]);
            let k = choose|k: int| 0 <= k < a.len() && a[k] == r[i][rank];
            assert(b[k] == r[i][rank]);
        } else if i == less.len() && r[i].len() > rank {
            assert(b[a.len() as int] == r[i][rank]);
        }
        if 0 <= i < a.len() {
            let k = choose|k: int|
                0 <= k < less.len() && (#[trigger] less[k]).len() > rank && less[k][rank] == a[i];
            assert(r[k] == less[k]);
        } else if i == a.len() && i < b.len() {
            assert(r[r.len() - 1][rank] == b[i]);
        }
        if 0 <= i < less.len() {
            assert(less[i] == r[i]);
        }
    }
}

/// A later round has the room of the first, but no more than the head leaves in a row.
pub proof fn lemma_rounds_fit_the_row(head: nat, option_budget: nat, cap: nat)
    ensures
        ({
            let limit = round_limit(head, option_budget, cap);
            &&& limit <= pipeline::option_room(head, option_budget)
            &&& head + 3 <= cap ==> head + limit + 3 <= cap
            &&& head + 3 > cap ==> limit <= 0
            &&& limit == pipeline::option_room(head, option_budget) || limit == cap - head - 3
                || limit == 0
        }),
{
}

/// Of a list as many options are taken as fit, in order, and the next would not.
pub proof fn lemma_what_fits_is_taken(
    opts: Seq<Seq<u32>>,
    list: Seq<usize>,
    size: int,
    limit: int,
)
    ensures
        ({
            let n = fitting(opts, list, size, limit) as int;
            &&& 0 <= n <= list.len()
            &&& n > 0 ==> size + sequence::tokens_in(opts, list.take(n)) <= limit
            &&& n < list.len() ==> size + sequence::tokens_in(opts, list.take(n))
                + opts[list[n] as int].len() > limit
        }),
    decreases list.len(),
{
    let n = fitting(opts, list, size, limit) as int;
    assert(list.take(0) =~= Seq::empty());
    assert(sequence::tokens_in(opts, Seq::empty()) == 0);
    if n > 0 {
        let first = opts[list[0] as int].len();
        let rest = list.skip(1);
        lemma_what_fits_is_taken(opts, rest, size + first, limit);
        let one = seq![list[0]];
        assert(list.take(n) =~= one + rest.take(n - 1));
        lemma_tokens_in_add(opts, one, rest.take(n - 1));
        assert(one.drop_last() =~= Seq::empty());
        assert(sequence::tokens_in(opts, one) == first);
        assert(rest.take(0) =~= Seq::empty());
        if n < list.len() {
            assert(rest[n - 1] == list[n]);
        }
    }
}

} // verus!
