//! Augmentation against shortcuts: options change places and names, so the model reads options,
//! not names.

use vstd::prelude::*;
use vstd::string::*;

use crate::json::{self, Json, JsonV};
use crate::pipeline::{self, all_indices};
use crate::random::{self, Rng};
use crate::sequence::{self, is_blank, Criteria, CriteriaV, Question, QuestionV};
use crate::text::{self, decimal, pad_zeros, same};

verus! {

broadcast use crate::json::lemma_tree;

/// One training row: a state, a question, and the target distribution over its options, as the
/// bits of 32-bit floats.
#[derive(Debug, PartialEq, Eq)]
pub struct Example {
    pub state: Json,
    pub question: Question,
    pub target: Vec<u32>,
}

/// How often augmentation does what. A probability is held as the least number of 53 bits that,
/// over two to the 53rd, is not below it.
#[derive(Clone, Copy, PartialEq, Eq, Structural, Debug)]
pub struct AugmentConfig {
    /// Probability of shuffling a choice's option order.
    pub shuffle_options: u64,
    /// Probability of renaming a choice's labels to opaque codes (criteria are kept, and a label
    /// without a criterion becomes its own criterion).
    pub opaque_labels: u64,
}

impl Default for AugmentConfig {
    /// Options always change places, and names three times in ten.
    fn default() -> (r: AugmentConfig)
        ensures
            r.shuffle_options == 0x20_0000_0000_0000,
            r.opaque_labels == 2_702_159_776_422_298,
    {
        AugmentConfig { shuffle_options: 0x20_0000_0000_0000, opaque_labels: 2_702_159_776_422_298 }
    }
}

/// An opaque code for the option at a place, and the state after it: a letter, a number, or
/// random digits.
pub open spec fn coded(s: u64, style: nat, pos: nat) -> (u64, Seq<char>) {
    if style == 0 {
        (s, seq![(65 + pos % 26) as char])
    } else if style == 1 {
        (s, "option "@ + text::dec(pos + 1))
    } else {
        (
            random::stepped(s),
            "x"@ + text::zero_padded(text::dec(random::drawn_below(s, 100)), 2),
        )
    }
}

/// An option under a code: its criterion, or its label when it has none.
pub open spec fn described(option: (Seq<char>, JsonV)) -> JsonV {
    if sequence::blank(option.1) {
        JsonV::String(option.0)
    } else {
        option.1
    }
}

/// The first `n` options in their new order, under their own names or under codes.
pub open spec fn renamed(
    s: u64,
    opts: Seq<(Seq<char>, JsonV)>,
    idx: Seq<usize>,
    opaque: bool,
    style: nat,
    n: nat,
) -> (u64, Seq<(Seq<char>, JsonV)>)
    decreases n,
{
    if n == 0 {
        (s, Seq::empty())
    } else {
        let (t, done) = renamed(s, opts, idx, opaque, style, (n - 1) as nat);
        let option = opts[idx[n - 1] as int];
        if opaque {
            let (u, code) = coded(t, style, (n - 1) as nat);
            (u, done.push((code, described(option))))
        } else {
            (t, done.push(option))
        }
    }
}

/// The names of several options.
pub open spec fn names(opts: Seq<(Seq<char>, JsonV)>) -> Seq<Seq<char>> {
    Seq::new(opts.len(), |i: int| opts[i].0)
}

/// A name with `n` primes.
pub open spec fn primed(l: Seq<char>, n: nat) -> Seq<char>
    decreases n,
{
    if n == 0 {
        l
    } else {
        primed(l, (n - 1) as nat).push('\'')
    }
}

/// Whether `l` is the name `was` with as few primes as it takes to be none of `taken`.
pub open spec fn made_unique(was: Seq<char>, taken: Seq<Seq<char>>, l: Seq<char>) -> bool {
    exists|n: nat|
        {
            &&& l == #[trigger] primed(was, n)
            &&& !taken.contains(l)
            &&& forall|m: nat| m < n ==> taken.contains(#[trigger] primed(was, m))
        }
}

/// Whether `after` are the options `before` with primes on the names that came before.
pub open spec fn all_unique(
    before: Seq<(Seq<char>, JsonV)>,
    after: Seq<(Seq<char>, JsonV)>,
) -> bool {
    &&& after.len() == before.len()
    &&& forall|i: int|
        0 <= i < after.len() ==> {
            &&& (#[trigger] after[i]).1 == before[i].1
            &&& made_unique(before[i].0, names(after.take(i)), after[i].0)
        }
}

/// How many of several names have at least `n` characters.
spec fn longer(taken: Seq<Seq<char>>, n: nat) -> nat
    decreases taken.len(),
{
    if taken.len() == 0 {
        0
    } else {
        longer(taken.drop_last(), n) + if taken.last().len() >= n {
            1nat
        } else {
            0nat
        }
    }
}

proof fn lemma_longer(taken: Seq<Seq<char>>, l: Seq<char>)
    ensures
        longer(taken, l.len() + 1) <= longer(taken, l.len()),
        taken.contains(l) ==> longer(taken, l.len() + 1) < longer(taken, l.len()),
    decreases taken.len(),
{
    if taken.len() > 0 {
        lemma_longer(taken.drop_last(), l);
        if taken.contains(l) && taken.last() != l {
            let i = choose|i: int| 0 <= i < taken.len() && taken[i] == l;
            assert(taken.drop_last()[i] == l);
        }
    }
}

fn is_taken(opts: &Vec<(String, Json)>, l: &str) -> (r: bool)
    ensures
        r == names(json::members(opts@)).contains(l@),
{
    let ghost all = names(json::members(opts@));
    let mut i: usize = 0;
    while i < opts.len()
        invariant
            i <= opts@.len(),
            all == names(json::members(opts@)),
            forall|j: int| 0 <= j < i ==> #[trigger] all[j] != l@,
        decreases opts@.len() - i,
    {
        if same(opts[i].0.as_str(), l) {
            proof {
                assert(all[i as int] == l@);
            }
            return true;
        }
        i += 1;
    }
    false
}

/// Keeps labels unique (random codes can collide).
fn unique_labels(opts: Vec<(String, Json)>) -> (r: Vec<(String, Json)>)
    ensures
        all_unique(json::members(opts@), json::members(r@)),
{
    let ghost before = json::members(opts@);
    let mut r: Vec<(String, Json)> = Vec::new();
    let ghost n = opts@.len();
    for x in it: opts
        invariant
            it.seq().len() == n,
            before.len() == n,
            forall|j: int|
                0 <= j < n ==> before[j] == ((#[trigger] it.seq()[j]).0@, it.seq()[j].1@),
            r@.len() == it.index(),
            forall|j: int|
                0 <= j < it.index() ==> {
                    &&& (#[trigger] json::members(r@)[j]).1 == before[j].1
                    &&& made_unique(
                        before[j].0,
                        names(json::members(r@).take(j)),
                        json::members(r@)[j].0,
                    )
                },
    {
        let ghost i = it.index() as int;
        let ghost done = json::members(r@);
        let ghost taken = names(done);
        let (label, crit) = x;
        let ghost was = label@;
        let mut l = label;
        let ghost mut k: nat = 0;
        proof {
            assert(x == it.seq()[i]);
            assert(l@ == primed(was, 0));
        }
        while is_taken(&r, l.as_str())
            invariant
                done == json::members(r@),
                taken == names(done),
                l@ == primed(was, k),
                forall|m: nat| m < k ==> taken.contains(#[trigger] primed(was, m)),
            decreases longer(taken, l@.len()),
        {
            proof {
                lemma_longer(taken, l@);
            }
            l.push('\'');
            proof {
                k = k + 1;
            }
        }
        proof {
            assert(made_unique(was, taken, l@));
        }
        let ghost value = (l@, crit@);
        r.push((l, crit));
        proof {
            let now = json::members(r@);
            assert(now =~= done.push(value));
            assert forall|j: int| 0 <= j < i + 1 implies {
                &&& (#[trigger] now[j]).1 == before[j].1
                &&& made_unique(before[j].0, names(now.take(j)), now[j].0)
            } by {
                if j < i {
                    assert(now.take(j) =~= done.take(j));
                    assert(now[j] == done[j]);
                } else {
                    assert(now.take(j) =~= done);
                }
            }
        }
    }
    r
}

/// Names that were made unique are.
pub proof fn lemma_labels_are_unique(
    before: Seq<(Seq<char>, JsonV)>,
    after: Seq<(Seq<char>, JsonV)>,
    i: int,
    j: int,
)
    requires
        all_unique(before, after),
        0 <= i < j < after.len(),
    ensures
        after[i].0 != after[j].0,
{
    assert(made_unique(before[j].0, names(after.take(j)), after[j].0));
    assert(names(after.take(j))[i] == after[i].0);
}

/// What is drawn for a choice of `n` options: the new order, whether names become codes, their
/// style, and the state after it.
pub open spec fn plan_of(s: u64, n: nat, cfg: AugmentConfig) -> (Seq<usize>, bool, nat, u64) {
    let a = random::stepped(s);
    let (b, idx) = if random::drawn_unit(s) < cfg.shuffle_options {
        random::shuffled(a, pipeline::indices(n), n - 1)
    } else {
        (a, pipeline::indices(n))
    };
    let opaque = random::drawn_unit(b) < cfg.opaque_labels;
    let c = random::stepped(b);
    (idx, opaque, random::drawn_below(c, 3), random::stepped(c))
}

fn letter(pos: usize) -> (r: String)
    ensures
        r@ == seq![(65 + pos as nat % 26) as char],
{
    let mut r = String::new();
    r.push((65 + (pos % 26) as u8) as char);
    proof {
        assert(r@ =~= seq![(65 + pos as nat % 26) as char]);
    }
    r
}

fn write_code(rng: &mut Rng, style: usize, pos: usize) -> (r: String)
    requires
        pos < usize::MAX,
    ensures
        (final(rng).0, r@) == coded(old(rng).0, style as nat, pos as nat),
{
    if style == 0 {
        letter(pos)
    } else if style == 1 {
        let mut r = "option ".to_owned();
        r.append(decimal(pos as u64 + 1).as_str());
        r
    } else {
        let n: usize = rng.below(100);
        let mut r = "x".to_owned();
        r.append(pad_zeros(decimal(n as u64).as_str(), 2).as_str());
        r
    }
}

/// An example as augmentation leaves it: a choice's options in a new order, each with the target
/// it had, and possibly under codes. Other questions stay as they are.
pub fn augment(ex: &Example, cfg: &AugmentConfig, rng: &mut Rng) -> (r: Example)
    requires
        ex.question@.crit matches CriteriaV::Choice(c) ==> c.len() <= ex.target@.len(),
    ensures
        r.state@ == ex.state@,
        match ex.question@.crit {
            CriteriaV::Choice(opts) => {
                let (idx, opaque, style, s) = plan_of(old(rng).0, opts.len(), *cfg);
                let (t, options) = renamed(s, opts, idx, opaque, style, opts.len());
                &&& final(rng).0 == t
                &&& r.question@ == (QuestionV { crit: r.question@.crit, ..ex.question@ })
                &&& r.question@.crit matches CriteriaV::Choice(after) && all_unique(options, after)
                &&& r.target@ == Seq::new(opts.len(), |i: int| ex.target@[idx[i] as int])
                &&& idx.to_multiset() == pipeline::indices(opts.len()).to_multiset()
            },
            _ => r.question@ == ex.question@ && r.target@ == ex.target@ && *final(rng) == *old(
                rng,
            ),
        },
{
    let ghost seed = rng.0;
    let labels = match &ex.question.labels {
        Some(l) => Some((l.0.clone(), l.1.clone())),
        None => None,
    };
    match &ex.question.crit {
        Criteria::Choice(opts) => {
            let n: usize = opts.len();
            let ghost all = json::members(opts@);
            let ghost (gi, go, gs, gr) = plan_of(seed, n as nat, *cfg);
            let mut idx = all_indices(n);
            let shuffles = rng.unit() < cfg.shuffle_options;
            if shuffles {
                rng.shuffle(&mut idx);
            }
            let opaque = rng.unit() < cfg.opaque_labels;
            let style: usize = rng.below(3);
            proof {
                assert(idx@ == gi && opaque == go && style == gs && rng.0 == gr);
                lemma_indices_stay(idx@, n as nat);
            }
            let mut new: Vec<(String, Json)> = Vec::new();
            let mut target: Vec<u32> = Vec::new();
            let mut i: usize = 0;
            proof {
                assert(json::members(new@) =~= Seq::empty());
            }
            while i < n
                invariant
                    i <= n,
                    n == opts@.len(),
                    n <= ex.target@.len(),
                    all == json::members(opts@),
                    idx@ == gi,
                    idx@.len() == n,
                    opaque == go,
                    style == gs,
                    forall|j: int| 0 <= j < n ==> (#[trigger] idx@[j]) < n,
                    (rng.0, json::members(new@)) == renamed(gr, all, gi, go, gs, i as nat),
                    target@ == Seq::new(i as nat, |j: int| ex.target@[gi[j] as int]),
                decreases n - i,
            {
                proof {
                    assert(idx@[i as int] < n);
                }
                let o: usize = idx[i];
                if opaque {
                    let code = write_code(rng, style, i);
                    let crit = if is_blank(&opts[o].1) {
                        Json::String(opts[o].0.clone())
                    } else {
                        opts[o].1.copy()
                    };
                    json::add_member(&mut new, code.as_str(), crit);
                } else {
                    let crit = opts[o].1.copy();
                    json::add_member(&mut new, opts[o].0.as_str(), crit);
                }
                target.push(ex.target[o]);
                proof {
                    assert(target@ =~= Seq::new(
                        (i + 1) as nat,
                        |j: int| ex.target@[gi[j] as int],
                    ));
                }
                i += 1;
            }
            let after = unique_labels(new);
            let question = Question {
                t: ex.question.t,
                ins: ex.question.ins.clone(),
                crit: Criteria::Choice(after),
                labels,
            };
            Example { state: ex.state.copy(), question, target }
        },
        Criteria::Score(c) => {
            let question = Question {
                t: ex.question.t,
                ins: ex.question.ins.clone(),
                crit: Criteria::Score(sequence::copy_values(c)),
                labels,
            };
            Example { state: ex.state.copy(), question, target: copy_bits(&ex.target) }
        },
        Criteria::Noul { false_crit, true_crit } => {
            let question = Question {
                t: ex.question.t,
                ins: ex.question.ins.clone(),
                crit: Criteria::Noul {
                    false_crit: sequence::copy_maybe(false_crit.as_ref()),
                    true_crit: sequence::copy_maybe(true_crit.as_ref()),
                },
                labels,
            };
            Example { state: ex.state.copy(), question, target: copy_bits(&ex.target) }
        },
    }
}

fn copy_bits(v: &Vec<u32>) -> (r: Vec<u32>)
    ensures
        r@ == v@,
{
    let mut r: Vec<u32> = Vec::new();
    r.extend_from_slice(v.as_slice());
    proof {
        assert(r@ =~= v@);
    }
    r
}

/// Places that were shuffled are still places.
proof fn lemma_indices_stay(idx: Seq<usize>, n: nat)
    requires
        idx.to_multiset() == pipeline::indices(n).to_multiset(),
        n <= usize::MAX,
    ensures
        idx.len() == n,
        forall|j: int| 0 <= j < n ==> (#[trigger] idx[j]) < n,
{
    let all = pipeline::indices(n);
    idx.to_multiset_ensures();
    all.to_multiset_ensures();
    assert forall|j: int| 0 <= j < n implies (#[trigger] idx[j]) < n by {
        assert(idx.contains(idx[j]));
        assert(idx.to_multiset().count(idx[j]) > 0);
        assert(all.contains(idx[j]));
    }
}

proof fn lemma_renamed(
    s: u64,
    opts: Seq<(Seq<char>, JsonV)>,
    idx: Seq<usize>,
    opaque: bool,
    style: nat,
    n: nat,
)
    ensures
        ({
            let r = renamed(s, opts, idx, opaque, style, n).1;
            &&& r.len() == n
            &&& forall|i: int|
                0 <= i < n ==> (#[trigger] r[i]).1 == (if opaque {
                    described(opts[idx[i] as int])
                } else {
                    opts[idx[i] as int].1
                })
        }),
    decreases n,
{
    if n > 0 {
        lemma_renamed(s, opts, idx, opaque, style, (n - 1) as nat);
        let r = renamed(s, opts, idx, opaque, style, n).1;
        let q = renamed(s, opts, idx, opaque, style, (n - 1) as nat).1;
        assert forall|i: int| 0 <= i < n implies (#[trigger] r[i]).1 == (if opaque {
            described(opts[idx[i] as int])
        } else {
            opts[idx[i] as int].1
        }) by {
            if i < n - 1 {
                assert(r[i] == q[i]);
            }
        }
    }
}

/// Augmentation keeps a target on the same option: the option at a new place is the one whose
/// target stands there, with its criterion, or with its old label for one when it is under a code
/// and had none.
pub proof fn lemma_targets_stay_with_their_options(
    s: u64,
    opts: Seq<(Seq<char>, JsonV)>,
    cfg: AugmentConfig,
    after: Seq<(Seq<char>, JsonV)>,
    i: int,
)
    requires
        ({
            let (idx, opaque, style, t) = plan_of(s, opts.len(), cfg);
            all_unique(renamed(t, opts, idx, opaque, style, opts.len()).1, after)
        }),
        0 <= i < opts.len(),
    ensures
        ({
            let (idx, opaque, style, t) = plan_of(s, opts.len(), cfg);
            let from = opts[idx[i] as int];
            &&& after.len() == opts.len()
            &&& after[i].1 == if opaque && (from.1 == JsonV::Null || from.1 == JsonV::String(
                Seq::empty(),
            )) {
                JsonV::String(from.0)
            } else {
                from.1
            }
        }),
{
    let (idx, opaque, style, t) = plan_of(s, opts.len(), cfg);
    lemma_renamed(t, opts, idx, opaque, style, opts.len());
}

/// Augmentation follows its chances: options keep their places when they are never shuffled, and
/// their names when those are never replaced, which they always are when they are to be. No option
/// is lost or doubled.
pub proof fn lemma_augmentation_follows_its_chances(s: u64, n: nat, cfg: AugmentConfig)
    requires
        n <= usize::MAX,
    ensures
        ({
            let (idx, opaque, style, t) = plan_of(s, n, cfg);
            &&& cfg.shuffle_options == 0 ==> idx == pipeline::indices(n)
            &&& cfg.opaque_labels == 0 ==> !opaque
            &&& cfg.opaque_labels >= 0x20_0000_0000_0000 ==> opaque
            &&& style < 3
            &&& idx.len() == n
            &&& idx.to_multiset() == pipeline::indices(n).to_multiset()
        }),
{
    let (idx, opaque, style, t) = plan_of(s, n, cfg);
    let a = random::stepped(s);
    if n > 0 {
        random::lemma_shuffling_keeps_all(a, pipeline::indices(n), n - 1);
    }
    let b = if random::drawn_unit(s) < cfg.shuffle_options {
        random::shuffled(a, pipeline::indices(n), n - 1).0
    } else {
        a
    };
    let x = random::drawn(b);
    assert(x >> 11u64 < 0x20_0000_0000_0000) by (bit_vector);
    lemma_indices_stay(idx, n);
}

proof fn lemma_names_tell_nothing(
    s: u64,
    a: Seq<(Seq<char>, JsonV)>,
    b: Seq<(Seq<char>, JsonV)>,
    idx: Seq<usize>,
    jdx: Seq<usize>,
    style: nat,
    n: nat,
)
    ensures
        renamed(s, a, idx, true, style, n).0 == renamed(s, b, jdx, true, style, n).0,
        names(renamed(s, a, idx, true, style, n).1) == names(renamed(s, b, jdx, true, style, n).1),
    decreases n,
{
    if n > 0 {
        lemma_names_tell_nothing(s, a, b, idx, jdx, style, (n - 1) as nat);
        let x = renamed(s, a, idx, true, style, n).1;
        let y = renamed(s, b, jdx, true, style, n).1;
        let p = renamed(s, a, idx, true, style, (n - 1) as nat).1;
        let q = renamed(s, b, jdx, true, style, (n - 1) as nat).1;
        assert(names(p).len() == names(q).len());
        assert forall|i: int| 0 <= i < x.len() implies names(x)[i] == names(y)[i] by {
            if i < p.len() {
                assert(names(p)[i] == names(q)[i]);
                assert(x[i] == p[i] && y[i] == q[i]);
            }
        }
        assert(names(x) =~= names(y));
    } else {
        assert(names(renamed(s, a, idx, true, style, n).1) =~= names(
            renamed(s, b, jdx, true, style, n).1,
        ));
    }
}

/// Codes tell nothing of the options: whatever the options are and however they were put in order,
/// the same draws give the same codes. Without codes every option keeps its name.
pub proof fn lemma_codes_do_not_tell_options(
    s: u64,
    a: Seq<(Seq<char>, JsonV)>,
    b: Seq<(Seq<char>, JsonV)>,
    idx: Seq<usize>,
    jdx: Seq<usize>,
    style: nat,
    n: nat,
    i: int,
)
    requires
        0 <= i < n,
    ensures
        renamed(s, a, idx, true, style, n).1[i].0 == renamed(s, b, jdx, true, style, n).1[i].0,
        renamed(s, a, idx, false, style, n).1[i].0 == a[idx[i] as int].0,
    decreases n,
{
    lemma_names_tell_nothing(s, a, b, idx, jdx, style, n);
    lemma_renamed(s, a, idx, true, style, n);
    lemma_renamed(s, b, jdx, true, style, n);
    lemma_renamed(s, a, idx, false, style, n);
    assert(names(renamed(s, a, idx, true, style, n).1)[i] == names(
        renamed(s, b, jdx, true, style, n).1,
    )[i]);
    lemma_renamed(s, a, idx, false, style, (n - 1) as nat);
    if i < n - 1 {
        lemma_codes_do_not_tell_options(s, a, b, idx, jdx, style, (n - 1) as nat, i);
        assert(renamed(s, a, idx, false, style, n).1[i] == renamed(
            s,
            a,
            idx,
            false,
            style,
            (n - 1) as nat,
        ).1[i]);
    }
}

} // verus!
