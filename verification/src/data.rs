//! Training records: their examples and their targets.
//!
//! ```json
//! {"state": "...", "questions": {"topic": {"t": "choice", "ins": "...", "crit": {"a": "..", "b": ".."}}},
//!  "targets": {"topic": "b"}}
//! ```
//!
//! A target is an option key (`"b"`, `"true"`, `"2"`), an index, a boolean (`noul`), a
//! probability of `true` (`noul`), a list of per-option probabilities, or a `{key: prob}` map.
//! A logged request may hold the `answers` that were accepted in place of `targets`.

use vstd::prelude::*;
use vstd::string::*;

use crate::float;
use crate::json::{self, compact, get, Json, JsonV, Num, NumV};
use crate::sequence::{
    self, debug_text, QType, Question, QuestionError, QuestionErrorV, QuestionV,
};
use crate::text::{self, decimal, same};

verus! {

broadcast use crate::json::lemma_tree;

// ---------------------------------------------------------------------------------------------
// Targets

/// A target over a question's options, as its record gives it. No whole number among its weights
/// is negative, and not every weight is written as nothing. What its decimals come to is settled
/// when they are rounded: see [`is_distribution`].
#[derive(Debug, PartialEq, Eq)]
pub enum Target {
    /// All on one option.
    OneHot(usize),
    /// A probability of `true`, held between zero and one.
    Yes(Num),
    /// A weight per option.
    Soft(Vec<Num>),
    /// Weights of some options; the others have none.
    Sparse(Vec<(usize, Num)>),
}

/// The value of a target.
#[verifier::ext_equal]
pub enum TargetV {
    OneHot(nat),
    Yes(NumV),
    Soft(Seq<NumV>),
    Sparse(Seq<(nat, NumV)>),
}

/// The values of several numbers.
pub open spec fn num_values(v: Seq<Num>) -> Seq<NumV> {
    Seq::new(v.len(), |i: int| v[i]@)
}

/// The values of several weights.
pub open spec fn weight_values(v: Seq<(usize, Num)>) -> Seq<(nat, NumV)> {
    Seq::new(v.len(), |i: int| (v[i].0 as nat, v[i].1@))
}

impl View for Target {
    type V = TargetV;

    open spec fn view(&self) -> TargetV {
        match self {
            Target::OneHot(i) => TargetV::OneHot(*i as nat),
            Target::Yes(n) => TargetV::Yes(n@),
            Target::Soft(v) => TargetV::Soft(num_values(v@)),
            Target::Sparse(v) => TargetV::Sparse(weight_values(v@)),
        }
    }
}

/// Why a document is no target.
#[derive(Debug, PartialEq, Eq)]
pub enum TargetError {
    /// The index, and how many options there are.
    OutOfRange(u64, usize),
    NotAnIndex,
    /// The text, and the options' names.
    NotAnOption(String, Vec<String>),
    /// How many weights there are, and how many options.
    WrongCount(usize, usize),
    NotNumbers,
    UnknownOption(String),
    NotProbabilities,
    NotADistribution,
    /// The document as text.
    Unsupported(String),
}

/// The value of a target error.
#[verifier::ext_equal]
pub enum TargetErrorV {
    OutOfRange(nat, nat),
    NotAnIndex,
    NotAnOption(Seq<char>, Seq<Seq<char>>),
    WrongCount(nat, nat),
    NotNumbers,
    UnknownOption(Seq<char>),
    NotProbabilities,
    NotADistribution,
    Unsupported(Seq<char>),
}

impl View for TargetError {
    type V = TargetErrorV;

    open spec fn view(&self) -> TargetErrorV {
        match self {
            TargetError::OutOfRange(i, k) => TargetErrorV::OutOfRange(*i as nat, *k as nat),
            TargetError::NotAnIndex => TargetErrorV::NotAnIndex,
            TargetError::NotAnOption(s, keys) => TargetErrorV::NotAnOption(
                s@,
                text::texts(keys@),
            ),
            TargetError::WrongCount(n, k) => TargetErrorV::WrongCount(*n as nat, *k as nat),
            TargetError::NotNumbers => TargetErrorV::NotNumbers,
            TargetError::UnknownOption(s) => TargetErrorV::UnknownOption(s@),
            TargetError::NotProbabilities => TargetErrorV::NotProbabilities,
            TargetError::NotADistribution => TargetErrorV::NotADistribution,
            TargetError::Unsupported(s) => TargetErrorV::Unsupported(s@),
        }
    }
}

/// Several texts quoted, as a list.
pub open spec fn debug_list(v: Seq<Seq<char>>) -> Seq<char> {
    "["@ + text::joined(Seq::new(v.len(), |i: int| sequence::debug_of(v[i])), ", "@) + "]"@
}

impl TargetErrorV {
    /// The error in words.
    pub open spec fn words(self) -> Seq<char> {
        match self {
            TargetErrorV::OutOfRange(i, k) => "target index "@ + text::dec(i)
                + " out of range for "@ + text::dec(k) + " options"@,
            TargetErrorV::NotAnIndex => "index target must be a non-negative integer"@,
            TargetErrorV::NotAnOption(s, keys) => "target "@ + sequence::debug_of(s)
                + " is not one of "@ + debug_list(keys),
            TargetErrorV::WrongCount(n, k) => "soft target has "@ + text::dec(n)
                + " entries for "@ + text::dec(k) + " options"@,
            TargetErrorV::NotNumbers => "soft target must be numbers"@,
            TargetErrorV::UnknownOption(s) => "unknown option "@ + sequence::debug_of(s),
            TargetErrorV::NotProbabilities => "probabilities must be numbers"@,
            TargetErrorV::NotADistribution => "target must be a non-negative distribution"@,
            TargetErrorV::Unsupported(s) => "unsupported target "@ + s,
        }
    }
}

fn list_text(v: &Vec<String>) -> (r: String)
    ensures
        r@ == debug_list(text::texts(v@)),
{
    let ghost all = Seq::new(v@.len(), |i: int| sequence::debug_of(v@[i]@));
    let mut parts: Vec<String> = Vec::new();
    let mut i: usize = 0;
    proof {
        assert(text::texts(parts@) =~= all.take(0));
    }
    while i < v.len()
        invariant
            i <= v@.len(),
            all == Seq::new(v@.len(), |i: int| sequence::debug_of(v@[i]@)),
            text::texts(parts@) == all.take(i as int),
        decreases v@.len() - i,
    {
        text::texts_push(&mut parts, debug_text(v[i].as_str()));
        proof {
            assert(all.take(i + 1) =~= all.take(i as int).push(all[i as int]));
        }
        i += 1;
    }
    proof {
        assert(all.take(i as int) =~= all);
        assert(all =~= Seq::new(
            text::texts(v@).len(),
            |i: int| sequence::debug_of(text::texts(v@)[i]),
        ));
    }
    let mut r = "[".to_owned();
    r.append(text::join(&parts, ", ").as_str());
    r.append("]");
    r
}

impl TargetError {
    /// The error in words.
    pub fn message(&self) -> (r: String)
        ensures
            r@ == self@.words(),
    {
        match self {
            TargetError::OutOfRange(i, k) => {
                let mut r = "target index ".to_owned();
                r.append(decimal(*i).as_str());
                r.append(" out of range for ");
                r.append(decimal(*k as u64).as_str());
                r.append(" options");
                r
            },
            TargetError::NotAnIndex => "index target must be a non-negative integer".to_owned(),
            TargetError::NotAnOption(s, keys) => {
                let mut r = "target ".to_owned();
                r.append(debug_text(s.as_str()).as_str());
                r.append(" is not one of ");
                r.append(list_text(keys).as_str());
                r
            },
            TargetError::WrongCount(n, k) => {
                let mut r = "soft target has ".to_owned();
                r.append(decimal(*n as u64).as_str());
                r.append(" entries for ");
                r.append(decimal(*k as u64).as_str());
                r.append(" options");
                r
            },
            TargetError::NotNumbers => "soft target must be numbers".to_owned(),
            TargetError::UnknownOption(s) => {
                let mut r = "unknown option ".to_owned();
                r.append(debug_text(s.as_str()).as_str());
                r
            },
            TargetError::NotProbabilities => "probabilities must be numbers".to_owned(),
            TargetError::NotADistribution => {
                "target must be a non-negative distribution".to_owned()
            },
            TargetError::Unsupported(s) => {
                let mut r = "unsupported target ".to_owned();
                r.append(s.as_str());
                r
            },
        }
    }
}

/// Where a key first stands, or the end.
pub open spec fn key_place(keys: Seq<Seq<char>>, key: Seq<char>) -> nat
    decreases keys.len(),
{
    if keys.len() == 0 || keys[0] == key {
        0
    } else {
        1 + key_place(keys.skip(1), key)
    }
}

/// A key's place is where it first stands.
pub proof fn lemma_key_place(keys: Seq<Seq<char>>, key: Seq<char>, k: int)
    requires
        0 <= k <= keys.len(),
        forall|i: int| 0 <= i < k ==> #[trigger] keys[i] != key,
        k < keys.len() ==> keys[k] == key,
    ensures
        key_place(keys, key) == k,
    decreases keys.len(),
{
    if k > 0 {
        let t = keys.skip(1);
        assert(keys[0] != key);
        assert forall|i: int| 0 <= i < k - 1 implies #[trigger] t[i] != key by {
            assert(t[i] == keys[i + 1]);
        }
        lemma_key_place(t, key, k - 1);
    }
}

fn find_place(keys: &Vec<String>, key: &str) -> (r: usize)
    ensures
        r == key_place(text::texts(keys@), key@),
        r <= keys@.len(),
{
    let ghost all = text::texts(keys@);
    let mut i: usize = 0;
    while i < keys.len() && !same(keys[i].as_str(), key)
        invariant
            i <= keys@.len(),
            all == text::texts(keys@),
            forall|j: int| 0 <= j < i ==> #[trigger] all[j] != key@,
        decreases keys@.len() - i,
    {
        i += 1;
    }
    proof {
        lemma_key_place(all, key@, i as int);
    }
    i
}

/// A target on one option.
pub open spec fn on_option(i: nat, k: nat) -> Result<TargetV, TargetErrorV> {
    if i < k {
        Ok(TargetV::OneHot(i))
    } else {
        Err(TargetErrorV::OutOfRange(i, k))
    }
}

/// The weights of a map from option names, or what is wrong with the first that is wrong.
pub open spec fn sparse_of(keys: Seq<Seq<char>>, m: Seq<(Seq<char>, JsonV)>) -> Result<
    Seq<(nat, NumV)>,
    TargetErrorV,
>
    decreases m.len(),
{
    if m.len() == 0 {
        Ok(Seq::empty())
    } else {
        match sparse_of(keys, m.drop_last()) {
            Err(e) => Err(e),
            Ok(s) => {
                let (key, v) = m.last();
                if key_place(keys, key) >= keys.len() {
                    Err(TargetErrorV::UnknownOption(key))
                } else {
                    match v {
                        JsonV::Number(n) => Ok(s.push((key_place(keys, key), n))),
                        _ => Err(TargetErrorV::NotProbabilities),
                    }
                }
            },
        }
    }
}

/// Whether every value of a list is a number.
pub open spec fn all_numbers(a: Seq<JsonV>) -> bool {
    forall|i: int| 0 <= i < a.len() ==> (#[trigger] a[i]) is Number
}

/// Whether a weight is a negative whole number.
pub open spec fn below_nothing(n: NumV) -> bool {
    n matches NumV::Neg(i) && i < 0
}

/// Whether a weight is written as nothing.
pub open spec fn is_nothing(n: NumV) -> bool {
    match n {
        NumV::Nat(i) => i == 0,
        NumV::Neg(i) => i == 0,
        NumV::Float(t) => t == "0.0"@ || t == "-0.0"@,
    }
}

/// Whether weights can be a distribution: no whole number among them is negative, and not all of
/// them are written as nothing.
pub open spec fn can_be_distribution(w: Seq<NumV>) -> bool {
    &&& forall|i: int| 0 <= i < w.len() ==> !below_nothing(#[trigger] w[i])
    &&& exists|i: int| 0 <= i < w.len() && !is_nothing(#[trigger] w[i])
}

/// The weights alone of some options.
pub open spec fn weights_of(s: Seq<(nat, NumV)>) -> Seq<NumV> {
    Seq::new(s.len(), |i: int| s[i].1)
}

/// The target that a document is for a question.
pub open spec fn target_of(q: QuestionV, v: JsonV) -> Result<TargetV, TargetErrorV> {
    let keys = q.keys();
    let k = keys.len();
    match v {
        JsonV::Bool(b) => if q.t == QType::Noul {
            on_option(
                if b {
                    1
                } else {
                    0
                },
                k,
            )
        } else {
            Err(TargetErrorV::Unsupported(json::compact_text(v)))
        },
        JsonV::Number(n) => match n {
            NumV::Float(_) => if q.t == QType::Noul {
                Ok(TargetV::Yes(n))
            } else {
                Err(TargetErrorV::NotAnIndex)
            },
            NumV::Neg(_) => Err(TargetErrorV::NotAnIndex),
            NumV::Nat(i) => on_option(i, k),
        },
        JsonV::String(s) => if key_place(keys, s) < k {
            Ok(TargetV::OneHot(key_place(keys, s)))
        } else {
            Err(TargetErrorV::NotAnOption(s, keys))
        },
        JsonV::Array(a) => if a.len() != k {
            Err(TargetErrorV::WrongCount(a.len(), k))
        } else if !all_numbers(a) {
            Err(TargetErrorV::NotNumbers)
        } else if !can_be_distribution(Seq::new(a.len(), |i: int| a[i]->Number_0)) {
            Err(TargetErrorV::NotADistribution)
        } else {
            Ok(TargetV::Soft(Seq::new(a.len(), |i: int| a[i]->Number_0)))
        },
        JsonV::Object(m) => match sparse_of(keys, m) {
            Ok(s) => if can_be_distribution(weights_of(s)) {
                Ok(TargetV::Sparse(s))
            } else {
                Err(TargetErrorV::NotADistribution)
            },
            Err(e) => Err(e),
        },
        JsonV::Null => Err(TargetErrorV::Unsupported(json::compact_text(v))),
    }
}

fn one_hot(i: u64, k: usize) -> (r: Result<Target, TargetError>)
    ensures
        match r {
            Ok(t) => on_option(i as nat, k as nat) == Ok::<TargetV, TargetErrorV>(t@),
            Err(e) => on_option(i as nat, k as nat) == Err::<TargetV, TargetErrorV>(e@),
        },
{
    if i < k as u64 {
        Ok(Target::OneHot(i as usize))
    } else {
        Err(TargetError::OutOfRange(i, k))
    }
}

fn is_negative(n: &Num) -> (r: bool)
    ensures
        r == below_nothing(n@),
{
    match n {
        Num::Neg(i) => *i < 0,
        _ => false,
    }
}

fn is_zero(n: &Num) -> (r: bool)
    ensures
        r == is_nothing(n@),
{
    match n {
        Num::Nat(i) => *i == 0,
        Num::Neg(i) => *i == 0,
        Num::Float(t) => same(t.as_str(), "0.0") || same(t.as_str(), "-0.0"),
    }
}

fn check_soft(w: &Vec<Num>) -> (r: bool)
    ensures
        r == can_be_distribution(num_values(w@)),
{
    let ghost all = num_values(w@);
    let mut some = false;
    let mut i: usize = 0;
    while i < w.len()
        invariant
            i <= w@.len(),
            all == num_values(w@),
            forall|j: int| 0 <= j < i ==> !below_nothing(#[trigger] all[j]),
            some == exists|j: int| 0 <= j < i && !is_nothing(#[trigger] all[j]),
        decreases w@.len() - i,
    {
        proof {
            assert(all[i as int] == w@[i as int]@);
        }
        if is_negative(&w[i]) {
            return false;
        }
        if !is_zero(&w[i]) {
            some = true;
        }
        i += 1;
    }
    some
}

fn check_sparse(w: &Vec<(usize, Num)>) -> (r: bool)
    ensures
        r == can_be_distribution(weights_of(weight_values(w@))),
{
    let ghost all = weights_of(weight_values(w@));
    let mut some = false;
    let mut i: usize = 0;
    while i < w.len()
        invariant
            i <= w@.len(),
            all == weights_of(weight_values(w@)),
            forall|j: int| 0 <= j < i ==> !below_nothing(#[trigger] all[j]),
            some == exists|j: int| 0 <= j < i && !is_nothing(#[trigger] all[j]),
        decreases w@.len() - i,
    {
        proof {
            assert(all[i as int] == w@[i as int].1@);
        }
        if is_negative(&w[i].1) {
            return false;
        }
        if !is_zero(&w[i].1) {
            some = true;
        }
        i += 1;
    }
    some
}

/// Whether a rounded weight, by its bits, is a number that is not negative.
pub open spec fn is_weight(bits: u32) -> bool {
    float::is_number(bits) && !float::greater(0, bits)
}

/// Whether rounded weights, by their bits, are a distribution once they are scaled: none is
/// negative, and one is more than nothing.
pub fn is_distribution(w: &Vec<u32>) -> (r: bool)
    ensures
        r == ((forall|i: int| 0 <= i < w@.len() ==> is_weight(#[trigger] w@[i])) && exists|i: int|
            0 <= i < w@.len() && float::greater(#[trigger] w@[i], 0)),
{
    let mut some = false;
    let mut i: usize = 0;
    while i < w.len()
        invariant
            i <= w@.len(),
            forall|j: int| 0 <= j < i ==> is_weight(#[trigger] w@[j]),
            some == exists|j: int| 0 <= j < i && float::greater(#[trigger] w@[j], 0),
        decreases w@.len() - i,
    {
        if !float::is_a_number(w[i]) || float::exceeds(0, w[i]) {
            proof {
                assert(!is_weight(w@[i as int]));
            }
            return false;
        }
        if float::exceeds(w[i], 0) {
            some = true;
        }
        i += 1;
    }
    some
}

fn read_sparse(keys: &Vec<String>, m: &Vec<(String, Json)>) -> (r: Result<
    Vec<(usize, Num)>,
    TargetError,
>)
    ensures
        match r {
            Ok(s) => sparse_of(text::texts(keys@), json::members(m@)) == Ok::<
                Seq<(nat, NumV)>,
                TargetErrorV,
            >(weight_values(s@)),
            Err(e) => sparse_of(text::texts(keys@), json::members(m@)) == Err::<
                Seq<(nat, NumV)>,
                TargetErrorV,
            >(e@),
        },
{
    let ghost ks = text::texts(keys@);
    let ghost all = json::members(m@);
    let mut r: Vec<(usize, Num)> = Vec::new();
    let mut i: usize = 0;
    proof {
        assert(all.take(0) =~= Seq::empty());
        assert(weight_values(r@) =~= Seq::empty());
    }
    while i < m.len()
        invariant
            i <= m@.len(),
            ks == text::texts(keys@),
            all == json::members(m@),
            sparse_of(ks, all.take(i as int)) == Ok::<Seq<(nat, NumV)>, TargetErrorV>(
                weight_values(r@),
            ),
        decreases m@.len() - i,
    {
        proof {
            assert(all.take(i + 1).drop_last() =~= all.take(i as int));
            assert(all.take(i + 1).last() == all[i as int]);
        }
        let at: usize = find_place(keys, m[i].0.as_str());
        if at >= keys.len() {
            let e = TargetError::UnknownOption(m[i].0.clone());
            proof {
                lemma_sparse_fails(ks, all, i + 1);
            }
            return Err(e);
        }
        match &m[i].1 {
            Json::Number(n) => {
                let ghost now = weight_values(r@);
                let c = n.copy();
                r.push((at, c));
                proof {
                    assert(weight_values(r@) =~= now.push((at as nat, n@)));
                }
            },
            _ => {
                proof {
                    lemma_sparse_fails(ks, all, i + 1);
                }
                return Err(TargetError::NotProbabilities);
            },
        }
        i += 1;
    }
    proof {
        assert(all.take(i as int) =~= all);
    }
    Ok(r)
}

/// What is wrong with the first weights is wrong with all.
proof fn lemma_sparse_fails(keys: Seq<Seq<char>>, m: Seq<(Seq<char>, JsonV)>, n: int)
    requires
        0 <= n <= m.len(),
        sparse_of(keys, m.take(n)) is Err,
    ensures
        sparse_of(keys, m) == sparse_of(keys, m.take(n)),
    decreases m.len() - n,
{
    if n < m.len() {
        assert(m.take(n + 1).drop_last() =~= m.take(n));
        lemma_sparse_fails(keys, m, n + 1);
    } else {
        assert(m.take(n) =~= m);
    }
}

/// The target that a document is for a question.
pub fn parse_target(q: &Question, v: &Json) -> (r: Result<Target, TargetError>)
    ensures
        match r {
            Ok(t) => target_of(q@, v@) == Ok::<TargetV, TargetErrorV>(t@),
            Err(e) => target_of(q@, v@) == Err::<TargetV, TargetErrorV>(e@),
        },
{
    let keys = q.option_keys();
    let k: usize = keys.len();
    proof {
        assert(text::texts(keys@).len() == k);
    }
    match v {
        Json::Bool(b) => {
            if q.t == QType::Noul {
                one_hot(
                    if *b {
                        1
                    } else {
                        0
                    },
                    k,
                )
            } else {
                Err(TargetError::Unsupported(compact(v)))
            }
        },
        Json::Number(n) => match n {
            Num::Float(_) => {
                if q.t == QType::Noul {
                    Ok(Target::Yes(n.copy()))
                } else {
                    Err(TargetError::NotAnIndex)
                }
            },
            Num::Neg(_) => Err(TargetError::NotAnIndex),
            Num::Nat(i) => one_hot(*i, k),
        },
        Json::String(s) => {
            let at: usize = find_place(&keys, s.as_str());
            if at < k {
                Ok(Target::OneHot(at))
            } else {
                Err(TargetError::NotAnOption(s.clone(), keys))
            }
        },
        Json::Array(a) => {
            if a.len() != k {
                return Err(TargetError::WrongCount(a.len(), k));
            }
            let ghost all = json::values(a@);
            let mut w: Vec<Num> = Vec::new();
            let mut i: usize = 0;
            while i < a.len()
                invariant
                    i <= a@.len(),
                    all == json::values(a@),
                    w@.len() == i,
                    forall|j: int| 0 <= j < i ==> (#[trigger] all[j]) is Number,
                    forall|j: int| 0 <= j < i ==> (#[trigger] w@[j])@ == all[j]->Number_0,
                    v@ == JsonV::Array(all),
                    all.len() == k,
                    q@.keys().len() == k,
                decreases a@.len() - i,
            {
                match &a[i] {
                    Json::Number(n) => {
                        proof {
                            assert(all[i as int] == JsonV::Number(n@));
                        }
                        w.push(n.copy());
                    },
                    _ => {
                        proof {
                            assert(!(all[i as int] is Number));
                        }
                        return Err(TargetError::NotNumbers);
                    },
                }
                i += 1;
            }
            proof {
                assert(num_values(w@) =~= Seq::new(all.len(), |i: int| all[i]->Number_0));
            }
            if !check_soft(&w) {
                return Err(TargetError::NotADistribution);
            }
            Ok(Target::Soft(w))
        },
        Json::Object(m) => match read_sparse(&keys, m) {
            Ok(s) => if check_sparse(&s) {
                Ok(Target::Sparse(s))
            } else {
                Err(TargetError::NotADistribution)
            },
            Err(e) => Err(e),
        },
        Json::Null => Err(TargetError::Unsupported(compact(v))),
    }
}

/// Whether a target lies on `k` options: it names no other, a list has a weight for each, and
/// weights can be a distribution.
pub open spec fn lies_on(t: TargetV, k: nat) -> bool {
    match t {
        TargetV::OneHot(i) => i < k,
        TargetV::Yes(n) => n is Float,
        TargetV::Soft(w) => w.len() == k && can_be_distribution(w),
        TargetV::Sparse(w) => {
            &&& forall|i: int| 0 <= i < w.len() ==> (#[trigger] w[i]).0 < k
            &&& can_be_distribution(weights_of(w))
        },
    }
}

proof fn lemma_sparse_names_options(keys: Seq<Seq<char>>, m: Seq<(Seq<char>, JsonV)>)
    ensures
        sparse_of(keys, m) matches Ok(s) ==> s.len() == m.len() && forall|i: int|
            0 <= i < s.len() ==> (#[trigger] s[i]).0 < keys.len(),
    decreases m.len(),
{
    if m.len() > 0 {
        lemma_sparse_names_options(keys, m.drop_last());
    }
}

/// A target lies on the options of its question; a list or a map that cannot be a distribution is
/// no target.
pub proof fn lemma_targets_lie_on_the_options(q: QuestionV, v: JsonV)
    ensures
        target_of(q, v) matches Ok(t) ==> lies_on(t, q.keys().len()),
        v is Array && v->Array_0.len() == 0 ==> target_of(q, v) is Err,
        v is Object && v->Object_0.len() == 0 ==> target_of(q, v) is Err,
{
    if let JsonV::Object(m) = v {
        lemma_sparse_names_options(q.keys(), m);
    }
}

// ---------------------------------------------------------------------------------------------
// Records

/// A state and a question with its target, as a record gives it.
#[derive(Debug, PartialEq, Eq)]
pub struct Labelled {
    pub state: Json,
    pub question: Question,
    pub target: Target,
}

/// The value of a labelled question.
#[verifier::ext_equal]
pub struct LabelledV {
    pub state: JsonV,
    pub question: QuestionV,
    pub target: TargetV,
}

impl View for Labelled {
    type V = LabelledV;

    open spec fn view(&self) -> LabelledV {
        LabelledV { state: self.state@, question: self.question@, target: self.target@ }
    }
}

/// The values of several labelled questions.
pub open spec fn labelled_values(v: Seq<Labelled>) -> Seq<LabelledV> {
    Seq::new(v.len(), |i: int| v[i]@)
}

/// Why a document is no record.
#[derive(Debug, PartialEq, Eq)]
pub enum RecordError {
    NoQuestions,
    NoTargets,
    /// The id of a question, and what is wrong with it.
    Question(String, QuestionError),
    /// The id of a question, and what is wrong with its target.
    Target(String, TargetError),
}

/// The value of a record error.
#[verifier::ext_equal]
pub enum RecordErrorV {
    NoQuestions,
    NoTargets,
    Question(Seq<char>, QuestionErrorV),
    Target(Seq<char>, TargetErrorV),
}

impl View for RecordError {
    type V = RecordErrorV;

    open spec fn view(&self) -> RecordErrorV {
        match self {
            RecordError::NoQuestions => RecordErrorV::NoQuestions,
            RecordError::NoTargets => RecordErrorV::NoTargets,
            RecordError::Question(id, e) => RecordErrorV::Question(id@, e@),
            RecordError::Target(id, e) => RecordErrorV::Target(id@, e@),
        }
    }
}

impl RecordErrorV {
    /// The error in words.
    pub open spec fn words(self) -> Seq<char> {
        match self {
            RecordErrorV::NoQuestions => "record needs a \"questions\" object"@,
            RecordErrorV::NoTargets => "record needs a \"targets\" object"@,
            RecordErrorV::Question(id, e) => "question "@ + sequence::debug_of(id) + ": "@
                + e.words(),
            RecordErrorV::Target(id, e) => "target "@ + sequence::debug_of(id) + ": "@ + e.words(),
        }
    }
}

impl RecordError {
    /// The error in words.
    pub fn message(&self) -> (r: String)
        ensures
            r@ == self@.words(),
    {
        match self {
            RecordError::NoQuestions => "record needs a \"questions\" object".to_owned(),
            RecordError::NoTargets => "record needs a \"targets\" object".to_owned(),
            RecordError::Question(id, e) => {
                let mut r = "question ".to_owned();
                r.append(debug_text(id.as_str()).as_str());
                r.append(": ");
                r.append(e.message().as_str());
                r
            },
            RecordError::Target(id, e) => {
                let mut r = "target ".to_owned();
                r.append(debug_text(id.as_str()).as_str());
                r.append(": ");
                r.append(e.message().as_str());
                r
            },
        }
    }
}

/// The member of an answer that says what was answered, by the type of its question.
pub open spec fn answer_key(t: QType) -> Seq<char> {
    match t {
        QType::Choice => "choice"@,
        QType::Score => "probabilities"@,
        QType::Noul => "noul"@,
    }
}

/// The target that an accepted answer stands for: what was answered, when it is an answer as it was
/// given (an object that names a type), and else itself.
pub open spec fn accepted(t: QType, answer: JsonV) -> JsonV {
    match part(answer, "type"@) {
        Some(JsonV::String(_)) => match part(answer, answer_key(t)) {
            Some(v) => v,
            None => answer,
        },
        _ => answer,
    }
}

/// The labelled questions among several: one for each that has a target. `answers` says whether
/// the targets are answers that were accepted.
pub open spec fn labelled_in(
    state: JsonV,
    qs: Seq<(Seq<char>, JsonV)>,
    targets: Seq<(Seq<char>, JsonV)>,
    answers: bool,
) -> Result<Seq<LabelledV>, RecordErrorV>
    decreases qs.len(),
{
    if qs.len() == 0 {
        Ok(Seq::empty())
    } else {
        match labelled_in(state, qs.drop_last(), targets, answers) {
            Err(e) => Err(e),
            Ok(done) => {
                let (id, v) = qs.last();
                match json::member(targets, id) {
                    None => Ok(done),
                    Some(t) => match sequence::question_of(v) {
                        Err(e) => Err(RecordErrorV::Question(id, e)),
                        Ok(question) => match target_of(
                            question,
                            if answers {
                                accepted(question.t, t)
                            } else {
                                t
                            },
                        ) {
                            Err(e) => Err(RecordErrorV::Target(id, e)),
                            Ok(target) => Ok(done.push(LabelledV { state, question, target })),
                        },
                    },
                }
            },
        }
    }
}

/// A member of a document that may be an object.
pub open spec fn part(v: JsonV, key: Seq<char>) -> Option<JsonV> {
    match v {
        JsonV::Object(o) => json::member(o, key),
        _ => None,
    }
}

/// The targets of a record: its `targets`, or when it has none the `answers` that were accepted.
pub open spec fn labels_of(rec: JsonV) -> Option<(Seq<(Seq<char>, JsonV)>, bool)> {
    match part(rec, "targets"@) {
        Some(JsonV::Object(ts)) => Some((ts, false)),
        Some(_) => None,
        None => match part(rec, "answers"@) {
            Some(JsonV::Object(ts)) => Some((ts, true)),
            _ => None,
        },
    }
}

/// The labelled questions of a record.
pub open spec fn record_of(rec: JsonV) -> Result<Seq<LabelledV>, RecordErrorV> {
    let state = match part(rec, "state"@) {
        Some(s) => s,
        None => JsonV::Null,
    };
    match part(rec, "questions"@) {
        Some(JsonV::Object(qs)) => match labels_of(rec) {
            Some((ts, answers)) => labelled_in(state, qs, ts, answers),
            None => Err(RecordErrorV::NoTargets),
        },
        _ => Err(RecordErrorV::NoQuestions),
    }
}

fn get_part<'a>(v: &'a Json, key: &str) -> (r: Option<&'a Json>)
    ensures
        match r {
            Some(p) => part(v@, key@) == Some(p@),
            None => part(v@, key@) is None,
        },
{
    match v {
        Json::Object(o) => get(o, key),
        _ => None,
    }
}

fn key_of_answer(t: QType) -> (r: &'static str)
    ensures
        r@ == answer_key(t),
{
    match t {
        QType::Choice => "choice",
        QType::Score => "probabilities",
        QType::Noul => "noul",
    }
}

fn take_accepted<'a>(t: QType, answer: &'a Json) -> (r: &'a Json)
    ensures
        r@ == accepted(t, answer@),
{
    match get_part(answer, "type") {
        Some(Json::String(_)) => match get_part(answer, key_of_answer(t)) {
            Some(v) => v,
            None => answer,
        },
        _ => answer,
    }
}

fn get_labels<'a>(rec: &'a Json) -> (r: Option<(&'a Vec<(String, Json)>, bool)>)
    ensures
        match r {
            Some((ts, answers)) => labels_of(rec@) == Some((json::members(ts@), answers)),
            None => labels_of(rec@) is None,
        },
{
    match get_part(rec, "targets") {
        Some(Json::Object(ts)) => Some((ts, false)),
        Some(_) => None,
        None => match get_part(rec, "answers") {
            Some(Json::Object(ts)) => Some((ts, true)),
            _ => None,
        },
    }
}

/// What is wrong with the first questions is wrong with all.
proof fn lemma_labelled_fails(
    state: JsonV,
    qs: Seq<(Seq<char>, JsonV)>,
    targets: Seq<(Seq<char>, JsonV)>,
    answers: bool,
    n: int,
)
    requires
        0 <= n <= qs.len(),
        labelled_in(state, qs.take(n), targets, answers) is Err,
    ensures
        labelled_in(state, qs, targets, answers) == labelled_in(state, qs.take(n), targets, answers),
    decreases qs.len() - n,
{
    if n < qs.len() {
        assert(qs.take(n + 1).drop_last() =~= qs.take(n));
        lemma_labelled_fails(state, qs, targets, answers, n + 1);
    } else {
        assert(qs.take(n) =~= qs);
    }
}

/// Splits a record into one example per question that has a target, or an answer that was accepted
/// when the record has no targets.
pub fn record_examples(rec: &Json) -> (r: Result<Vec<Labelled>, RecordError>)
    ensures
        match r {
            Ok(v) => record_of(rec@) == Ok::<Seq<LabelledV>, RecordErrorV>(labelled_values(v@)),
            Err(e) => record_of(rec@) == Err::<Seq<LabelledV>, RecordErrorV>(e@),
        },
{
    let state = match get_part(rec, "state") {
        Some(s) => s.copy(),
        None => Json::Null,
    };
    match get_part(rec, "questions") {
        Some(Json::Object(qs)) => match get_labels(rec) {
            Some((ts, answers)) => {
                let ghost all = json::members(qs@);
                let ghost targets = json::members(ts@);
                let ghost sv = state@;
                let mut out: Vec<Labelled> = Vec::new();
                let mut i: usize = 0;
                proof {
                    assert(all.take(0) =~= Seq::empty());
                    assert(labelled_values(out@) =~= Seq::empty());
                }
                while i < qs.len()
                    invariant
                        i <= qs@.len(),
                        all == json::members(qs@),
                        targets == json::members(ts@),
                        sv == state@,
                        record_of(rec@) == labelled_in(sv, all, targets, answers),
                        labelled_in(sv, all.take(i as int), targets, answers) == Ok::<
                            Seq<LabelledV>,
                            RecordErrorV,
                        >(labelled_values(out@)),
                    decreases qs@.len() - i,
                {
                    proof {
                        assert(all.take(i + 1).drop_last() =~= all.take(i as int));
                        assert(all.take(i + 1).last() == all[i as int]);
                    }
                    match get(ts, qs[i].0.as_str()) {
                        None => {},
                        Some(t) => {
                            let question = match Question::from_json(&qs[i].1) {
                                Ok(q) => q,
                                Err(e) => {
                                    let id = qs[i].0.clone();
                                    proof {
                                        lemma_labelled_fails(sv, all, targets, answers, i + 1);
                                    }
                                    return Err(RecordError::Question(id, e));
                                },
                            };
                            let wanted = if answers {
                                take_accepted(question.t, t)
                            } else {
                                t
                            };
                            let target = match parse_target(&question, wanted) {
                                Ok(t) => t,
                                Err(e) => {
                                    let id = qs[i].0.clone();
                                    proof {
                                        lemma_labelled_fails(sv, all, targets, answers, i + 1);
                                    }
                                    return Err(RecordError::Target(id, e));
                                },
                            };
                            let one = Labelled { state: state.copy(), question, target };
                            let ghost now = labelled_values(out@);
                            let ghost value = one@;
                            out.push(one);
                            proof {
                                assert(labelled_values(out@) =~= now.push(value));
                            }
                        },
                    }
                    i += 1;
                }
                proof {
                    assert(all.take(i as int) =~= all);
                }
                Ok(out)
            },
            None => Err(RecordError::NoTargets),
        },
        _ => Err(RecordError::NoQuestions),
    }
}

/// Why a line of a file holds no record.
#[derive(Debug, PartialEq, Eq)]
pub enum LineError {
    /// The line is no JSON document.
    BadJson(String),
    Record(RecordError),
}

/// Why a line of a file holds no record.
#[verifier::ext_equal]
pub enum LineErrorV {
    BadJson(Seq<char>),
    Record(RecordErrorV),
}

impl View for LineError {
    type V = LineErrorV;

    open spec fn view(&self) -> LineErrorV {
        match *self {
            LineError::BadJson(m) => LineErrorV::BadJson(m@),
            LineError::Record(e) => LineErrorV::Record(e@),
        }
    }
}

/// The labelled questions of a line; a blank one has none.
pub open spec fn line_of(line: Seq<char>) -> Result<Seq<LabelledV>, LineErrorV> {
    if text::trimmed(line).len() == 0 {
        Ok(Seq::empty())
    } else {
        match json::json_of(vstd::utf8::encode_utf8(line)) {
            Err(e) => Err(LineErrorV::BadJson(e.1)),
            Ok(v) => match record_of(v) {
                Ok(s) => Ok(s),
                Err(e) => Err(LineErrorV::Record(e)),
            },
        }
    }
}

/// The labelled questions of lines, or the number of the first line at fault (the first is one)
/// and what is wrong with it.
pub open spec fn labelled_lines(lines: Seq<Seq<char>>) -> Result<
    Seq<LabelledV>,
    (nat, LineErrorV),
>
    decreases lines.len(),
{
    if lines.len() == 0 {
        Ok(Seq::empty())
    } else {
        match labelled_lines(lines.drop_last()) {
            Err(e) => Err(e),
            Ok(s) => match line_of(lines.last()) {
                Ok(t) => Ok(s + t),
                Err(e) => Err((lines.len(), e)),
            },
        }
    }
}

proof fn lemma_lines_fail(lines: Seq<Seq<char>>, n: int)
    requires
        0 <= n <= lines.len(),
        labelled_lines(lines.take(n)) is Err,
    ensures
        labelled_lines(lines) == labelled_lines(lines.take(n)),
    decreases lines.len() - n,
{
    if n < lines.len() {
        assert(lines.take(n + 1).drop_last() =~= lines.take(n));
        lemma_lines_fail(lines, n + 1);
    } else {
        assert(lines.take(n) =~= lines);
    }
}

/// The labelled questions of a line; a blank one has none.
pub fn line_examples(line: &str) -> (r: Result<Vec<Labelled>, LineError>)
    ensures
        match r {
            Ok(v) => line_of(line@) == Ok::<Seq<LabelledV>, LineErrorV>(labelled_values(v@)),
            Err(e) => line_of(line@) == Err::<Seq<LabelledV>, LineErrorV>(e@),
        },
{
    let t = text::trim(line);
    if t.as_str().unicode_len() == 0 {
        let none: Vec<Labelled> = Vec::new();
        proof {
            assert(labelled_values(none@) =~= Seq::empty());
        }
        return Ok(none);
    }
    match json::parse(line.as_bytes()) {
        Err(e) => Err(LineError::BadJson(e.message)),
        Ok(v) => match record_examples(&v) {
            Ok(x) => Ok(x),
            Err(e) => Err(LineError::Record(e)),
        },
    }
}

/// The labelled questions of a file with a record per line, or the number of the first line at
/// fault (the first is one) and what is wrong with it.
pub fn load_jsonl(file: &str) -> (r: Result<Vec<Labelled>, (usize, LineError)>)
    ensures
        match r {
            Ok(v) => labelled_lines(text::lines_of(file@)) == Ok::<
                Seq<LabelledV>,
                (nat, LineErrorV),
            >(labelled_values(v@)),
            Err((n, e)) => labelled_lines(text::lines_of(file@)) == Err::<
                Seq<LabelledV>,
                (nat, LineErrorV),
            >((n as nat, e@)),
        },
{
    let lines = text::lines(file);
    let ghost all = text::texts(lines@);
    let mut out: Vec<Labelled> = Vec::new();
    let mut i: usize = 0;
    proof {
        assert(all.take(0) =~= Seq::empty());
        assert(labelled_values(out@) =~= Seq::empty());
    }
    while i < lines.len()
        invariant
            i <= lines@.len(),
            all == text::texts(lines@),
            all == text::lines_of(file@),
            labelled_lines(all.take(i as int)) == Ok::<Seq<LabelledV>, (nat, LineErrorV)>(
                labelled_values(out@),
            ),
        decreases lines@.len() - i,
    {
        proof {
            assert(all.take(i + 1).drop_last() =~= all.take(i as int));
            assert(all.take(i + 1).last() == lines@[i as int]@);
        }
        match line_examples(lines[i].as_str()) {
            Ok(mut x) => {
                let ghost before = labelled_values(out@);
                let ghost more = labelled_values(x@);
                out.append(&mut x);
                proof {
                    assert(labelled_values(out@) =~= before + more);
                }
            },
            Err(e) => {
                proof {
                    lemma_lines_fail(all, i + 1);
                }
                return Err((i + 1, e));
            },
        }
        i += 1;
    }
    proof {
        assert(all.take(i as int) =~= all);
    }
    Ok(out)
}

/// The texts of a state and a question that a tokenizer is trained on.
pub open spec fn training_texts(state: JsonV, q: QuestionV) -> Seq<Seq<char>> {
    seq![sequence::criterion_text(state), q.t.label() + " question: "@ + q.ins] + q.rendered()
}

/// The texts of a state and a question that a tokenizer is trained on.
pub fn example_texts(state: &Json, q: &Question) -> (r: Vec<String>)
    ensures
        text::texts(r@) == training_texts(state@, q@),
{
    let mut r: Vec<String> = Vec::new();
    text::texts_push(&mut r, sequence::serialize_state(state));
    let mut t = q.t.name().to_owned();
    t.append(" question: ");
    t.append(q.ins.as_str());
    text::texts_push(&mut r, t);
    let mut opts = q.render_options();
    let ghost first = text::texts(r@);
    let ghost rest = text::texts(opts@);
    r.append(&mut opts);
    proof {
        assert(text::texts(r@) =~= first + rest);
        assert(first =~= seq![
            sequence::criterion_text(state@),
            q@.t.label() + " question: "@ + q@.ins,
        ]);
    }
    r
}

// ---------------------------------------------------------------------------------------------
// What records mean

/// A target means what it says: a name all on the option of that name, a whole number all on the
/// option at that place, a truth value all on the side of that name, a number with a fraction the
/// probability of `true`, a list a weight for each option in order, and a map the weight of the
/// option of each name.
pub proof fn lemma_targets_mean_what_they_say(q: QuestionV, v: JsonV, i: int)
    ensures
        target_of(q, v) matches Ok(t) ==> {
            &&& v matches JsonV::String(s) ==> {
                &&& t matches TargetV::OneHot(k)
                &&& k < q.keys().len()
                &&& q.keys()[k as int] == s
            }
            &&& v matches JsonV::Bool(b) ==> {
                &&& q.t == QType::Noul
                &&& t matches TargetV::OneHot(k)
                &&& k == if b {
                    1nat
                } else {
                    0
                }
                &&& q.crit is Noul ==> q.keys()[k as int] == if b {
                    "true"@
                } else {
                    "false"@
                }
            }
            &&& v matches JsonV::Number(NumV::Nat(n)) ==> t == TargetV::OneHot(n) && n
                < q.keys().len()
            &&& v matches JsonV::Number(NumV::Float(x)) ==> q.t == QType::Noul && t == TargetV::Yes(
                NumV::Float(x),
            )
            &&& v matches JsonV::Array(a) ==> {
                &&& a.len() == q.keys().len()
                &&& t matches TargetV::Soft(w)
                &&& w.len() == a.len()
                &&& 0 <= i < a.len() ==> a[i] == JsonV::Number(w[i])
            }
            &&& v matches JsonV::Object(m) ==> {
                &&& t matches TargetV::Sparse(w)
                &&& w.len() == m.len()
                &&& 0 <= i < m.len() ==> {
                    &&& w[i].0 < q.keys().len()
                    &&& q.keys()[w[i].0 as int] == m[i].0
                    &&& m[i].1 == JsonV::Number(w[i].1)
                }
            }
            &&& !(v is Null)
        },
{
    match v {
        JsonV::String(s) => {
            lemma_key_place_names(q.keys(), s);
        },
        JsonV::Object(m) => {
            if 0 <= i < m.len() {
                lemma_sparse_follows(q.keys(), m, i);
            }
            lemma_sparse_names_options(q.keys(), m);
        },
        JsonV::Array(a) => {
            if 0 <= i < a.len() && all_numbers(a) {
                assert(a[i] is Number);
            }
        },
        _ => {},
    }
}

proof fn lemma_key_place_names(keys: Seq<Seq<char>>, key: Seq<char>)
    ensures
        key_place(keys, key) < keys.len() ==> keys[key_place(keys, key) as int] == key,
    decreases keys.len(),
{
    if keys.len() > 0 && keys[0] != key {
        lemma_key_place_names(keys.skip(1), key);
    }
}

proof fn lemma_sparse_follows(keys: Seq<Seq<char>>, m: Seq<(Seq<char>, JsonV)>, i: int)
    requires
        0 <= i < m.len(),
    ensures
        sparse_of(keys, m) matches Ok(w) ==> {
            &&& w.len() == m.len()
            &&& w[i].0 < keys.len()
            &&& keys[w[i].0 as int] == m[i].0
            &&& m[i].1 == JsonV::Number(w[i].1)
        },
    decreases m.len(),
{
    lemma_sparse_names_options(keys, m);
    lemma_sparse_names_options(keys, m.drop_last());
    lemma_key_place_names(keys, m.last().0);
    if i < m.len() - 1 {
        lemma_sparse_follows(keys, m.drop_last(), i);
    }
}

/// Every example of a record is one of its questions with the target that stands under that
/// question's own name, about the record's state; and no question that has a target is left out.
pub proof fn lemma_questions_keep_their_own_target(
    state: JsonV,
    qs: Seq<(Seq<char>, JsonV)>,
    targets: Seq<(Seq<char>, JsonV)>,
    answers: bool,
    i: int,
)
    ensures
        labelled_in(state, qs, targets, answers) matches Ok(ex) ==> {
            &&& 0 <= i < ex.len() ==> ex[i].state == state && exists|j: int|
                0 <= j < qs.len() && #[trigger] labels_question(qs[j], targets, answers, ex[i])
            &&& 0 <= i < qs.len() && json::member(targets, qs[i].0) is Some ==> exists|j: int|
                0 <= j < ex.len() && labels_question(qs[i], targets, answers, #[trigger] ex[j])
        },
    decreases qs.len(),
{
    if qs.len() > 0 {
        let less = qs.drop_last();
        lemma_questions_keep_their_own_target(state, less, targets, answers, i);
        if let Ok(done) = labelled_in(state, less, targets, answers) {
            if let Ok(ex) = labelled_in(state, qs, targets, answers) {
                if 0 <= i < done.len() {
                    assert(ex[i] == done[i]);
                    let j = choose|j: int|
                        0 <= j < less.len() && #[trigger] labels_question(
                            less[j],
                            targets,
                            answers,
                            done[i],
                        );
                    assert(qs[j] == less[j]);
                    assert(labels_question(qs[j], targets, answers, ex[i]));
                } else if i == done.len() && i < ex.len() {
                    assert(labels_question(qs[qs.len() - 1], targets, answers, ex[i]));
                }
                if 0 <= i < less.len() && json::member(targets, qs[i].0) is Some {
                    assert(less[i] == qs[i]);
                    let j = choose|j: int|
                        0 <= j < done.len() && labels_question(
                            less[i],
                            targets,
                            answers,
                            #[trigger] done[j],
                        );
                    assert(ex[j] == done[j]);
                    assert(labels_question(qs[i], targets, answers, ex[j]));
                } else if i == less.len() && json::member(targets, qs[i].0) is Some {
                    assert(labels_question(qs[i], targets, answers, ex[done.len() as int]));
                }
            }
        }
    }
}

/// Whether an example is a question of a record with the target under its name, or what was
/// accepted in an answer under its name.
pub open spec fn labels_question(
    asked: (Seq<char>, JsonV),
    targets: Seq<(Seq<char>, JsonV)>,
    answers: bool,
    ex: LabelledV,
) -> bool {
    &&& sequence::question_of(asked.1) == Ok::<QuestionV, QuestionErrorV>(ex.question)
    &&& json::member(targets, asked.0) matches Some(t)
    &&& !answers ==> target_of(ex.question, t) == Ok::<TargetV, TargetErrorV>(ex.target)
    &&& answers ==> target_of(ex.question, accepted(ex.question.t, t)) == Ok::<
        TargetV,
        TargetErrorV,
    >(ex.target)
}

/// What was accepted in an answer is what it answered: the choice of a choice, the probabilities of
/// a score, the probability of a `noul`; and what is no answer stands for itself.
pub proof fn lemma_answers_stand_for_what_they_say(m: Seq<(Seq<char>, JsonV)>, s: Seq<char>, v: JsonV)
    requires
        json::member(m, "type"@) == Some(JsonV::String(s)),
    ensures
        json::member(m, "choice"@) == Some(v) ==> accepted(QType::Choice, JsonV::Object(m)) == v,
        json::member(m, "probabilities"@) == Some(v) ==> accepted(QType::Score, JsonV::Object(m))
            == v,
        json::member(m, "noul"@) == Some(v) ==> accepted(QType::Noul, JsonV::Object(m)) == v,
        !(v is Object) ==> accepted(QType::Choice, v) == v && accepted(QType::Score, v) == v
            && accepted(QType::Noul, v) == v,
{
}

/// A record is read by its names: its state, its questions, and its targets, or the accepted answers
/// when it has no targets.
pub proof fn lemma_records_are_read_by_name(
    o: Seq<(Seq<char>, JsonV)>,
    qs: Seq<(Seq<char>, JsonV)>,
    ts: Seq<(Seq<char>, JsonV)>,
)
    requires
        json::member(o, "questions"@) == Some(JsonV::Object(qs)),
    ensures
        ({
            let state = if json::member(o, "state"@) is Some {
                json::member(o, "state"@)->0
            } else {
                JsonV::Null
            };
            let r = record_of(JsonV::Object(o));
            &&& json::member(o, "targets"@) == Some(JsonV::Object(ts)) ==> r == labelled_in(
                state,
                qs,
                ts,
                false,
            )
            &&& json::member(o, "targets"@) is None && json::member(o, "answers"@) == Some(
                JsonV::Object(ts),
            ) ==> r == labelled_in(state, qs, ts, true)
            &&& json::member(o, "targets"@) is None && json::member(o, "answers"@) is None ==> r
                is Err
        }),
{
}

/// The examples of a file are those of its lines, in order; the first line at fault is named by its
/// number, counted from one. Blank lines have none.
pub proof fn lemma_lines_are_read_in_order(lines: Seq<Seq<char>>, more: Seq<char>)
    ensures
        labelled_lines(Seq::empty()) == Ok::<Seq<LabelledV>, (nat, LineErrorV)>(Seq::empty()),
        match (labelled_lines(lines), line_of(more)) {
            (Ok(a), Ok(b)) => labelled_lines(lines.push(more)) == Ok::<
                Seq<LabelledV>,
                (nat, LineErrorV),
            >(a + b),
            (Ok(a), Err(e)) => labelled_lines(lines.push(more)) == Err::<
                Seq<LabelledV>,
                (nat, LineErrorV),
            >((lines.len() + 1, e)),
            (Err(e), _) => labelled_lines(lines.push(more)) == Err::<
                Seq<LabelledV>,
                (nat, LineErrorV),
            >(e),
        },
        text::trimmed(more).len() == 0 ==> line_of(more) == Ok::<Seq<LabelledV>, LineErrorV>(
            Seq::empty(),
        ),
{
    assert(lines.push(more).drop_last() =~= lines);
}

/// A tokenizer is trained on the state, on the question and on every option as the model reads them.
pub proof fn lemma_tokenizers_learn_what_is_read(state: Seq<char>, q: QuestionV, i: int)
    requires
        0 <= i < q.rendered().len(),
    ensures
        ({
            let t = training_texts(JsonV::String(state), q);
            &&& t.len() == 2 + q.rendered().len()
            &&& t[0] == state
            &&& t[1] == (match q.t {
                QType::Choice => "choice"@,
                QType::Score => "score"@,
                QType::Noul => "noul"@,
            }) + " question: "@ + q.ins
            &&& t[2 + i] == q.rendered()[i]
        }),
{
}

/// Weights can be a distribution only when none is negative and not all are nothing; a single option
/// must be one of those there are.
pub proof fn lemma_weights_are_not_negative(w: Seq<NumV>, i: int, k: nat)
    requires
        0 <= i < w.len(),
    ensures
        (w[i] matches NumV::Neg(n) && n < 0) ==> !can_be_distribution(w),
        (forall|j: int| 0 <= j < w.len() ==> #[trigger] w[j] == NumV::Nat(0))
            ==> !can_be_distribution(w),
        (forall|j: int| 0 <= j < w.len() ==> (#[trigger] w[j]) is Nat) && (w[i] matches NumV::Nat(n)
            && n > 0) ==> can_be_distribution(w),
        on_option(i as nat, k) is Ok <==> i < k,
{
    if forall|j: int| 0 <= j < w.len() ==> #[trigger] w[j] == NumV::Nat(0) {
        if can_be_distribution(w) {
            let j = choose|j: int| 0 <= j < w.len() && !is_nothing(#[trigger] w[j]);
            assert(w[j] == NumV::Nat(0));
        }
    }
    if (forall|j: int| 0 <= j < w.len() ==> (#[trigger] w[j]) is Nat) && w[i] is Nat && w[i]->Nat_0
        > 0 {
        assert(!is_nothing(w[i]));
        assert forall|j: int| 0 <= j < w.len() implies !below_nothing(#[trigger] w[j]) by {
            assert(w[j] is Nat);
        }
    }
}

/// Nothing is nothing in any writing, and a weight is a number that is not negative.
pub proof fn lemma_weights_are_numbers(bits: u32)
    ensures
        is_nothing(NumV::Nat(0)),
        is_nothing(NumV::Float("0.0"@)),
        is_nothing(NumV::Float("-0.0"@)),
        !is_nothing(NumV::Nat(1)),
        is_weight(bits) ==> float::is_number(bits),
        bits <= 0x7f80_0000 ==> is_weight(bits),
        0x8000_0000 < bits <= 0xff80_0000 ==> !is_weight(bits),
        0x7f80_0000 < bits < 0x8000_0000 ==> !is_weight(bits),
{
}

/// An answer is taken from the member of its type.
pub proof fn lemma_answers_are_taken_by_type()
    ensures
        answer_key(QType::Choice) == "choice"@,
        answer_key(QType::Score) == "probabilities"@,
        answer_key(QType::Noul) == "noul"@,
{
}

} // verus!
