//! What the command line means: data types, models and their names, engine settings and dates.

use vstd::prelude::*;
use vstd::string::*;

use crate::engine::EngineConfig;
use crate::model::Layout;
use crate::sequence::{self, debug_text};
use crate::serve;
use crate::text::{
    self, chars_of, decimal, has_char, holds, pad_zeros, same, split_once, text_of, texts_push,
};

verus! {

/// The number format that a model's weights are loaded in.
#[derive(Clone, Copy, PartialEq, Eq, Structural, Debug)]
pub enum Dtype {
    F32,
    F16,
    Bf16,
}

/// The number format of a name.
pub open spec fn dtype_named(s: Seq<char>) -> Option<Dtype> {
    if s == "f32"@ {
        Some(Dtype::F32)
    } else if s == "f16"@ {
        Some(Dtype::F16)
    } else if s == "bf16"@ {
        Some(Dtype::Bf16)
    } else {
        None
    }
}

/// The number format of a name; the error is a message.
pub fn parse_dtype(s: &str) -> (r: Result<Dtype, String>)
    ensures
        match r {
            Ok(d) => dtype_named(s@) == Some(d),
            Err(m) => dtype_named(s@) is None && m@ == "unknown dtype "@ + s@,
        },
{
    if same(s, "f32") {
        Ok(Dtype::F32)
    } else if same(s, "f16") {
        Ok(Dtype::F16)
    } else if same(s, "bf16") {
        Ok(Dtype::Bf16)
    } else {
        let mut m = "unknown dtype ".to_owned();
        m.append(s);
        Err(m)
    }
}

/// What is said of a number format that a device cannot multiply; `None` when it can.
pub fn unsupported(cpu: bool, d: Dtype) -> (r: Option<&'static str>)
    ensures
        match r {
            Some(m) => cpu && d == Dtype::Bf16 && m@
                == "BF16 needs a CUDA or Metal device: Candle's CPU backend has no BF16 matmul (use f16 or f32 on CPU)"@,
            None => !(cpu && d == Dtype::Bf16),
        },
{
    if cpu && d == Dtype::Bf16 {
        Some(
            "BF16 needs a CUDA or Metal device: Candle's CPU backend has no BF16 matmul (use f16 or f32 on CPU)",
        )
    } else {
        None
    }
}

// ---------------------------------------------------------------------------------------------
// Engine settings

/// Engine settings as they are given, or not.
#[derive(Clone, Copy, PartialEq, Eq, Structural, Debug)]
pub struct EngineArgs {
    pub workers: Option<usize>,
    pub threads_per_worker: Option<usize>,
    pub max_batch_rows: Option<usize>,
    /// Nanoseconds.
    pub batch_wait: u128,
    pub max_queue: usize,
    pub no_adaptive: bool,
}

/// A number, or one when it is zero.
pub open spec fn at_least_one(n: int) -> int {
    if n >= 1 {
        n
    } else {
        1
    }
}

impl EngineArgs {
    /// How many workers there are: as many as cores on a CPU and one elsewhere, unless given.
    pub open spec fn worker_count(self, cores: int, cpu: bool) -> int {
        at_least_one(
            match self.workers {
                Some(n) => n as int,
                None => if cpu {
                    cores
                } else {
                    1
                },
            },
        )
    }

    /// The engine settings: workers share the cores evenly, and requests run together only where
    /// that pays off, which is not on a CPU.
    pub fn config(&self, cores: usize, cpu: bool) -> (r: EngineConfig)
        ensures
            r.workers == self.worker_count(cores as int, cpu),
            r.threads_per_worker == (match self.threads_per_worker {
                Some(n) => n as int,
                None => at_least_one(cores as int / self.worker_count(cores as int, cpu)),
            }),
            r.max_batch_rows == at_least_one(
                match self.max_batch_rows {
                    Some(n) => n as int,
                    None => if cpu {
                        1
                    } else {
                        64
                    },
                },
            ),
            r.batch_wait == self.batch_wait,
            r.max_queue == at_least_one(self.max_queue as int),
            r.adaptive == !self.no_adaptive,
    {
        let workers: usize = match self.workers {
            Some(n) => n,
            None => if cpu {
                cores
            } else {
                1
            },
        };
        let workers: usize = if workers >= 1 {
            workers
        } else {
            1
        };
        let share: usize = cores / workers;
        let threads: usize = match self.threads_per_worker {
            Some(n) => n,
            None => if share >= 1 {
                share
            } else {
                1
            },
        };
        let rows: usize = match self.max_batch_rows {
            Some(n) => n,
            None => if cpu {
                1
            } else {
                64
            },
        };
        EngineConfig {
            workers,
            threads_per_worker: threads,
            max_batch_rows: if rows >= 1 {
                rows
            } else {
                1
            },
            batch_wait: self.batch_wait,
            max_queue: if self.max_queue >= 1 {
                self.max_queue
            } else {
                1
            },
            adaptive: !self.no_adaptive,
        }
    }
}

/// A limit, which zero turns off.
pub fn limit(n: usize) -> (r: Option<usize>)
    ensures
        r == (if n > 0 {
            Some(n)
        } else {
            None
        }),
{
    if n > 0 {
        Some(n)
    } else {
        None
    }
}

// ---------------------------------------------------------------------------------------------
// Models

/// A name and what it stands for, in `name=spec`; a name has no slash, and without one all is
/// spec.
pub open spec fn model_arg(arg: Seq<char>) -> (Option<Seq<char>>, Seq<char>) {
    match text::cut_at(arg, '=') {
        Some((n, spec)) => if n.len() > 0 && !n.contains('/') {
            (Some(n), spec)
        } else {
            (None, arg)
        },
        None => (None, arg),
    }
}

/// Splits `name=spec`.
pub fn split_model_arg(arg: &str) -> (r: (Option<String>, String))
    ensures
        model_arg(arg@) == (serve::maybe_text(r.0), r.1@),
{
    match split_once(arg, '=') {
        Some((n, spec)) => {
            if n.as_str().unicode_len() > 0 && !has_char(n.as_str(), '/') {
                (Some(n), spec)
            } else {
                (None, arg.to_owned())
            }
        },
        None => (None, arg.to_owned()),
    }
}

/// The name of the `i`th model: the one it is given, else for the first one the one that the
/// server is given, else the one it has by itself.
pub open spec fn served_name(
    given: Option<Seq<char>>,
    server: Option<Seq<char>>,
    own: Seq<char>,
    i: int,
) -> Seq<char> {
    match given {
        Some(n) => n,
        None => match server {
            Some(n) => if i == 0 {
                n
            } else {
                own
            },
            None => own,
        },
    }
}

/// The name of a model.
pub fn name_model(given: &Option<String>, server: &Option<String>, own: &str, first: bool) -> (r:
    String)
    ensures
        r@ == served_name(
            serve::maybe_text(*given),
            serve::maybe_text(*server),
            own@,
            if first {
                0
            } else {
                1
            },
        ),
{
    match given {
        Some(n) => n.clone(),
        None => match server {
            Some(n) => {
                if first {
                    n.clone()
                } else {
                    own.to_owned()
                }
            },
            None => own.to_owned(),
        },
    }
}

/// Whether a name stands twice among the first `n`.
pub open spec fn repeats(names: Seq<Seq<char>>, n: int) -> bool {
    exists|i: int| 0 <= i < n && names.take(i).contains(#[trigger] names[i])
}

/// What is said when two models have one name; `None` when none have.
pub fn check_names(names: &Vec<String>) -> (r: Option<String>)
    ensures
        match r {
            None => !repeats(text::texts(names@), names@.len() as int),
            Some(m) => exists|i: int|
                0 <= i < names@.len() && text::texts(names@).take(i).contains(
                    #[trigger] text::texts(names@)[i],
                ) && !repeats(text::texts(names@), i) && m@ == "two models are named "@
                    + sequence::debug_of(text::texts(names@)[i])
                    + "; name them with --model <name>=<model>"@,
        },
{
    let ghost all = text::texts(names@);
    let mut seen: Vec<String> = Vec::new();
    let mut i: usize = 0;
    proof {
        assert(text::texts(seen@) =~= all.take(0));
    }
    while i < names.len()
        invariant
            i <= names@.len(),
            all == text::texts(names@),
            text::texts(seen@) == all.take(i as int),
            !repeats(all, i as int),
        decreases names@.len() - i,
    {
        if holds(&seen, names[i].as_str()) {
            let mut m = "two models are named ".to_owned();
            m.append(debug_text(names[i].as_str()).as_str());
            m.append("; name them with --model <name>=<model>");
            proof {
                assert(all.take(i as int).contains(all[i as int]));
            }
            return Some(m);
        }
        texts_push(&mut seen, names[i].clone());
        proof {
            assert(all.take(i + 1) =~= all.take(i as int).push(all[i as int]));
        }
        i += 1;
    }
    None
}

/// The model that a calibration is for: the one it names, or the first; the error is a message.
pub fn calibrated_model(name: &Option<String>, names: &Vec<String>) -> (r: Result<String, String>)
    requires
        names@.len() > 0,
    ensures
        ({
            let n = match *name {
                Some(n) => n@,
                None => names@[0]@,
            };
            match r {
                Ok(s) => s@ == n && text::texts(names@).contains(n),
                Err(m) => !text::texts(names@).contains(n) && m@ == "--calibration names model "@
                    + sequence::debug_of(n) + ", which isn't served"@,
            }
        }),
{
    let n = match name {
        Some(n) => n.clone(),
        None => names[0].clone(),
    };
    if holds(names, n.as_str()) {
        Ok(n)
    } else {
        let mut m = "--calibration names model ".to_owned();
        m.append(debug_text(n.as_str()).as_str());
        m.append(", which isn't served");
        Err(m)
    }
}

/// The name of one exact version of a model: the name with the first seven characters of its
/// commit.
pub open spec fn pinned_name(name: Seq<char>, commit: Seq<char>) -> Seq<char> {
    name + "@"@ + if commit.len() > 7 {
        commit.take(7)
    } else {
        commit
    }
}

/// The name of one exact version of a model.
pub fn pin(name: &str, commit: &str) -> (r: String)
    ensures
        r@ == pinned_name(name@, commit@),
{
    let v = chars_of(commit);
    let n: usize = if v.len() > 7 {
        7
    } else {
        v.len()
    };
    let short = text_of(&v, 0, n);
    proof {
        assert(short@ =~= if commit@.len() > 7 {
            commit@.take(7)
        } else {
            commit@
        });
    }
    let mut r = name.to_owned();
    r.append("@");
    r.append(short.as_str());
    r
}

/// What the server says of a model: its layout, and where it comes from when that is the Hub.
pub open spec fn description_of(layout: Layout, hub: Option<(Seq<char>, Seq<char>)>) -> Seq<char> {
    let own = "modernbert + rlcd system one model served by candle-rlcd ("@ + serve::layout_text(
        layout,
    ) + " layout)"@;
    match hub {
        Some((repo, commit)) => own + "; "@ + repo + " at "@ + commit,
        None => own,
    }
}

/// What the server says of a model.
pub fn describe(layout: Layout, hub: Option<(&str, &str)>) -> (r: String)
    ensures
        r@ == description_of(
            layout,
            match hub {
                Some((repo, commit)) => Some((repo@, commit@)),
                None => None,
            },
        ),
{
    let mut r = "modernbert + rlcd system one model served by candle-rlcd (".to_owned();
    r.append(serve::layout_name(layout));
    r.append(" layout)");
    match hub {
        Some((repo, commit)) => {
            r.append("; ");
            r.append(repo);
            r.append(" at ");
            r.append(commit);
        },
        None => {},
    }
    r
}

// ---------------------------------------------------------------------------------------------
// Dates

/// Whether a year has a leap day.
pub open spec fn is_leap(y: int) -> bool {
    y % 4 == 0 && (y % 100 != 0 || y % 400 == 0)
}

/// The days of a month.
pub open spec fn month_days(y: int, m: int) -> int {
    if m == 2 {
        if is_leap(y) {
            29
        } else {
            28
        }
    } else if m == 4 || m == 6 || m == 9 || m == 11 {
        30
    } else {
        31
    }
}

/// The days of a year before a month.
pub open spec fn days_before_month(y: int, m: int) -> int
    decreases m,
{
    if m <= 1 {
        0
    } else {
        days_before_month(y, m - 1) + month_days(y, m - 1)
    }
}

/// The days from the first of January of the year one to that of a year.
pub open spec fn days_before_year(y: int) -> int {
    365 * (y - 1) + (y - 1) / 4 - (y - 1) / 100 + (y - 1) / 400
}

/// The number of a day, counted from the first of January 1970.
pub open spec fn day_number(y: int, m: int, d: int) -> int {
    days_before_year(y) - days_before_year(1970) + days_before_month(y, m) + d - 1
}

/// Whether there is such a day.
pub open spec fn is_date(y: int, m: int, d: int) -> bool {
    1 <= m <= 12 && 1 <= d <= month_days(y, m)
}

/// The years' days add up.
pub proof fn lemma_years_add_up(y: int)
    ensures
        days_before_year(y + 1) == days_before_year(y) + 365 + if is_leap(y) {
            1int
        } else {
            0
        },
{
    lemma_quotient_steps(y, 4);
    lemma_quotient_steps(y, 100);
    lemma_quotient_steps(y, 400);
    assert(y % 400 == 0 ==> y % 100 == 0);
    assert(y % 100 == 0 ==> y % 4 == 0);
}

/// A quotient grows by one at each multiple.
proof fn lemma_quotient_steps(y: int, n: int)
    requires
        n > 0,
    ensures
        y / n == (y - 1) / n + if y % n == 0 {
            1int
        } else {
            0
        },
{
    let q = y / n;
    let r = y % n;
    vstd::arithmetic::div_mod::lemma_fundamental_div_mod(y, n);
    if r == 0 {
        assert(y - 1 == (q - 1) * n + (n - 1)) by (nonlinear_arith)
            requires
                y == n * q,
        ;
        vstd::arithmetic::div_mod::lemma_fundamental_div_mod_converse(y - 1, n, q - 1, n - 1);
    } else {
        assert(y - 1 == q * n + (r - 1)) by (nonlinear_arith)
            requires
                y == n * q + r,
        ;
        vstd::arithmetic::div_mod::lemma_fundamental_div_mod_converse(y - 1, n, q, r - 1);
    }
}

/// The days before each month.
proof fn lemma_months(y: int)
    ensures
        ({
            let l = if is_leap(y) {
                1int
            } else {
                0
            };
            &&& days_before_month(y, 1) == 0
            &&& days_before_month(y, 2) == 31
            &&& days_before_month(y, 3) == 59 + l
            &&& days_before_month(y, 4) == 90 + l
            &&& days_before_month(y, 5) == 120 + l
            &&& days_before_month(y, 6) == 151 + l
            &&& days_before_month(y, 7) == 181 + l
            &&& days_before_month(y, 8) == 212 + l
            &&& days_before_month(y, 9) == 243 + l
            &&& days_before_month(y, 10) == 273 + l
            &&& days_before_month(y, 11) == 304 + l
            &&& days_before_month(y, 12) == 334 + l
        }),
{
    reveal_with_fuel(days_before_month, 13);
}

/// What the parts of a year in the 400-year cycle say of it.
proof fn lemma_cycle(e: int, c: int, q: int, r: int)
    requires
        0 <= c <= 3,
        0 <= q <= 24,
        0 <= r <= 3,
    ensures
        ({
            let y = 400 * e + 100 * c + 4 * q + r;
            &&& days_before_year(y + 1) == 146097 * e + 36524 * c + 1461 * q + 365 * r
            &&& is_leap(y + 1) == (r == 3 && (q != 24 || c == 3))
        }),
{
    let y = 400 * e + 100 * c + 4 * q + r;
    assert(y / 4 == 100 * e + 25 * c + q);
    assert(y / 100 == 4 * e + c);
    assert(y / 400 == e);
}

/// The day of a number of days since the first of January 1970.
pub fn civil_date(days: u64) -> (r: (u64, u64, u64))
    requires
        days <= u64::MAX / 86_400,
    ensures
        is_date(r.0 as int, r.1 as int, r.2 as int),
        day_number(r.0 as int, r.1 as int, r.2 as int) == days,
{
    // Years that begin in March, so that the leap day is the last.
    let z: u64 = days + 719_468;
    let e: u64 = z / 146_097;
    let in_era: u64 = z % 146_097;
    let c: u64 = if in_era / 36_524 < 3 {
        in_era / 36_524
    } else {
        3
    };
    let in_century: u64 = in_era - c * 36_524;
    let q: u64 = in_century / 1_461;
    let in_four: u64 = in_century % 1_461;
    let y: u64 = if in_four / 365 < 3 {
        in_four / 365
    } else {
        3
    };
    let doy: u64 = in_four - y * 365;
    let year: u64 = e * 400 + c * 100 + q * 4 + y;
    let mp: u64 = (5 * doy + 2) / 153;
    let d: u64 = doy - (153 * mp + 2) / 5 + 1;
    proof {
        assert(q <= 24);
        assert(doy <= 365);
        assert(doy == 365 ==> y == 3 && (q != 24 || c == 3));
        lemma_cycle(e as int, c as int, q as int, y as int);
        lemma_years_add_up(year as int);
        lemma_months(year as int);
        lemma_months(year + 1);
        assert(mp <= 11);
        assert(days_before_year(1970) == 719_162);
    }
    if mp < 10 {
        proof {
            let m = mp + 3;
            assert(mp == 0 || mp == 1 || mp == 2 || mp == 3 || mp == 4 || mp == 5 || mp == 6 || mp
                == 7 || mp == 8 || mp == 9);
        }
        (year, mp + 3, d)
    } else {
        proof {
            assert(mp == 10 || mp == 11);
        }
        (year + 1, mp - 9, d)
    }
}

/// A day as `YYYY-MM-DD`.
pub open spec fn date_text(y: nat, m: nat, d: nat) -> Seq<char> {
    text::zero_padded(text::dec(y), 4) + "-"@ + text::zero_padded(text::dec(m), 2) + "-"@
        + text::zero_padded(text::dec(d), 2)
}

/// Whether a text is the day of a number of days since the first of January 1970.
pub open spec fn is_day(s: Seq<char>, days: int) -> bool {
    exists|y: nat, m: nat, d: nat|
        s == #[trigger] date_text(y, m, d) && is_date(y as int, m as int, d as int) && day_number(
            y as int,
            m as int,
            d as int,
        ) == days
}

/// The day of a time, in seconds since the start of 1970, as `YYYY-MM-DD`.
pub fn release_date(seconds: u64) -> (r: String)
    ensures
        is_day(r@, seconds as int / 86_400),
{
    let (y, m, d) = civil_date(seconds / 86_400);
    let mut r = pad_zeros(decimal(y).as_str(), 4);
    r.append("-");
    r.append(pad_zeros(decimal(m).as_str(), 2).as_str());
    r.append("-");
    r.append(pad_zeros(decimal(d).as_str(), 2).as_str());
    proof {
        assert(r@ == date_text(y as nat, m as nat, d as nat));
    }
    r
}

/// Two days with one number are the same day, so a number of days names one day.
pub proof fn lemma_a_number_names_one_day(y: int, m: int, d: int, y2: int, m2: int, d2: int)
    requires
        is_date(y, m, d),
        is_date(y2, m2, d2),
        day_number(y, m, d) == day_number(y2, m2, d2),
    ensures
        y == y2,
        m == m2,
        d == d2,
{
    lemma_within_year(y, m, d);
    lemma_within_year(y2, m2, d2);
    if y < y2 {
        lemma_years_grow(y + 1, y2);
    } else if y2 < y {
        lemma_years_grow(y2 + 1, y);
    }
    lemma_months(y);
    lemma_months(y2);
}

proof fn lemma_within_year(y: int, m: int, d: int)
    requires
        is_date(y, m, d),
    ensures
        days_before_year(y) <= day_number(y, m, d) + days_before_year(1970) < days_before_year(
            y + 1,
        ),
{
    lemma_months(y);
    lemma_years_add_up(y);
}

proof fn lemma_years_grow(a: int, b: int)
    requires
        a <= b,
    ensures
        days_before_year(a) <= days_before_year(b),
    decreases b - a,
{
    if a < b {
        lemma_years_grow(a, b - 1);
        lemma_years_add_up(b - 1);
    }
}

// ---------------------------------------------------------------------------------------------
// What arguments mean

/// A model may be given a name before an equals sign; what has a slash before it is no name.
pub proof fn lemma_model_arguments_are_named_before_the_equals_sign(n: Seq<char>, spec: Seq<char>)
    requires
        !n.contains('='),
    ensures
        n.len() > 0 && !n.contains('/') ==> model_arg(n + seq!['='] + spec) == (Some(n), spec),
        n.len() == 0 || n.contains('/') ==> model_arg(n + seq!['='] + spec) == (
            None::<Seq<char>>,
            n + seq!['='] + spec,
        ),
        model_arg(n) == (None::<Seq<char>>, n),
{
    text::lemma_cutting_parts_at_the_first(n, '=', spec);
}

/// A model is served under the name it is given, the first one else under the server's, and any
/// model else under its own.
pub proof fn lemma_given_names_come_first(
    given: Option<Seq<char>>,
    server: Option<Seq<char>>,
    own: Seq<char>,
    i: int,
)
    ensures
        given matches Some(n) ==> served_name(given, server, own, i) == n,
        given is None && i != 0 ==> served_name(given, server, own, i) == own,
        given is None && i == 0 ==> (server matches Some(n) ==> served_name(given, server, own, i)
            == n),
        given is None && server is None ==> served_name(given, server, own, i) == own,
{
}

/// Names repeat when two of them are the same, and only then.
pub proof fn lemma_names_repeat_when_two_are_the_same(names: Seq<Seq<char>>)
    ensures
        repeats(names, names.len() as int) <==> exists|i: int, j: int|
            0 <= i < j < names.len() && #[trigger] names[i] == #[trigger] names[j],
{
    if repeats(names, names.len() as int) {
        let j = choose|j: int|
            0 <= j < names.len() && names.take(j).contains(#[trigger] names[j]);
        let i = choose|i: int| 0 <= i < names.take(j).len() && names.take(j)[i] == names[j];
        assert(names[i] == names[j]);
    }
    if exists|i: int, j: int|
        0 <= i < j < names.len() && #[trigger] names[i] == #[trigger] names[j] {
        let (i, j) = choose|i: int, j: int|
            0 <= i < j < names.len() && #[trigger] names[i] == #[trigger] names[j];
        assert(names.take(j)[i] == names[j]);
        assert(names.take(j).contains(names[j]));
    }
}

/// A pinned name is the name, a sign, and the start of the commit.
pub proof fn lemma_pinned_names_begin_with_the_name(name: Seq<char>, commit: Seq<char>)
    ensures
        text::begins(pinned_name(name, commit), name),
        pinned_name(name, commit).len() == name.len() + 1 + if commit.len() > 7 {
            7
        } else {
            commit.len()
        },
        pinned_name(name, commit)[name.len() as int] == '@',
        forall|i: int|
            0 <= i < 7 && i < commit.len() ==> pinned_name(name, commit)[name.len() + 1 + i]
                == #[trigger] commit[i],
{
    reveal_strlit("@");
    let p = pinned_name(name, commit);
    assert(p.take(name.len() as int) =~= name);
    assert("@"@.len() == 1 && "@"@[0] == '@');
    assert forall|i: int| 0 <= i < 7 && i < commit.len() implies p[name.len() + 1 + i]
        == #[trigger] commit[i] by {
        if commit.len() > 7 {
            assert(commit.take(7)[i] == commit[i]);
        }
    }
}

/// Number types are named as they are written, and nothing else names one.
pub proof fn lemma_number_types_are_named(s: Seq<char>)
    ensures
        dtype_named(s) == Some(Dtype::F32) <==> s == "f32"@,
        dtype_named(s) == Some(Dtype::F16) <==> s == "f16"@,
        dtype_named(s) == Some(Dtype::Bf16) <==> s == "bf16"@,
        dtype_named(s) is None <==> s != "f32"@ && s != "f16"@ && s != "bf16"@,
{
    reveal_strlit("f32");
    reveal_strlit("f16");
    reveal_strlit("bf16");
    assert("f32"@.len() == 3);
    assert("f16"@.len() == 3);
    assert("bf16"@.len() == 4);
    assert("f16"@[1] == '1');
    assert("f32"@[1] == '3');
}

/// A server has at least one worker: as many as it is given, else one for each core without an
/// accelerator and one with it.
pub proof fn lemma_workers_are_at_least_one(e: EngineArgs, cores: int, cpu: bool)
    ensures
        e.worker_count(cores, cpu) >= 1,
        e.workers matches Some(n) ==> n >= 1 ==> e.worker_count(cores, cpu) == n,
        e.workers is None && cpu && cores >= 1 ==> e.worker_count(cores, cpu) == cores,
        e.workers is None && !cpu ==> e.worker_count(cores, cpu) == 1,
{
}

/// Days follow each other: within a month, from one month to the next, and from the last day of a
/// year to the first of the next; the count starts with the year 1970.
pub proof fn lemma_days_follow_each_other(y: int, m: int, d: int)
    requires
        1 <= m <= 12,
    ensures
        day_number(1970, 1, 1) == 0,
        day_number(y, m, d + 1) == day_number(y, m, d) + 1,
        m < 12 ==> day_number(y, m + 1, 1) == day_number(y, m, month_days(y, m)) + 1,
        day_number(y + 1, 1, 1) == day_number(y, 12, 31) + 1,
        month_days(y, m) == if m == 2 {
            if y % 4 == 0 && (y % 100 != 0 || y % 400 == 0) {
                29int
            } else {
                28
            }
        } else if m == 4 || m == 6 || m == 9 || m == 11 {
            30
        } else {
            31
        },
{
    lemma_years_add_up(y);
    lemma_months(y);
    lemma_months(y + 1);
    lemma_months(1970);
}

} // verus!
