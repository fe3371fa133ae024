//! Refitting temperatures on labelled questions: which questions a temperature is fitted on, which
//! temperatures are fitted at all, and what is reported.
//!
//! A type and bucket of option counts gets its own temperature only with enough questions; a type
//! with enough questions gets a new temperature, and its old bucket temperatures are dropped so
//! that they fall back to it. Types without enough questions keep the model's temperatures.

use vstd::prelude::*;
use vstd::string::*;

use crate::config::{
    self, bucket_label, clamp_temperature, effective_temperature, find_fit, temperature_key,
    AgentConfig, ONE_64,
};
use crate::json::{self, add_member, get, natural, put, string, Json, JsonV, NumV};
use crate::pipeline::{self, all_indices};
use crate::random::{self, Rng};
use crate::sequence::QType;

verus! {

broadcast use crate::json::lemma_tree;

/// How temperatures are refit.
#[derive(Clone, Copy, PartialEq, Eq, Structural, Debug)]
pub struct CalibrateConfig {
    /// Fewest questions a bucket or type needs for its own temperature.
    pub min_examples: usize,
    /// Rows per forward pass.
    pub batch: usize,
    pub seed: u64,
}

impl Default for CalibrateConfig {
    /// Thirty questions for a temperature, eight rows at a time.
    fn default() -> (r: CalibrateConfig)
        ensures
            r == (CalibrateConfig { min_examples: 30, batch: 8, seed: 0 }),
    {
        CalibrateConfig { min_examples: 30, batch: 8, seed: 0 }
    }
}

/// Temperatures per type and bucket, in the order of their names, and per type. They are held as
/// the bits of 64-bit floats.
#[derive(Debug, PartialEq, Eq)]
pub struct Temperatures {
    pub by_options: Vec<(String, u64)>,
    /// Choice, score, noul.
    pub by_type: Vec<u64>,
}

impl Temperatures {
    /// The temperature of a type and an option count: that of the bucket, else that of the type,
    /// else one, clamped.
    pub open spec fn value(self, t: QType, k: nat) -> u64 {
        config::clamped(
            match config::fit_of(config::fits(self.by_options@), config::bucket_name(t, k)) {
                Some(x) => x,
                None => if t.place() < self.by_type@.len() {
                    self.by_type@[t.place()]
                } else {
                    ONE_64
                },
            },
        )
    }

    /// The temperature of a type and an option count.
    pub fn get(&self, t: QType, k: usize) -> (r: u64)
        ensures
            r == self.value(t, k as nat),
    {
        let key = temperature_key(t, k);
        let x: u64 = match find_fit(&self.by_options, key.as_str()) {
            Some(x) => x,
            None => {
                let i: usize = t.index();
                if i < self.by_type.len() {
                    self.by_type[i]
                } else {
                    ONE_64
                }
            },
        };
        clamp_temperature(x)
    }
}

// ---------------------------------------------------------------------------------------------
// Cells: a type and a bucket

/// How many pairs of a type and a bucket there are.
pub const CELLS: usize = 12;

/// The type of a cell. Cells stand in the order of their names.
pub open spec fn cell_type(c: int) -> QType {
    if c < 4 {
        QType::Choice
    } else if c < 8 {
        QType::Noul
    } else {
        QType::Score
    }
}

/// The cell of a type and an option count.
pub open spec fn cell_of(t: QType, k: nat) -> int {
    config::bucket_no(k) + match t {
        QType::Choice => 0int,
        QType::Noul => 4,
        QType::Score => 8,
    }
}

/// The name of a cell's temperature.
pub open spec fn cell_name(c: int) -> Seq<char> {
    cell_type(c).label() + ":"@ + config::bucket_text(c % 4)
}

/// A cell's name is that of the temperature for its type and option counts.
pub proof fn lemma_cell_of(t: QType, k: nat)
    ensures
        0 <= cell_of(t, k) < CELLS,
        cell_type(cell_of(t, k)) == t,
        cell_of(t, k) % 4 == config::bucket_no(k),
        cell_name(cell_of(t, k)) == config::bucket_name(t, k),
{
}

/// Different cells have different names.
pub proof fn lemma_cell_names(c: int, d: int)
    requires
        0 <= c < CELLS,
        0 <= d < CELLS,
        cell_name(c) == cell_name(d),
    ensures
        c == d,
{
    reveal_strlit("choice");
    reveal_strlit("noul");
    reveal_strlit("score");
    reveal_strlit(":");
    reveal_strlit("2");
    reveal_strlit("3-5");
    reveal_strlit("6-10");
    reveal_strlit("11+");
    let a = cell_name(c);
    let b = cell_name(d);
    let n = cell_type(c).label().len() as int;
    let m = cell_type(d).label().len() as int;
    assert(a[n] == ':');
    assert(b[m] == ':');
    assert(cell_type(c).label()[0] == a[0]);
    assert(cell_type(d).label()[0] == b[0]);
    assert(cell_type(c) == cell_type(d));
    assert(a[n + 1] == config::bucket_text(c % 4)[0]);
    assert(b[m + 1] == config::bucket_text(d % 4)[0]);
    assert(c % 4 == d % 4);
}

fn type_of_cell(c: usize) -> (t: QType)
    ensures
        t == cell_type(c as int),
{
    if c < 4 {
        QType::Choice
    } else if c < 8 {
        QType::Noul
    } else {
        QType::Score
    }
}

/// The name of a cell's temperature.
pub fn name_of_cell(c: usize) -> (r: String)
    ensures
        r@ == cell_name(c as int),
{
    let mut r = type_of_cell(c).name().to_owned();
    r.append(":");
    r.append(bucket_label(c % 4));
    r
}

/// The cells among the first `n` that have a temperature, with their names.
pub open spec fn listed(v: Seq<Option<u64>>, n: int) -> Seq<(Seq<char>, u64)>
    decreases n,
{
    if n <= 0 {
        Seq::empty()
    } else {
        match v[n - 1] {
            Some(x) => listed(v, n - 1).push((cell_name(n - 1), x)),
            None => listed(v, n - 1),
        }
    }
}

/// A lookup in a longer list finds what it found before, or the last entry.
proof fn lemma_fit_push(v: Seq<(Seq<char>, u64)>, e: (Seq<char>, u64), key: Seq<char>)
    ensures
        config::fit_of(v.push(e), key) == (match config::fit_of(v, key) {
            Some(x) => Some(x),
            None => if e.0 == key {
                Some(e.1)
            } else {
                None
            },
        }),
    decreases v.len(),
{
    reveal_with_fuel(config::fit_of, 2);
    if v.len() > 0 {
        assert(v.push(e).skip(1) =~= v.skip(1).push(e));
        assert(v.push(e)[0] == v[0]);
        lemma_fit_push(v.skip(1), e, key);
    } else {
        assert(v.push(e).skip(1) =~= Seq::empty());
    }
}

/// A listed cell is found under its name, and any other is not.
pub proof fn lemma_listed(v: Seq<Option<u64>>, n: int, c: int)
    requires
        0 <= n <= CELLS,
        0 <= c < CELLS,
    ensures
        config::fit_of(listed(v, n), cell_name(c)) == (if c < n {
            v[c]
        } else {
            None
        }),
    decreases n,
{
    if n > 0 {
        lemma_listed(v, n - 1, c);
        match v[n - 1] {
            Some(x) => {
                lemma_fit_push(listed(v, n - 1), (cell_name(n - 1), x), cell_name(c));
                if cell_name(n - 1) == cell_name(c) {
                    lemma_cell_names(n - 1, c);
                }
            },
            None => {},
        }
    }
}

fn list_cells(v: &Vec<Option<u64>>) -> (r: Vec<(String, u64)>)
    requires
        v@.len() == CELLS,
    ensures
        config::fits(r@) == listed(v@, CELLS as int),
{
    let mut r: Vec<(String, u64)> = Vec::new();
    let mut c: usize = 0;
    proof {
        assert(config::fits(r@) =~= listed(v@, 0));
    }
    while c < CELLS
        invariant
            c <= CELLS,
            v@.len() == CELLS,
            config::fits(r@) == listed(v@, c as int),
        decreases CELLS - c,
    {
        match v[c] {
            Some(x) => {
                let ghost before = config::fits(r@);
                let name = name_of_cell(c);
                r.push((name, x));
                proof {
                    assert(config::fits(r@) =~= before.push((cell_name(c as int), x)));
                }
            },
            None => {},
        }
        c += 1;
    }
    r
}

// ---------------------------------------------------------------------------------------------
// What a model answers with now

/// An option count of a bucket.
pub open spec fn sample_count(b: int) -> nat {
    if b == 0 {
        11
    } else if b == 1 {
        2
    } else if b == 2 {
        3
    } else {
        6
    }
}

/// Whether a type can have so many options: a noul has two, a score at most ten levels.
pub open spec fn possible(c: int) -> bool {
    match cell_type(c) {
        QType::Choice => true,
        QType::Noul => c % 4 == 1,
        QType::Score => c % 4 != 0,
    }
}

/// The temperature that a model answers with in each cell, where the cell is possible.
pub open spec fn current_cells(cfg: AgentConfig) -> Seq<Option<u64>> {
    Seq::new(
        CELLS as nat,
        |c: int|
            if possible(c) {
                Some(cfg.effective(cell_type(c), sample_count(c % 4)))
            } else {
                None
            },
    )
}

/// The temperatures that a model answers with now, bucket by bucket.
pub fn current_temperatures(cfg: &AgentConfig) -> (r: Temperatures)
    ensures
        config::fits(r.by_options@) == listed(current_cells(*cfg), CELLS as int),
        r.by_type@ == seq![
            cfg.effective(QType::Choice, 3),
            cfg.effective(QType::Score, 3),
            cfg.effective(QType::Noul, 3),
        ],
{
    let ghost all = current_cells(*cfg);
    let mut v: Vec<Option<u64>> = Vec::new();
    let mut c: usize = 0;
    proof {
        assert(v@ =~= all.take(0));
    }
    while c < CELLS
        invariant
            c <= CELLS,
            all == current_cells(*cfg),
            v@ == all.take(c as int),
        decreases CELLS - c,
    {
        let t = type_of_cell(c);
        let b: usize = c % 4;
        let can = match t {
            QType::Choice => true,
            QType::Noul => b == 1,
            QType::Score => b != 0,
        };
        let k: usize = if b == 0 {
            11
        } else if b == 1 {
            2
        } else if b == 2 {
            3
        } else {
            6
        };
        if can {
            v.push(Some(effective_temperature(cfg, t, k)));
        } else {
            v.push(None);
        }
        proof {
            assert(v@ =~= all.take(c + 1));
        }
        c += 1;
    }
    proof {
        assert(all.take(c as int) =~= all);
    }
    let by_options = list_cells(&v);
    let mut by_type: Vec<u64> = Vec::new();
    by_type.push(effective_temperature(cfg, QType::Choice, 3));
    by_type.push(effective_temperature(cfg, QType::Score, 3));
    by_type.push(effective_temperature(cfg, QType::Noul, 3));
    proof {
        assert(by_type@ =~= seq![
            cfg.effective(QType::Choice, 3),
            cfg.effective(QType::Score, 3),
            cfg.effective(QType::Noul, 3),
        ]);
    }
    Temperatures { by_options, by_type }
}

/// What a model is said to answer with is what it answers with, for every question it can be
/// asked.
pub proof fn lemma_current_is_what_answers_use(cfg: AgentConfig, r: Temperatures, t: QType, k: nat)
    requires
        config::fits(r.by_options@) == listed(current_cells(cfg), CELLS as int),
        possible(cell_of(t, k)),
    ensures
        r.value(t, k) == cfg.effective(t, k),
{
    lemma_cell_of(t, k);
    let c = cell_of(t, k);
    lemma_listed(current_cells(cfg), CELLS as int, c);
    let s = sample_count(c % 4);
    assert(config::bucket_no(s) == config::bucket_no(k));
    assert(config::bucket_name(t, s) == config::bucket_name(t, k));
    assert((s >= config::MANY_OPTIONS) == (k >= config::MANY_OPTIONS));
    assert(cfg.effective(t, s) == cfg.effective(t, k));
    config::lemma_clamped(cfg.fitted(t, k));
}

// ---------------------------------------------------------------------------------------------
// Which questions a temperature is fitted on

/// Those of several questions that are of a type. A question is given by its type and its option
/// count.
pub open spec fn of_type(items: Seq<(QType, usize)>, idx: Seq<usize>, t: QType) -> Seq<usize>
    decreases idx.len(),
{
    if idx.len() == 0 {
        Seq::empty()
    } else {
        let before = of_type(items, idx.drop_last(), t);
        if items[idx.last() as int].0 == t {
            before.push(idx.last())
        } else {
            before
        }
    }
}

/// Those of several questions that fall into a cell.
pub open spec fn in_cell(items: Seq<(QType, usize)>, idx: Seq<usize>, c: int) -> Seq<usize>
    decreases idx.len(),
{
    if idx.len() == 0 {
        Seq::empty()
    } else {
        let before = in_cell(items, idx.drop_last(), c);
        let q = items[idx.last() as int];
        if cell_of(q.0, q.1 as nat) == c {
            before.push(idx.last())
        } else {
            before
        }
    }
}

/// Questions by type and by cell.
#[derive(Debug, PartialEq, Eq)]
pub struct Groups {
    /// Choice, score, noul.
    pub types: Vec<Vec<usize>>,
    /// The cells, in order.
    pub cells: Vec<Vec<usize>>,
}

/// The type at a place in per-type lists.
pub open spec fn type_at(i: int) -> QType {
    if i == 0 {
        QType::Choice
    } else if i == 1 {
        QType::Score
    } else {
        QType::Noul
    }
}

impl Groups {
    /// Whether these are the groups of the questions `idx`.
    pub open spec fn hold(self, items: Seq<(QType, usize)>, idx: Seq<usize>) -> bool {
        &&& self.types@.len() == 3
        &&& self.cells@.len() == CELLS
        &&& forall|i: int|
            0 <= i < 3 ==> (#[trigger] self.types@[i])@ == of_type(items, idx, type_at(i))
        &&& forall|c: int| 0 <= c < CELLS ==> (#[trigger] self.cells@[c])@ == in_cell(items, idx, c)
    }
}

fn pick_type(items: &Vec<(QType, usize)>, idx: &[usize], t: QType) -> (r: Vec<usize>)
    requires
        forall|i: int| 0 <= i < idx@.len() ==> (#[trigger] idx@[i]) < items@.len(),
    ensures
        r@ == of_type(items@, idx@, t),
{
    let mut r: Vec<usize> = Vec::new();
    let mut i: usize = 0;
    proof {
        assert(idx@.take(0) =~= Seq::empty());
    }
    while i < idx.len()
        invariant
            i <= idx@.len(),
            forall|i: int| 0 <= i < idx@.len() ==> (#[trigger] idx@[i]) < items@.len(),
            r@ == of_type(items@, idx@.take(i as int), t),
        decreases idx@.len() - i,
    {
        proof {
            assert(idx@.take(i + 1).drop_last() =~= idx@.take(i as int));
            assert(idx@[i as int] < items@.len());
        }
        let k: usize = idx[i];
        if items[k].0 == t {
            r.push(k);
        }
        i += 1;
    }
    proof {
        assert(idx@.take(i as int) =~= idx@);
    }
    r
}

fn find_cell(t: QType, k: usize) -> (c: usize)
    ensures
        c == cell_of(t, k as nat),
{
    let b: usize = if k <= 2 {
        1
    } else if k <= 5 {
        2
    } else if k <= 10 {
        3
    } else {
        0
    };
    match t {
        QType::Choice => b,
        QType::Noul => b + 4,
        QType::Score => b + 8,
    }
}

fn pick_cell(items: &Vec<(QType, usize)>, idx: &[usize], c: usize) -> (r: Vec<usize>)
    requires
        forall|i: int| 0 <= i < idx@.len() ==> (#[trigger] idx@[i]) < items@.len(),
    ensures
        r@ == in_cell(items@, idx@, c as int),
{
    let mut r: Vec<usize> = Vec::new();
    let mut i: usize = 0;
    proof {
        assert(idx@.take(0) =~= Seq::empty());
    }
    while i < idx.len()
        invariant
            i <= idx@.len(),
            forall|i: int| 0 <= i < idx@.len() ==> (#[trigger] idx@[i]) < items@.len(),
            r@ == in_cell(items@, idx@.take(i as int), c as int),
        decreases idx@.len() - i,
    {
        proof {
            assert(idx@.take(i + 1).drop_last() =~= idx@.take(i as int));
            assert(idx@[i as int] < items@.len());
        }
        let k: usize = idx[i];
        if find_cell(items[k].0, items[k].1) == c {
            r.push(k);
        }
        i += 1;
    }
    proof {
        assert(idx@.take(i as int) =~= idx@);
    }
    r
}

/// Puts the questions `idx` into groups by type and by cell.
pub fn group(items: &Vec<(QType, usize)>, idx: &[usize]) -> (r: Groups)
    requires
        forall|i: int| 0 <= i < idx@.len() ==> (#[trigger] idx@[i]) < items@.len(),
    ensures
        r.hold(items@, idx@),
{
    let mut types: Vec<Vec<usize>> = Vec::new();
    types.push(pick_type(items, idx, QType::Choice));
    types.push(pick_type(items, idx, QType::Score));
    types.push(pick_type(items, idx, QType::Noul));
    let mut cells: Vec<Vec<usize>> = Vec::new();
    let mut c: usize = 0;
    while c < CELLS
        invariant
            c <= CELLS,
            forall|i: int| 0 <= i < idx@.len() ==> (#[trigger] idx@[i]) < items@.len(),
            cells@.len() == c,
            forall|d: int| 0 <= d < c ==> (#[trigger] cells@[d])@ == in_cell(items@, idx@, d),
        decreases CELLS - c,
    {
        cells.push(pick_cell(items, idx, c));
        c += 1;
    }
    Groups { types, cells }
}

/// No question is left out: as many fall into the groups of types as there are.
pub proof fn lemma_every_question_is_grouped(items: Seq<(QType, usize)>, idx: Seq<usize>)
    ensures
        of_type(items, idx, QType::Choice).len() + of_type(items, idx, QType::Score).len() + of_type(
            items,
            idx,
            QType::Noul,
        ).len() == idx.len(),
    decreases idx.len(),
{
    if idx.len() > 0 {
        lemma_every_question_is_grouped(items, idx.drop_last());
    }
}

// ---------------------------------------------------------------------------------------------
// Which temperatures are fitted

/// Whether a type with so many questions is refit.
pub fn type_is_due(questions: usize, min: usize) -> (r: bool)
    ensures
        r == (questions >= min),
{
    questions >= min
}

/// Whether a cell with so many questions is refit: with enough of them, and at least one.
pub fn cell_is_due(questions: usize, min: usize) -> (r: bool)
    ensures
        r == (questions > 0 && questions >= min),
{
    questions > 0 && questions >= min
}

/// A cell's temperature after refitting: its own new one, else none when its type was refit, else
/// the one it had.
pub open spec fn refit_cell(
    base: Seq<(Seq<char>, u64)>,
    types: Seq<Option<u64>>,
    cells: Seq<Option<u64>>,
    c: int,
) -> Option<u64> {
    match cells[c] {
        Some(x) => Some(x),
        None => if types[cell_type(c).place()] is Some {
            None
        } else {
            config::fit_of(base, cell_name(c))
        },
    }
}

/// The temperatures of all cells after refitting.
pub open spec fn refit_cells(
    base: Seq<(Seq<char>, u64)>,
    types: Seq<Option<u64>>,
    cells: Seq<Option<u64>>,
) -> Seq<Option<u64>> {
    Seq::new(CELLS as nat, |c: int| refit_cell(base, types, cells, c))
}

/// The temperatures after refitting, from those before and the new ones of types and cells.
/// Temperatures of anything but cells are not kept.
pub fn refit(base: &Temperatures, types: &Vec<Option<u64>>, cells: &Vec<Option<u64>>) -> (r:
    Temperatures)
    requires
        base.by_type@.len() == 3,
        types@.len() == 3,
        cells@.len() == CELLS,
    ensures
        config::fits(r.by_options@) == listed(
            refit_cells(config::fits(base.by_options@), types@, cells@),
            CELLS as int,
        ),
        r.by_type@ == Seq::new(
            3,
            |i: int|
                match types@[i] {
                    Some(x) => x,
                    None => base.by_type@[i],
                },
        ),
{
    let ghost all = refit_cells(config::fits(base.by_options@), types@, cells@);
    let mut v: Vec<Option<u64>> = Vec::new();
    let mut c: usize = 0;
    proof {
        assert(v@ =~= all.take(0));
    }
    while c < CELLS
        invariant
            c <= CELLS,
            types@.len() == 3,
            cells@.len() == CELLS,
            all == refit_cells(config::fits(base.by_options@), types@, cells@),
            v@ == all.take(c as int),
        decreases CELLS - c,
    {
        let x = match cells[c] {
            Some(x) => Some(x),
            None => {
                if types[type_of_cell(c).index()].is_some() {
                    None
                } else {
                    let name = name_of_cell(c);
                    find_fit(&base.by_options, name.as_str())
                }
            },
        };
        v.push(x);
        proof {
            assert(v@ =~= all.take(c + 1));
        }
        c += 1;
    }
    proof {
        assert(all.take(c as int) =~= all);
    }
    let by_options = list_cells(&v);
    let mut by_type: Vec<u64> = Vec::new();
    let mut i: usize = 0;
    while i < 3
        invariant
            i <= 3,
            base.by_type@.len() == 3,
            types@.len() == 3,
            by_type@.len() == i,
            forall|j: int|
                0 <= j < i ==> (#[trigger] by_type@[j]) == (match types@[j] {
                    Some(x) => x,
                    None => base.by_type@[j],
                }),
        decreases 3 - i,
    {
        by_type.push(match types[i] {
            Some(x) => x,
            None => base.by_type[i],
        });
        i += 1;
    }
    Temperatures { by_options, by_type }
}

/// A question whose type was not refit is answered as before, unless its own bucket was; and one
/// whose type was refit but not its bucket is answered with the type's new temperature.
pub proof fn lemma_refitting_only_touches_what_was_fitted(
    base: Temperatures,
    types: Seq<Option<u64>>,
    cells: Seq<Option<u64>>,
    r: Temperatures,
    t: QType,
    k: nat,
)
    requires
        base.by_type@.len() == 3,
        types.len() == 3,
        cells.len() == CELLS,
        config::fits(r.by_options@) == listed(
            refit_cells(config::fits(base.by_options@), types, cells),
            CELLS as int,
        ),
        r.by_type@ == Seq::new(
            3,
            |i: int|
                match types[i] {
                    Some(x) => x,
                    None => base.by_type@[i],
                },
        ),
    ensures
        match cells[cell_of(t, k)] {
            Some(x) => r.value(t, k) == config::clamped(x),
            None => match types[t.place()] {
                Some(x) => r.value(t, k) == config::clamped(x),
                None => r.value(t, k) == base.value(t, k),
            },
        },
{
    lemma_cell_of(t, k);
    lemma_listed(
        refit_cells(config::fits(base.by_options@), types, cells),
        CELLS as int,
        cell_of(t, k),
    );
}

// ---------------------------------------------------------------------------------------------
// Halves

/// The order in which questions are split: shuffled with a seed of its own.
pub open spec fn split_order(n: nat, seed: u64) -> Seq<usize> {
    random::shuffled(seed ^ 0xCA1B, pipeline::indices(n), n - 1).1
}

/// The order in which questions are split: the first half fits temperatures and the second
/// measures them.
pub fn order_questions(n: usize, seed: u64) -> (r: Vec<usize>)
    ensures
        r@ == split_order(n as nat, seed),
        r@.len() == n,
        r@.to_multiset() == pipeline::indices(n as nat).to_multiset(),
{
    let mut r = all_indices(n);
    let mut rng = Rng(seed ^ 0xCA1B);
    let ghost start = r@;
    rng.shuffle(&mut r);
    proof {
        if n > 0 {
            random::lemma_shuffling_keeps_all(seed ^ 0xCA1B, start, n - 1);
        }
    }
    r
}

/// How many questions are said to be scored after a pass, when that is to be said.
pub open spec fn said_after(pass: int, batch: int, questions: int) -> Option<int> {
    let done = if (pass + 1) * batch < questions {
        (pass + 1) * batch
    } else {
        questions
    };
    if questions > 50 && (pass % 10 == 9 || done == questions) {
        Some(done)
    } else {
        None
    }
}

/// Scoring many questions is told of after each tenth pass and at the end, with what was scored so
/// far; scoring few is not.
pub proof fn lemma_scoring_is_told_of(k: int, batch: int, questions: int, pass: int)
    requires
        k >= 1,
        batch >= 1,
        pass >= 0,
    ensures
        questions <= 50 ==> said_after(pass, batch, questions) is None,
        questions > 50 && 10 * k * batch < questions ==> said_after(10 * k - 1, batch, questions)
            == Some(10 * k * batch),
        questions > 50 && (pass + 1) * batch >= questions ==> said_after(pass, batch, questions)
            == Some(questions),
        said_after(pass, batch, questions) matches Some(n) ==> n <= questions && n <= (pass + 1)
            * batch,
{
    assert((10 * k - 1) % 10 == 9);
}

/// How many questions have been scored after a pass, and whether that is worth saying: every ten
/// passes and at the end, when there are more than fifty.
pub fn scoring_progress(pass: usize, batch: usize, questions: usize) -> (r: Option<usize>)
    requires
        (pass + 1) * batch <= usize::MAX,
        pass < usize::MAX,
    ensures
        ({
            let done = if (pass + 1) * batch < questions {
                (pass + 1) * batch
            } else {
                questions as int
            };
            r == (if questions > 50 && (pass % 10 == 9 || done == questions) {
                Some(done as usize)
            } else {
                None
            })
        }),
        match r {
            Some(n) => said_after(pass as int, batch as int, questions as int) == Some(n as int),
            None => said_after(pass as int, batch as int, questions as int) is None,
        },
{
    let all: usize = (pass + 1) * batch;
    let done: usize = if all < questions {
        all
    } else {
        questions
    };
    if questions > 50 && (pass % 10 == 9 || done == questions) {
        Some(done)
    } else {
        None
    }
}

// ---------------------------------------------------------------------------------------------
// Reports

/// How many questions each type and each cell with questions has.
pub open spec fn counts_of(types: Seq<nat>, cells: Seq<nat>) -> Seq<(Seq<char>, JsonV)> {
    seq![
        ("choice"@, JsonV::Number(NumV::Nat(types[0]))),
        ("score"@, JsonV::Number(NumV::Nat(types[1]))),
        ("noul"@, JsonV::Number(NumV::Nat(types[2]))),
    ] + cell_counts(cells, CELLS as int)
}

/// How many questions each of the first `n` cells has, where it has any.
pub open spec fn cell_counts(cells: Seq<nat>, n: int) -> Seq<(Seq<char>, JsonV)>
    decreases n,
{
    if n <= 0 {
        Seq::empty()
    } else if cells[n - 1] > 0 {
        cell_counts(cells, n - 1).push(
            (cell_name(n - 1), JsonV::Number(NumV::Nat(cells[n - 1]))),
        )
    } else {
        cell_counts(cells, n - 1)
    }
}

/// The sizes of several groups.
pub open spec fn sizes(v: Seq<Vec<usize>>) -> Seq<nat> {
    Seq::new(v.len(), |i: int| v[i]@.len())
}

/// How many questions each type and each cell with questions has.
pub fn count_groups(g: &Groups) -> (r: Json)
    requires
        g.types@.len() == 3,
        g.cells@.len() == CELLS,
    ensures
        r@ == JsonV::Object(counts_of(sizes(g.types@), sizes(g.cells@))),
{
    let mut o: Vec<(String, Json)> = Vec::new();
    add_member(&mut o, "choice", natural(g.types[0].len() as u64));
    add_member(&mut o, "score", natural(g.types[1].len() as u64));
    add_member(&mut o, "noul", natural(g.types[2].len() as u64));
    let ghost head = json::members(o@);
    let ghost all = sizes(g.cells@);
    let mut c: usize = 0;
    proof {
        assert(head + cell_counts(all, 0) =~= head);
    }
    while c < CELLS
        invariant
            c <= CELLS,
            g.cells@.len() == CELLS,
            all == sizes(g.cells@),
            json::members(o@) == head + cell_counts(all, c as int),
        decreases CELLS - c,
    {
        let n: usize = g.cells[c].len();
        if n > 0 {
            let name = name_of_cell(c);
            add_member(&mut o, name.as_str(), natural(n as u64));
            proof {
                assert(json::members(o@) =~= head + cell_counts(all, c + 1));
            }
        }
        c += 1;
    }
    proof {
        assert(json::members(o@) =~= counts_of(sizes(g.types@), sizes(g.cells@)));
    }
    Json::Object(o)
}

/// What fitting on one half and measuring on the other gave. The measures are those of the raw
/// probabilities, of the current temperatures and of the fitted ones.
pub struct Holdout {
    pub fit_on: usize,
    pub measured_on: usize,
    pub raw: Json,
    pub current: Json,
    pub calibrated: Json,
}

/// The report of a measurement.
pub open spec fn holdout_of(h: Holdout) -> JsonV {
    JsonV::Object(
        seq![
            ("note"@, JsonV::String("temperatures fit on one half, measured on the other"@)),
            ("fit_on"@, JsonV::Number(NumV::Nat(h.fit_on as nat))),
            ("measured_on"@, JsonV::Number(NumV::Nat(h.measured_on as nat))),
            ("raw"@, h.raw@),
            ("current"@, h.current@),
            ("calibrated"@, h.calibrated@),
        ],
    )
}

/// The report of a refit.
pub open spec fn report_of(
    questions: nat,
    holdout: Option<Holdout>,
    counts: JsonV,
    current: JsonV,
    fitted: JsonV,
) -> JsonV {
    let head = seq![("questions"@, JsonV::Number(NumV::Nat(questions)))];
    JsonV::Object(
        (match holdout {
            Some(h) => head.push(("holdout"@, holdout_of(h))),
            None => head,
        }) + seq![
            ("examples_by_bucket"@, counts),
            ("current"@, current),
            ("fitted"@, fitted),
        ],
    )
}

/// The report of a refit.
pub fn report(
    questions: usize,
    holdout: &Option<Holdout>,
    counts: Json,
    current: Json,
    fitted: Json,
) -> (r: Json)
    ensures
        r@ == report_of(questions as nat, *holdout, counts@, current@, fitted@),
{
    let mut o: Vec<(String, Json)> = Vec::new();
    add_member(&mut o, "questions", natural(questions as u64));
    match holdout {
        Some(h) => {
            let mut p: Vec<(String, Json)> = Vec::new();
            add_member(
                &mut p,
                "note",
                string("temperatures fit on one half, measured on the other"),
            );
            add_member(&mut p, "fit_on", natural(h.fit_on as u64));
            add_member(&mut p, "measured_on", natural(h.measured_on as u64));
            add_member(&mut p, "raw", h.raw.copy());
            add_member(&mut p, "current", h.current.copy());
            add_member(&mut p, "calibrated", h.calibrated.copy());
            proof {
                assert(json::members(p@) =~= holdout_of(*h)->Object_0);
            }
            add_member(&mut o, "holdout", Json::Object(p));
        },
        None => {},
    }
    add_member(&mut o, "examples_by_bucket", counts);
    add_member(&mut o, "current", current);
    add_member(&mut o, "fitted", fitted);
    proof {
        assert(json::members(o@) =~= report_of(
            questions as nat,
            *holdout,
            counts@,
            current@,
            fitted@,
        )->Object_0);
    }
    Json::Object(o)
}

/// The calibration file: the temperatures, and how they were fitted.
pub open spec fn file_of(
    by_type: JsonV,
    by_options: JsonV,
    data: JsonV,
    questions: nat,
    min_examples: nat,
) -> JsonV {
    JsonV::Object(
        seq![
            ("temperature"@, by_type),
            ("temperature_by_options"@, by_options),
            (
                "calibration"@,
                JsonV::Object(
                    seq![
                        ("by"@, JsonV::String("candle-rlcd calibrate"@)),
                        ("data"@, data),
                        ("questions"@, JsonV::Number(NumV::Nat(questions))),
                        ("min_examples"@, JsonV::Number(NumV::Nat(min_examples))),
                    ],
                ),
            ),
        ],
    )
}

/// The calibration file; `data` is the name of the records, or null.
pub fn calibration_file(
    by_type: Json,
    by_options: Json,
    data: Json,
    questions: usize,
    min_examples: usize,
) -> (r: Json)
    ensures
        r@ == file_of(by_type@, by_options@, data@, questions as nat, min_examples as nat),
{
    let mut c: Vec<(String, Json)> = Vec::new();
    add_member(&mut c, "by", string("candle-rlcd calibrate"));
    add_member(&mut c, "data", data);
    add_member(&mut c, "questions", natural(questions as u64));
    add_member(&mut c, "min_examples", natural(min_examples as u64));
    let mut o: Vec<(String, Json)> = Vec::new();
    add_member(&mut o, "temperature", by_type);
    add_member(&mut o, "temperature_by_options", by_options);
    proof {
        assert(json::members(c@) =~= seq![
            ("by"@, JsonV::String("candle-rlcd calibrate"@)),
            ("data"@, data@),
            ("questions"@, JsonV::Number(NumV::Nat(questions as nat))),
            ("min_examples"@, JsonV::Number(NumV::Nat(min_examples as nat))),
        ]);
    }
    add_member(&mut o, "calibration", Json::Object(c));
    proof {
        assert(json::members(o@) =~= file_of(
            by_type@,
            by_options@,
            data@,
            questions as nat,
            min_examples as nat,
        )->Object_0);
    }
    Json::Object(o)
}

/// What an object has under a name, or null.
pub open spec fn entry(v: JsonV, key: Seq<char>) -> JsonV {
    match v {
        JsonV::Object(o) => match json::member(o, key) {
            Some(x) => x,
            None => JsonV::Null,
        },
        _ => JsonV::Null,
    }
}

/// A configuration with the temperatures of a calibration file in place of its own.
pub open spec fn calibrated(cfg: Seq<(Seq<char>, JsonV)>, file: JsonV) -> Seq<(Seq<char>, JsonV)> {
    let a = json::with_member(cfg, "temperature"@, entry(file, "temperature"@));
    let b = json::with_member(
        a,
        "temperature_by_options"@,
        entry(file, "temperature_by_options"@),
    );
    json::with_member(b, "calibration"@, entry(file, "calibration"@))
}

fn copy_entry(v: &Json, key: &str) -> (r: Json)
    ensures
        r@ == entry(v@, key@),
{
    match v {
        Json::Object(o) => match get(o, key) {
            Some(x) => x.copy(),
            None => Json::Null,
        },
        _ => Json::Null,
    }
}

/// Puts the temperatures of a calibration file into a configuration.
pub fn write_into(cfg: &mut Vec<(String, Json)>, file: &Json)
    ensures
        json::members(final(cfg)@) == calibrated(json::members(old(cfg)@), file@),
{
    put(cfg, "temperature", copy_entry(file, "temperature"));
    put(cfg, "temperature_by_options", copy_entry(file, "temperature_by_options"));
    put(cfg, "calibration", copy_entry(file, "calibration"));
}

/// Writing a calibration into a configuration changes only the temperatures: any other setting
/// stays what it was.
pub proof fn lemma_calibrating_keeps_other_settings(
    cfg: Seq<(Seq<char>, JsonV)>,
    file: JsonV,
    key: Seq<char>,
)
    requires
        key != "temperature"@,
        key != "temperature_by_options"@,
        key != "calibration"@,
    ensures
        json::member(calibrated(cfg, file), key) == json::member(cfg, key),
{
    let a = json::with_member(cfg, "temperature"@, entry(file, "temperature"@));
    let b = json::with_member(
        a,
        "temperature_by_options"@,
        entry(file, "temperature_by_options"@),
    );
    json::lemma_with_member(cfg, "temperature"@, entry(file, "temperature"@), key);
    json::lemma_with_member(
        a,
        "temperature_by_options"@,
        entry(file, "temperature_by_options"@),
        key,
    );
    json::lemma_with_member(b, "calibration"@, entry(file, "calibration"@), key);
}

// ---------------------------------------------------------------------------------------------
// What a refit means

/// A temperature is fitted on the questions of its type, all of them and no other; and a cell's on
/// those of its type whose option count has the name of the cell.
pub proof fn lemma_groups_hold_their_own(
    items: Seq<(QType, usize)>,
    idx: Seq<usize>,
    t: QType,
    c: int,
    x: usize,
)
    requires
        0 <= c < CELLS,
    ensures
        of_type(items, idx, t).contains(x) <==> idx.contains(x) && items[x as int].0 == t,
        in_cell(items, idx, c).contains(x) <==> idx.contains(x) && config::bucket_name(
            items[x as int].0,
            items[x as int].1 as nat,
        ) == cell_name(c),
    decreases idx.len(),
{
    if idx.len() > 0 {
        let less = idx.drop_last();
        let l = idx.last();
        lemma_groups_hold_their_own(items, less, t, c, x);
        let (a, b) = (of_type(items, less, t), in_cell(items, less, c));
        let q = items[l as int];
        lemma_cell_of(q.0, q.1 as nat);
        if cell_name(cell_of(q.0, q.1 as nat)) == cell_name(c) {
            lemma_cell_names(cell_of(q.0, q.1 as nat), c);
        }
        assert(idx =~= less.push(l));
        assert(idx.contains(x) <==> less.contains(x) || x == l) by {
            if less.contains(x) {
                let i = choose|i: int| 0 <= i < less.len() && less[i] == x;
                assert(idx[i] == x);
            }
            if x == l {
                assert(idx[idx.len() - 1] == x);
            }
        }
        assert(a.push(l).contains(x) <==> a.contains(x) || x == l) by {
            lemma_push_contains(a, l, x);
        }
        assert(b.push(l).contains(x) <==> b.contains(x) || x == l) by {
            lemma_push_contains(b, l, x);
        }
    }
}

proof fn lemma_push_contains(s: Seq<usize>, l: usize, x: usize)
    ensures
        s.push(l).contains(x) <==> s.contains(x) || x == l,
{
    let p = s.push(l);
    if s.contains(x) {
        let i = choose|i: int| 0 <= i < s.len() && s[i] == x;
        assert(p[i] == x);
    }
    if x == l {
        assert(p[s.len() as int] == x);
    }
}

/// A temperature looked up is that of the bucket's name when it has one, else that of the type
/// (choice, score and noul, in this order), held between one half and five.
pub proof fn lemma_temperatures_are_looked_up_by_bucket(v: Temperatures, t: QType, k: nat, i: int)
    requires
        0 <= i <= v.by_options@.len(),
        forall|j: int| 0 <= j < i ==> (#[trigger] v.by_options@[j]).0@ != config::bucket_name(t, k),
        i < v.by_options@.len() ==> v.by_options@[i].0@ == config::bucket_name(t, k),
    ensures
        ({
            let own: int = match t {
                QType::Choice => 0,
                QType::Score => 1,
                QType::Noul => 2,
            };
            let x: u64 = if i < v.by_options@.len() {
                v.by_options@[i].1
            } else if own < v.by_type@.len() {
                v.by_type@[own]
            } else {
                0x3ff0_0000_0000_0000
            };
            let r = v.value(t, k);
            &&& 0x3fe0_0000_0000_0000 <= x <= 0x4014_0000_0000_0000 ==> r == x
            &&& x < 0x3fe0_0000_0000_0000 ==> r == 0x3fe0_0000_0000_0000
            &&& 0x4014_0000_0000_0000 < x < 0x7ff0_0000_0000_0000 ==> r == 0x4014_0000_0000_0000
        }),
{
    let f = config::fits(v.by_options@);
    assert forall|j: int| 0 <= j < i implies (#[trigger] f[j]).0 != config::bucket_name(t, k) by {
        assert(f[j].0 == v.by_options@[j].0@);
    }
    config::lemma_fit_is_found(f, config::bucket_name(t, k), i);
}

/// A report counts the questions of each type under its name, and those of each cell under its
/// own, where there are any.
pub proof fn lemma_reports_count_by_name(types: Seq<nat>, cells: Seq<nat>, c: int)
    requires
        types.len() == 3,
        cells.len() == CELLS,
        0 <= c < CELLS,
    ensures
        ({
            let o = counts_of(types, cells);
            &&& json::member(o, "choice"@) == Some(JsonV::Number(NumV::Nat(types[0])))
            &&& json::member(o, "score"@) == Some(JsonV::Number(NumV::Nat(types[1])))
            &&& json::member(o, "noul"@) == Some(JsonV::Number(NumV::Nat(types[2])))
            &&& cells[c] > 0 ==> o.contains((cell_name(c), JsonV::Number(NumV::Nat(cells[c]))))
        }),
{
    let o = counts_of(types, cells);
    reveal_strlit("choice");
    reveal_strlit("score");
    reveal_strlit("noul");
    assert("choice"@.len() == 6);
    assert("score"@.len() == 5);
    assert("noul"@.len() == 4);
    json::lemma_member_is(o, 0);
    json::lemma_member_is(o, 1);
    json::lemma_member_is(o, 2);
    if cells[c] > 0 {
        lemma_cell_counted(cells, CELLS as int, c);
        let e = (cell_name(c), JsonV::Number(NumV::Nat(cells[c])));
        let tail = cell_counts(cells, CELLS as int);
        let i = choose|i: int| 0 <= i < tail.len() && tail[i] == e;
        assert(o[3 + i] == e);
    }
}

proof fn lemma_cell_counted(cells: Seq<nat>, n: int, c: int)
    requires
        0 <= c < n <= cells.len(),
        cells[c] > 0,
    ensures
        cell_counts(cells, n).contains((cell_name(c), JsonV::Number(NumV::Nat(cells[c])))),
    decreases n,
{
    let e = (cell_name(c), JsonV::Number(NumV::Nat(cells[c])));
    let less = cell_counts(cells, n - 1);
    if c < n - 1 {
        lemma_cell_counted(cells, n - 1, c);
        let i = choose|i: int| 0 <= i < less.len() && less[i] == e;
        assert(cell_counts(cells, n)[i] == e);
    } else {
        assert(cell_counts(cells, n)[less.len() as int] == e);
    }
}

/// A report and a calibration file say what they were given, each under its own name.
pub proof fn lemma_reports_say_what_was_measured(
    questions: nat,
    holdout: Option<Holdout>,
    counts: JsonV,
    current: JsonV,
    fitted: JsonV,
    data: JsonV,
    min_examples: nat,
)
    ensures
        ({
            let o = report_of(questions, holdout, counts, current, fitted)->Object_0;
            &&& json::member(o, "questions"@) == Some(JsonV::Number(NumV::Nat(questions)))
            &&& json::member(o, "examples_by_bucket"@) == Some(counts)
            &&& json::member(o, "current"@) == Some(current)
            &&& json::member(o, "fitted"@) == Some(fitted)
            &&& holdout is None ==> json::member(o, "holdout"@) is None
            &&& holdout matches Some(h) ==> {
                &&& json::member(o, "holdout"@) matches Some(JsonV::Object(m))
                &&& json::member(m, "fit_on"@) == Some(JsonV::Number(NumV::Nat(h.fit_on as nat)))
                &&& json::member(m, "measured_on"@) == Some(
                    JsonV::Number(NumV::Nat(h.measured_on as nat)),
                )
                &&& json::member(m, "raw"@) == Some(h.raw@)
                &&& json::member(m, "current"@) == Some(h.current@)
                &&& json::member(m, "calibrated"@) == Some(h.calibrated@)
            }
        }),
        ({
            let o = file_of(current, fitted, data, questions, min_examples)->Object_0;
            &&& json::member(o, "temperature"@) == Some(current)
            &&& json::member(o, "temperature_by_options"@) == Some(fitted)
            &&& json::member(o, "calibration"@) matches Some(JsonV::Object(m))
            &&& json::member(m, "data"@) == Some(data)
            &&& json::member(m, "questions"@) == Some(JsonV::Number(NumV::Nat(questions)))
            &&& json::member(m, "min_examples"@) == Some(JsonV::Number(NumV::Nat(min_examples)))
        }),
{
    reveal_strlit("questions");
    reveal_strlit("examples_by_bucket");
    reveal_strlit("current");
    reveal_strlit("fitted");
    reveal_strlit("holdout");
    reveal_strlit("note");
    reveal_strlit("fit_on");
    reveal_strlit("measured_on");
    reveal_strlit("raw");
    reveal_strlit("calibrated");
    reveal_strlit("temperature");
    reveal_strlit("temperature_by_options");
    reveal_strlit("calibration");
    reveal_strlit("by");
    reveal_strlit("data");
    reveal_strlit("min_examples");
    assert("questions"@.len() == 9);
    assert("examples_by_bucket"@.len() == 18);
    assert("current"@.len() == 7);
    assert("fitted"@.len() == 6);
    assert("holdout"@.len() == 7);
    assert("note"@.len() == 4);
    assert("fit_on"@.len() == 6);
    assert("measured_on"@.len() == 11);
    assert("raw"@.len() == 3);
    assert("calibrated"@.len() == 10);
    assert("temperature"@.len() == 11);
    assert("temperature_by_options"@.len() == 22);
    assert("calibration"@.len() == 11);
    assert("by"@.len() == 2);
    assert("data"@.len() == 4);
    assert("min_examples"@.len() == 12);
    assert("current"@[0] == 'c');
    assert("holdout"@[0] == 'h');
    assert("fit_on"@[3] == '_');
    assert("fitted"@[3] == 't');
    assert("data"@[0] == 'd');
    assert("note"@[0] == 'n');
    assert("calibration"@[0] == 'c');
    assert("measured_on"@[0] == 'm');
    assert("temperature"@[0] == 't');
    let o = report_of(questions, holdout, counts, current, fitted)->Object_0;
    let n = o.len() as int;
    json::lemma_member_is(o, 0);
    json::lemma_member_is(o, n - 3);
    json::lemma_member_is(o, n - 2);
    json::lemma_member_is(o, n - 1);
    if let Some(h) = holdout {
        json::lemma_member_is(o, 1);
        let m = holdout_of(h)->Object_0;
        json::lemma_member_is(m, 1);
        json::lemma_member_is(m, 2);
        json::lemma_member_is(m, 3);
        json::lemma_member_is(m, 4);
        json::lemma_member_is(m, 5);
    } else {
        json::lemma_no_member(o, "holdout"@);
    }
    let f = file_of(current, fitted, data, questions, min_examples)->Object_0;
    json::lemma_member_is(f, 0);
    json::lemma_member_is(f, 1);
    json::lemma_member_is(f, 2);
    let m = f[2].1->Object_0;
    json::lemma_member_is(m, 1);
    json::lemma_member_is(m, 2);
    json::lemma_member_is(m, 3);
}

/// Questions are split in an order that has each of them once.
pub proof fn lemma_every_question_is_split_off_once(n: nat, seed: u64)
    requires
        n <= usize::MAX,
    ensures
        split_order(n, seed).to_multiset() == pipeline::indices(n).to_multiset(),
{
    random::lemma_shuffling_keeps_all(seed ^ 0xCA1B, pipeline::indices(n), n - 1);
}

/// Types stand in per-type lists at their own places.
pub proof fn lemma_types_stand_at_their_places(t: QType)
    ensures
        type_at(t.place()) == t,
{
}

/// Every question that can be asked has a place to be fitted: a choice by its options, a score by its
/// levels, of which there are at most ten, and a `noul` question by its two sides; and there is no
/// place for a `noul` question with more.
pub proof fn lemma_every_question_can_be_fitted(k: nat)
    ensures
        possible(cell_of(QType::Choice, k)),
        possible(cell_of(QType::Noul, 2)),
        k > 2 ==> !possible(cell_of(QType::Noul, k)),
        k <= 10 ==> possible(cell_of(QType::Score, k)),
        k > 10 ==> !possible(cell_of(QType::Score, k)),
{
    lemma_cell_of(QType::Choice, k);
    lemma_cell_of(QType::Noul, 2);
    lemma_cell_of(QType::Noul, k);
    lemma_cell_of(QType::Score, k);
}

} // verus!
